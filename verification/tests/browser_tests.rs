use mediaorganizer::browser::{database_page, format_unix, view_order, DbRow, DbSort, PAGE_SIZE};

fn row(name: &str, path: &str, size: u64, at: u64) -> DbRow {
    DbRow {
        id: name.to_string(),
        name: name.to_string(),
        path: path.to_string(),
        size_bytes: size,
        is_image: false,
        scanned_at: at,
        has_sha256: false,
    }
}

fn rows() -> Vec<DbRow> {
    vec![
        row("b.mp4", "/x/b.mp4", 30, 3),
        row("A.mp4", "/y/A.mp4", 10, 1),
        row("a.mp4", "/x/a.mp4", 30, 2),
        row("Clip.MKV", "/z/Clip.MKV", 20, 2),
    ]
}

#[test]
fn orders_are_stable_sorts() {
    let r = rows();
    assert_eq!(view_order(&r, "", DbSort::Name), vec![1, 3, 2, 0]);
    assert_eq!(view_order(&r, "", DbSort::Path), vec![2, 0, 1, 3]);
    assert_eq!(view_order(&r, "", DbSort::SizeAsc), vec![1, 3, 0, 2]);
    assert_eq!(view_order(&r, "", DbSort::SizeDesc), vec![0, 2, 3, 1]);
    assert_eq!(view_order(&r, "", DbSort::DateAsc), vec![1, 2, 3, 0]);
    assert_eq!(view_order(&r, "", DbSort::DateDesc), vec![0, 2, 3, 1]);
}

#[test]
fn search_is_case_insensitive_on_name_and_path() {
    let r = rows();
    assert_eq!(view_order(&r, "CLIP", DbSort::Name), vec![3]);
    assert_eq!(view_order(&r, "/x/", DbSort::Name), vec![2, 0]);
    assert_eq!(view_order(&r, "a.MP4", DbSort::SizeAsc), vec![1, 2]);
    assert!(view_order(&r, "nothing", DbSort::Name).is_empty());
}

#[test]
fn pages_of_fifty() {
    assert_eq!(PAGE_SIZE, 50);
    let many: Vec<DbRow> = (0..120u64).map(|i| row(&format!("f{i:03}"), "/p", i, i)).collect();
    let first = database_page(&many, "", DbSort::SizeAsc, 0);
    assert_eq!(first.total_pages, 3);
    assert_eq!(first.cur_page, 0);
    assert_eq!(first.page_rows, (0..50).collect::<Vec<usize>>());
    let last = database_page(&many, "", DbSort::SizeAsc, 9);
    assert_eq!(last.cur_page, 2);
    assert_eq!(last.page_rows, (100..120).collect::<Vec<usize>>());
    let none = database_page(&many, "zzz", DbSort::Name, 4);
    assert_eq!((none.total_pages, none.cur_page), (1, 0));
    assert!(none.page_rows.is_empty());
    let hundred: Vec<DbRow> = (0..100u64).map(|i| row(&format!("f{i:03}"), "/p", i, i)).collect();
    let exact = database_page(&hundred, "", DbSort::SizeDesc, 1);
    assert_eq!(exact.total_pages, 2);
    assert_eq!(exact.page_rows, (0..50).rev().collect::<Vec<usize>>());
}

#[test]
fn scan_times_are_calendar_dates() {
    assert_eq!(format_unix(0), "1970-01-01 00:00");
    assert_eq!(format_unix(1_700_000_000), "2023-11-14 22:13");
    assert_eq!(format_unix(951_782_400), "2000-02-29 00:00");
}
