use mediaorganizer::relocate::{
    build_prefix_preview, rescan_finish, rescan_step, DiskEntry, RelocateFile, RescanStep,
};

fn rf(id: &str, path: &str, size: u64, at: u64) -> RelocateFile {
    RelocateFile { id: id.to_string(), path: path.to_string(), size_bytes: size, scanned_at: at }
}

fn de(path: &str, size: u64, mtime: u64) -> DiskEntry {
    DiskEntry { path: path.to_string(), size, mtime }
}

#[test]
fn prefix_preview_needs_both_prefixes() {
    let files = vec![rf("1", "/old/a.mp4", 1, 0)];
    let err = build_prefix_preview(&files, "", "/new").err().unwrap();
    assert_eq!(err, "Both prefix fields must be filled in.");
    assert!(build_prefix_preview(&files, "/old", "").is_err());
}

#[test]
fn prefix_preview_replaces_prefix() {
    let files = vec![
        rf("1", "/old/a.mp4", 1, 0),
        rf("2", "/other/b.mp4", 1, 0),
        rf("3", "/old/sub/c.mkv", 1, 0),
    ];
    let rows = build_prefix_preview(&files, "/old/", "/new//").unwrap();
    assert_eq!(rows.len(), 2);
    assert_eq!(rows[0].old_path, "/old/a.mp4");
    assert_eq!(rows[0].new_path.as_deref(), Some("/new/a.mp4"));
    assert_eq!(rows[0].file_id, "1");
    assert!(rows[0].selected);
    assert_eq!(rows[0].confidence, "Prefix");
    assert_eq!(rows[0].note, "Prefix replace");
    assert_eq!(rows[1].new_path.as_deref(), Some("/new/sub/c.mkv"));
}

#[test]
fn prefix_is_matched_as_text() {
    // a plain text prefix: "/old" also matches "/older"
    let files = vec![rf("1", "/older/x", 1, 0)];
    let rows = build_prefix_preview(&files, "/old", "/new").unwrap();
    assert_eq!(rows[0].new_path.as_deref(), Some("/newer/x"));
}

fn resolved(step: RescanStep) -> mediaorganizer::relocate::RelocateRow {
    match step {
        RescanStep::Resolved(r) => r,
        RescanStep::CheckDurations(_) => panic!("expected a row"),
    }
}

#[test]
fn rescan_without_same_size_is_not_found() {
    let f = rf("1", "/gone/a.mp4", 100, 50);
    let row = resolved(rescan_step(&f, &vec![de("/x", 99, 50)], true, true));
    assert_eq!(row.confidence, "NotFound");
    assert_eq!(row.note, "No same-size file in scan roots");
    assert!(row.new_path.is_none());
    assert!(!row.selected);
}

#[test]
fn rescan_unique_size_resolves_at_once() {
    let f = rf("1", "/gone/a.mp4", 100, 50);
    let row = resolved(rescan_step(&f, &vec![de("/x", 99, 0), de("/y", 100, 9999)], true, true));
    assert_eq!(row.confidence, "SizeOnly");
    assert_eq!(row.note, "Unique by size");
    assert_eq!(row.new_path.as_deref(), Some("/y"));
    assert!(row.selected);
}

#[test]
fn rescan_refines_by_modification_time() {
    let f = rf("1", "/gone/a.mp4", 100, 50);
    let entries = vec![de("/p", 100, 52), de("/q", 100, 60), de("/r", 100, 47)];
    let row = resolved(rescan_step(&f, &entries, true, false));
    // 52 is within two seconds, 60 and 47 are not
    assert_eq!(row.new_path.as_deref(), Some("/p"));
    assert_eq!(row.confidence, "SizeAndModified");
    assert_eq!(row.note, "Resolved by SizeAndModified");
}

#[test]
fn rescan_ambiguous_and_refinement_failures() {
    let f = rf("1", "/gone/a.mp4", 100, 50);
    let entries = vec![de("/p", 100, 1), de("/q", 100, 2), de("/r", 100, 3)];
    let row = resolved(rescan_step(&f, &entries, false, false));
    assert_eq!(row.confidence, "Ambiguous");
    assert_eq!(row.note, "3 candidates remain");
    let none = resolved(rescan_step(&f, &entries, true, false));
    assert_eq!(none.confidence, "NotFound");
    assert_eq!(none.note, "No candidate after refinements");
}

#[test]
fn rescan_asks_for_durations_then_finishes() {
    let f = rf("1", "/gone/a.mp4", 100, 50);
    let entries = vec![de("/p", 100, 50), de("/q", 100, 51), de("/r", 7, 50)];
    match rescan_step(&f, &entries, true, true) {
        RescanStep::CheckDurations(cands) => {
            assert_eq!(cands, vec![0, 1]);
            let row = rescan_finish(&f, &entries, &cands, &vec![false, true], true, true);
            assert_eq!(row.new_path.as_deref(), Some("/q"));
            assert_eq!(row.confidence, "SizeModifiedDuration");
            assert_eq!(row.note, "Resolved by SizeModifiedDuration");
            let amb = rescan_finish(&f, &entries, &cands, &vec![true, true], true, true);
            assert_eq!(amb.note, "2 candidates remain");
        }
        RescanStep::Resolved(_) => panic!("expected a duration check"),
    }
}
