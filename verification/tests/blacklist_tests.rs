use mediaorganizer::blacklist::{
    compute_blacklisted_ids, make_path_set, normalise_path, paths_equal, prune_missing, Blacklist,
};

#[test]
fn compute_blacklisted_fully_covered() {
    let bl: Blacklist = vec![make_path_set(vec!["/a/foo.mp4".to_string(), "/b/bar.mp4".to_string()])];
    let items = vec![(1u64, "/a/foo.mp4"), (1u64, "/b/bar.mp4")];
    let blocked = compute_blacklisted_ids(items, &bl);
    assert!(blocked.contains(&1));
}

#[test]
fn compute_blacklisted_partial_subset_blocked() {
    // User marked {A,B,C}; scan finds {A,B} — still covered.
    let bl: Blacklist = vec![make_path_set(vec!["/a".to_string(), "/b".to_string(), "/c".to_string()])];
    let items = vec![(2u64, "/a"), (2u64, "/b")];
    let blocked = compute_blacklisted_ids(items, &bl);
    assert!(blocked.contains(&2));
}

#[test]
fn compute_blacklisted_not_covered() {
    let bl: Blacklist = vec![make_path_set(vec!["/a".to_string(), "/b".to_string()])];
    let items = vec![(3u64, "/a"), (3u64, "/c")]; // /c not in blacklist
    let blocked = compute_blacklisted_ids(items, &bl);
    assert!(!blocked.contains(&3));
}

#[test]
fn compute_blacklisted_empty_blacklist_blocks_nothing() {
    let bl: Blacklist = vec![];
    let items = vec![(1u64, "/a"), (1u64, "/b")];
    assert!(compute_blacklisted_ids(items, &bl).is_empty());
}

#[test]
fn compute_blacklisted_reports_each_cluster_once() {
    let bl: Blacklist = vec![
        make_path_set(vec!["/a".to_string(), "/b".to_string()]),
        make_path_set(vec!["/a".to_string(), "/b".to_string(), "/c".to_string()]),
    ];
    let items = vec![(7u64, "/a"), (7u64, "/b"), (8u64, "/c"), (9u64, "/x"), (7u64, "/a")];
    let mut blocked = compute_blacklisted_ids(items, &bl);
    blocked.sort();
    assert_eq!(blocked, vec![7, 8]);
}

#[test]
fn make_path_set_removes_repeats_in_order() {
    let set = make_path_set(vec!["/b".to_string(), "/a".to_string(), "/b".to_string(), "/a".to_string()]);
    assert_eq!(set, vec!["/b".to_string(), "/a".to_string()]);
}

#[test]
fn paths_compare_exactly() {
    assert!(paths_equal("/a/b.mp4", "/a/b.mp4"));
    assert!(!paths_equal("/a/b.mp4", "/A/b.mp4"));
    assert_eq!(normalise_path("/x/y"), "/x/y");
}

#[test]
fn prune_missing_drops_entries_with_a_missing_path() {
    let mut bl: Blacklist = vec![
        vec!["/a".to_string(), "/b".to_string()],
        vec!["/c".to_string(), "/d".to_string()],
        vec!["/e".to_string()],
    ];
    let present = vec![vec![true, true], vec![true, false], vec![true]];
    let removed = prune_missing(&mut bl, &present);
    assert_eq!(removed, 1);
    assert_eq!(bl, vec![vec!["/a".to_string(), "/b".to_string()], vec!["/e".to_string()]]);
}

#[test]
fn blacklist_times_are_rough() {
    assert_eq!(mediaorganizer::blacklist::format_unix(0), "1970-01-01 00:00:00");
    assert_eq!(mediaorganizer::blacklist::format_unix(1_700_000_000), "2023-12-01 22:13:20");
}
