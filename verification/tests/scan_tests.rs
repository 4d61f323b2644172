use mediaorganizer::config::FolderMatchMode;
use mediaorganizer::scan::{
    compare_images, compare_videos_linear, folder_filter_passes, is_duplicate, phash_check_duplicate, same_folder_at_depth,
    try_merge, CompareRules, DuplicateGroups, ScanItem,
};

#[test]
fn same_folder_compares_trailing_segments_ignoring_case() {
    assert!(same_folder_at_depth("/a/b/Movies", "/x/y/movies", 1));
    assert!(!same_folder_at_depth("/a/b/Movies", "/x/y/movies", 2));
    assert!(same_folder_at_depth("/a/B/c/", "/z/b//c", 2));
    assert!(same_folder_at_depth("/anything", "/else", 0));
    assert!(!same_folder_at_depth("/a", "/a", 2));
    assert!(!same_folder_at_depth("", "", 1));
}

#[test]
fn folder_modes() {
    assert!(folder_filter_passes(FolderMatchMode::Unconstrained, "/a", "/b", 1));
    assert!(folder_filter_passes(FolderMatchMode::SameFolderOnly, "/x/a", "/y/a", 1));
    assert!(!folder_filter_passes(FolderMatchMode::SameFolderOnly, "/x/a", "/y/b", 1));
    assert!(folder_filter_passes(FolderMatchMode::DifferentFolderOnly, "/x/a", "/y/b", 1));
    assert!(!folder_filter_passes(FolderMatchMode::DifferentFolderOnly, "/x/a", "/y/A", 1));
}

#[test]
fn duplicate_thresholds() {
    assert!(is_duplicate(0, 0b111, 3));
    assert!(!is_duplicate(0, 0b1111, 3));
    assert!(phash_check_duplicate(Some(5), Some(5), 0));
    assert!(!phash_check_duplicate(None, Some(5), 64));
    assert!(!phash_check_duplicate(Some(5), None, 64));
}

#[test]
fn merging_opens_joins_and_refuses_daisy_chains() {
    // Hashes: 0 and 1 are close; 2 is close to 1 but far from 0.
    let hashes = vec![Some(0u64), Some(0b1u64), Some(0b111u64), Some(0b110u64)];
    let mut g = DuplicateGroups::new(4);
    try_merge(&mut g, 0, 1, &hashes, 1);
    assert_eq!(g.group_of, vec![1, 1, 0, 0]);
    assert_eq!(g.rep_of, vec![None, Some(0)]);
    // 2 is compared with the representative 0: 3 bits apart > 1, refused.
    try_merge(&mut g, 1, 2, &hashes, 1);
    assert_eq!(g.group_of, vec![1, 1, 0, 0]);
    assert_eq!(g.pairs, vec![(0, 1)]);
    // 2 and 3 open a second group.
    try_merge(&mut g, 2, 3, &hashes, 1);
    assert_eq!(g.group_of, vec![1, 1, 2, 2]);
    // Representatives 0 and 2 are 3 bits apart: no merge at 1 bit.
    try_merge(&mut g, 1, 3, &hashes, 1);
    assert_eq!(g.group_of, vec![1, 1, 2, 2]);
    // At 3 bits they merge into the first group.
    try_merge(&mut g, 1, 3, &hashes, 3);
    assert_eq!(g.group_of, vec![1, 1, 1, 1]);
    assert_eq!(g.rep_of, vec![None, Some(0), None]);
    assert_eq!(g.pairs, vec![(0, 1), (2, 3), (1, 3)]);
}

#[test]
fn image_comparison_groups_duplicates() {
    let item = |h: Option<u64>, folder: &str| ScanItem { first_hash: h, folder: folder.to_string() };
    let items = vec![
        item(Some(0), "/p/a"),
        item(Some(1), "/p/b"),
        item(None, "/p/c"),
        item(Some(u64::MAX), "/p/d"),
        item(Some(3), "/q/a"),
    ];
    let rules = CompareRules { max_bits: 2, folder_mode: FolderMatchMode::Unconstrained, same_folder_depth: 1 };
    let g = compare_images(&items, rules);
    assert_eq!(g.pairs, vec![(0, 1), (0, 4), (1, 4)]);
    assert_eq!(g.group_of, vec![1, 1, 0, 0, 1]);

    let rules = CompareRules { max_bits: 2, folder_mode: FolderMatchMode::SameFolderOnly, same_folder_depth: 1 };
    let g = compare_images(&items, rules);
    assert_eq!(g.pairs, vec![(0, 4)]);
    assert!(compare_images(&vec![], rules).pairs.is_empty());
}

#[test]
fn video_comparison_skips_pairs_of_far_durations() {
    let item = |h: Option<u64>| ScanItem { first_hash: h, folder: "/v".to_string() };
    let items = vec![item(Some(0)), item(Some(1)), item(Some(3))];
    let rules = CompareRules { max_bits: 2, folder_mode: FolderMatchMode::Unconstrained, same_folder_depth: 1 };
    let all = vec![vec![true; 3]; 3];
    assert_eq!(compare_videos_linear(&items, rules, &all).pairs, vec![(0, 1), (0, 2), (1, 2)]);
    let mut gate = vec![vec![true; 3]; 3];
    gate[0][1] = false;
    let g = compare_videos_linear(&items, rules, &gate);
    assert_eq!(g.pairs, vec![(0, 2), (1, 2)]);
    assert_eq!(g.group_of, vec![1, 1, 1]);
}
