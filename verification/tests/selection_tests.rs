use mediaorganizer::selection::{
    glob_match, run_custom_selection, CustomSelectionData, SelectionCluster, SelectionFile,
};

#[test]
fn plain_pattern_is_a_substring_test() {
    assert!(glob_match("foo", "/a/foo/b.mp4"));
    assert!(!glob_match("bar", "/a/foo/b.mp4"));
    assert!(glob_match("", "/anything"));
}

#[test]
fn star_patterns_anchor_first_and_last_parts() {
    assert!(glob_match("*.mp4", "/x/y.mp4"));
    assert!(!glob_match("*.mp4", "/x/y.mkv"));
    assert!(glob_match("/a/*", "/a/b"));
    assert!(!glob_match("/a/*", "/b/a/c"));
    assert!(glob_match("a*b*c", "axxbyyc"));
    assert!(!glob_match("a*b*c", "acb"));
    assert!(glob_match("*", ""));
    assert!(glob_match("*b*", "abc"));
}

#[test]
fn middle_parts_are_found_in_order() {
    assert!(glob_match("x*mid*end", "x..mid..end"));
    assert!(!glob_match("x*mid*end", "x..end..mid"));
}

#[test]
fn question_mark_is_literal_inside_parts() {
    assert!(glob_match("x?y", "x?yz"));
    assert!(!glob_match("x?y", "axy"));
}

fn f(id: &str, path: &str, image: bool, mb: u64, at: u64) -> SelectionFile {
    SelectionFile {
        id: id.to_string(),
        path: path.to_string(),
        is_image: image,
        size_bytes: mb * 1_048_576,
        scanned_at: at,
    }
}

#[test]
fn default_selection_parameters() {
    let d = CustomSelectionData::default();
    assert!(d.ignore_groups_with_checked);
    assert_eq!(d.max_size_mb, 999_999_999);
    assert_eq!(d.similarity_to, 100);
}

#[test]
fn keeps_first_by_default_and_selects_the_rest() {
    let clusters = vec![SelectionCluster {
        files: vec![f("a", "/v/a.mp4", false, 5, 1), f("b", "/v/b.mp4", false, 5, 3), f("c", "/v/c.mp4", false, 5, 2)],
        in_similarity_range: true,
    }];
    let out = run_custom_selection(&CustomSelectionData::default(), &clusters, &vec![]);
    assert_eq!(out, vec!["b".to_string(), "c".to_string()]);
}

#[test]
fn newest_and_oldest_keepers() {
    let clusters = vec![SelectionCluster {
        files: vec![f("a", "/v/a", false, 5, 1), f("b", "/v/b", false, 5, 3), f("c", "/v/c", false, 5, 2)],
        in_similarity_range: true,
    }];
    let mut d = CustomSelectionData::default();
    d.datetime = 1;
    assert_eq!(run_custom_selection(&d, &clusters, &vec![]), vec!["a".to_string(), "c".to_string()]);
    d.datetime = 2;
    assert_eq!(run_custom_selection(&d, &clusters, &vec![]), vec!["b".to_string(), "c".to_string()]);
}

#[test]
fn filters_and_skips() {
    let clusters = vec![
        SelectionCluster {
            files: vec![f("a", "/v/a.mp4", false, 5, 1), f("i", "/v/i.jpg", true, 5, 1), f("b", "/v/b.mp4", false, 50, 1)],
            in_similarity_range: true,
        },
        SelectionCluster {
            files: vec![f("x", "/v/x.mp4", false, 5, 1), f("y", "/v/y.mp4", false, 5, 1)],
            in_similarity_range: false,
        },
        SelectionCluster {
            files: vec![f("p", "/keep/p.mp4", false, 5, 1), f("q", "/v/q.mp4", false, 5, 1)],
            in_similarity_range: true,
        },
    ];
    let mut d = CustomSelectionData::default();
    d.file_type = 1;
    // only videos: a and b pass in the first cluster, keep a
    assert_eq!(run_custom_selection(&d, &clusters, &vec![]), vec!["b".to_string(), "q".to_string()]);
    d.max_size_mb = 10;
    // b is now too large, leaving one file in the first cluster
    assert_eq!(run_custom_selection(&d, &clusters, &vec![]), vec!["q".to_string()]);
    d.path_not_contains = vec!["/keep/*".to_string()];
    assert!(run_custom_selection(&d, &clusters, &vec![]).is_empty());
    let mut e = CustomSelectionData::default();
    e.path_contains = vec!["*.mp4".to_string()];
    // the third cluster already has a selected file
    assert_eq!(run_custom_selection(&e, &clusters, &vec!["p".to_string()]), vec!["b".to_string()]);
    e.ignore_groups_with_checked = false;
    assert_eq!(
        run_custom_selection(&e, &clusters, &vec!["p".to_string()]),
        vec!["b".to_string(), "q".to_string()]
    );
}
