use mediaorganizer::discovery::{discovery_accepts, DiscoveryRules};

fn rules() -> DiscoveryRules {
    DiscoveryRules {
        include_images: false,
        exclude_dirs: vec![],
        filter_by_file_size: false,
        min_file_size_bytes: 0,
        max_file_size_bytes: 0,
        filter_by_path_contains: false,
        path_contains_texts: vec![],
        filter_by_path_not_contains: false,
        path_not_contains_texts: vec![],
    }
}

#[test]
fn takes_videos_by_extension_case_insensitively() {
    let r = rules();
    assert!(discovery_accepts("/videos/a.MP4", None, &r));
    assert!(discovery_accepts("/videos/b.mkv", None, &r));
    assert!(discovery_accepts("/videos/c.mp4/", None, &r));
    assert!(!discovery_accepts("/videos/notes.txt", None, &r));
    assert!(!discovery_accepts("/videos/.mp4", None, &r));
    assert!(!discovery_accepts("/videos/mp4", None, &r));
}

#[test]
fn images_only_when_included() {
    let mut r = rules();
    assert!(!discovery_accepts("/p/photo.jpg", None, &r));
    r.include_images = true;
    assert!(discovery_accepts("/p/photo.JPG", None, &r));
    // an image extension the scan does not take
    assert!(!discovery_accepts("/p/photo.heic", None, &r));
}

#[test]
fn excluded_folders_compare_whole_components() {
    let mut r = rules();
    r.exclude_dirs = vec!["/videos/skip".to_string()];
    assert!(!discovery_accepts("/videos/skip/x.mp4", None, &r));
    assert!(!discovery_accepts("/videos//skip/./x.mp4", None, &r));
    assert!(discovery_accepts("/videos/skipped/x.mp4", None, &r));
    r.exclude_dirs = vec!["a".to_string()];
    assert!(!discovery_accepts("a/x.mp4", None, &r));
    assert!(discovery_accepts("./a/x.mp4", None, &r));
}

#[test]
fn size_filter_applies_when_the_size_is_known() {
    let mut r = rules();
    r.filter_by_file_size = true;
    r.min_file_size_bytes = 100;
    r.max_file_size_bytes = 1000;
    assert!(!discovery_accepts("/v/a.mp4", Some(99), &r));
    assert!(discovery_accepts("/v/a.mp4", Some(100), &r));
    assert!(!discovery_accepts("/v/a.mp4", Some(1001), &r));
    assert!(discovery_accepts("/v/a.mp4", None, &r));
    r.max_file_size_bytes = 0;
    assert!(discovery_accepts("/v/a.mp4", Some(u64::MAX), &r));
}

#[test]
fn path_text_filters() {
    let mut r = rules();
    r.filter_by_path_contains = true;
    // an empty list does not filter
    assert!(discovery_accepts("/v/a.mp4", None, &r));
    r.path_contains_texts = vec!["keep".to_string(), "good".to_string()];
    assert!(discovery_accepts("/v/good/a.mp4", None, &r));
    assert!(!discovery_accepts("/v/other/a.mp4", None, &r));
    r.filter_by_path_not_contains = true;
    r.path_not_contains_texts = vec!["trash".to_string()];
    assert!(!discovery_accepts("/v/good/trash/a.mp4", None, &r));
}
