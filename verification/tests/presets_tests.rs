use mediaorganizer::config::FolderMatchMode;
use mediaorganizer::presets::{find_preset, save_preset};
use mediaorganizer::ui_state::add_scan_folder;

#[test]
fn saving_a_preset_adds_it_once_trimmed() {
    let mut ps: Vec<(String, String)> = Vec::new();
    assert!(save_preset(&mut ps, "  big files ", " size_bytes > 5000000 "));
    assert_eq!(ps, vec![("big files".to_string(), "size_bytes > 5000000".to_string())]);
    assert_eq!(find_preset(&ps, "big files"), Some("size_bytes > 5000000".to_string()));
    assert_eq!(find_preset(&ps, "small files"), None);
}

#[test]
fn saving_under_an_existing_name_replaces_the_query() {
    let mut ps: Vec<(String, String)> = Vec::new();
    assert!(save_preset(&mut ps, "a", "x = 1"));
    assert!(save_preset(&mut ps, "b", "y = 2"));
    assert!(save_preset(&mut ps, "a", "x = 3"));
    assert_eq!(ps.len(), 2);
    assert_eq!(ps[0], ("a".to_string(), "x = 3".to_string()));
    assert_eq!(find_preset(&ps, "a"), Some("x = 3".to_string()));
    assert_eq!(find_preset(&ps, "b"), Some("y = 2".to_string()));
}

#[test]
fn blank_name_or_query_is_not_saved() {
    let mut ps: Vec<(String, String)> = vec![("a".to_string(), "x".to_string())];
    assert!(!save_preset(&mut ps, "   ", "x = 1"));
    assert!(!save_preset(&mut ps, "b", "  "));
    assert_eq!(ps, vec![("a".to_string(), "x".to_string())]);
    // the placeholder option of the picker selects nothing
    assert_eq!(find_preset(&ps, ""), None);
}

#[test]
fn folder_mode_choices_round_trip() {
    for mode in [
        FolderMatchMode::Unconstrained,
        FolderMatchMode::SameFolderOnly,
        FolderMatchMode::DifferentFolderOnly,
    ] {
        assert_eq!(FolderMatchMode::from_choice(mode.choice()), mode);
    }
    assert_eq!(FolderMatchMode::from_choice("same"), FolderMatchMode::SameFolderOnly);
    assert_eq!(FolderMatchMode::from_choice("different"), FolderMatchMode::DifferentFolderOnly);
    assert_eq!(FolderMatchMode::from_choice("none"), FolderMatchMode::Unconstrained);
    assert_eq!(FolderMatchMode::from_choice("bogus"), FolderMatchMode::Unconstrained);
}

#[test]
fn typed_folders_are_trimmed_and_blank_ones_ignored() {
    let mut dirs: Vec<String> = vec!["/a".to_string()];
    assert!(add_scan_folder(&mut dirs, "  /media/videos \n"));
    assert!(!add_scan_folder(&mut dirs, "   "));
    assert_eq!(dirs, vec!["/a".to_string(), "/media/videos".to_string()]);
}
