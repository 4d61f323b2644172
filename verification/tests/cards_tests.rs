use mediaorganizer::cards::{
    card_summary, method_filter_from_choice, shown_groups, sort_from_choice, total_files, CardEdge, CardFile,
    CardGroup, TypeFilter,
};
use mediaorganizer::db::MatchMethod;
use mediaorganizer::ui_state::ResultSort;

fn group(files: &[(&str, bool)], sim: f32) -> CardGroup {
    CardGroup {
        files: files.iter().map(|(p, img)| CardFile { path: p.to_string(), is_image: *img }).collect(),
        max_similarity_bits: sim.to_bits(),
    }
}

#[test]
fn toolbar_choices() {
    assert_eq!(sort_from_choice("sim_asc"), ResultSort::SimilarityAsc);
    assert_eq!(sort_from_choice("size_desc"), ResultSort::SizeDesc);
    assert_eq!(sort_from_choice("sim_desc"), ResultSort::SimilarityDesc);
    assert_eq!(sort_from_choice("other"), ResultSort::SimilarityDesc);
    assert_eq!(method_filter_from_choice("all"), None);
    assert_eq!(method_filter_from_choice("IframeTimeline"), Some("IframeTimeline".to_string()));
    assert_eq!(TypeFilter::from_choice("videos"), TypeFilter::Videos);
    assert_eq!(TypeFilter::from_choice("images"), TypeFilter::Images);
    assert_eq!(TypeFilter::from_choice("all"), TypeFilter::All);
}

#[test]
fn results_filters_by_path_similarity_and_kind() {
    let groups = vec![
        group(&[("/Movies/A.mp4", false), ("/Movies/a copy.mp4", false)], 0.99),
        group(&[("/Photos/x.jpg", true), ("/Photos/y.jpg", true)], 0.90),
        group(&[("/Mixed/clip.mkv", false), ("/Mixed/still.png", true)], 0.80),
    ];
    assert_eq!(shown_groups(&groups, "", 0, TypeFilter::All), vec![0, 1, 2]);
    assert_eq!(shown_groups(&groups, "movies", 0, TypeFilter::All), vec![0]);
    assert_eq!(shown_groups(&groups, "", 0.85f32.to_bits(), TypeFilter::All), vec![0, 1]);
    assert_eq!(shown_groups(&groups, "", 0, TypeFilter::Videos), vec![0, 2]);
    assert_eq!(shown_groups(&groups, "", 0, TypeFilter::Images), vec![1, 2]);
    assert_eq!(shown_groups(&groups, "STILL", 0, TypeFilter::Images), vec![2]);
    let shown = shown_groups(&groups, "", 0, TypeFilter::All);
    assert_eq!(total_files(&groups, &shown), 6);
}

#[test]
fn card_head_takes_the_last_most_similar_edge() {
    let e = |s: f32, m: MatchMethod, mirrored: bool| CardEdge { similarity_bits: s.to_bits(), method: m, mirrored };
    let edges = vec![
        e(0.95, MatchMethod::FrameSimilarity, false),
        e(0.97, MatchMethod::AudioFingerprint, false),
        e(0.97, MatchMethod::FrameSimilarity, true),
        e(0.90, MatchMethod::AudioFingerprint, false),
    ];
    let s = card_summary(&edges, None).unwrap();
    assert_eq!(s.best_edge, 2);
    assert_eq!(s.methods, vec![MatchMethod::FrameSimilarity, MatchMethod::AudioFingerprint]);
    assert!(s.mirrored);
    assert!(card_summary(&edges, Some("FrameSimilarity")).is_some());
    assert!(card_summary(&edges, Some("AudioFingerprint")).is_none());
    assert!(card_summary(&Vec::new(), None).is_none());
}
