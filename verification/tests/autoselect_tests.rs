use mediaorganizer::autoselect::{
    build_criteria_from_order, select_fully_equal, select_keep_best, select_keep_largest, AutoCluster,
};
use mediaorganizer::ranker::{default_criteria, QualityScores};

fn q(size: u64, duration: i64) -> QualityScores {
    QualityScores {
        is_image: false,
        duration,
        size_bytes: size,
        fps: 0,
        video_bitrate: 0,
        audio_sample_rate: 0,
        audio_bitrate: 0,
        hdr_rank: 0,
        frame_area: 0,
    }
}

fn cluster(ids: &[&str], scores: Vec<QualityScores>, equal: bool) -> AutoCluster {
    AutoCluster { ids: ids.iter().map(|s| s.to_string()).collect(), scores, fully_equal: equal }
}

#[test]
fn criteria_follow_the_users_order_then_the_rest() {
    let order = vec!["Size".to_string(), "Duration".to_string(), "Size".to_string(), "Bogus".to_string()];
    let names: Vec<&str> = build_criteria_from_order(&order).iter().map(|c| c.name).collect();
    assert_eq!(names, vec!["size_smallest", "duration", "frame_area", "fps", "video_bitrate", "audio_bitrate"]);
    let all: Vec<&str> = build_criteria_from_order(&vec![]).iter().map(|c| c.name).collect();
    assert_eq!(all, vec!["duration", "frame_area", "fps", "video_bitrate", "audio_bitrate", "size_smallest"]);
}

#[test]
fn keep_best_selects_all_but_the_keeper() {
    let clusters = vec![
        cluster(&["a", "b", "c"], vec![q(10, 5), q(10, 9), q(10, 7)], false),
        cluster(&["solo"], vec![q(1, 1)], false),
    ];
    let out = select_keep_best(&clusters, &default_criteria());
    assert_eq!(out, vec!["a".to_string(), "c".to_string()]);
}

#[test]
fn keep_largest_prefers_the_last_of_equal_sizes() {
    let clusters = vec![cluster(&["a", "b", "c"], vec![q(30, 0), q(10, 0), q(30, 0)], false)];
    assert_eq!(select_keep_largest(&clusters), vec!["a".to_string(), "b".to_string()]);
}

#[test]
fn fully_equal_keeps_the_first() {
    let clusters = vec![
        cluster(&["a", "b", "c"], vec![q(1, 0), q(1, 0), q(1, 0)], true),
        cluster(&["x", "y"], vec![q(1, 0), q(1, 0)], false),
        cluster(&[], vec![], true),
    ];
    assert_eq!(select_fully_equal(&clusters), vec!["b".to_string(), "c".to_string()]);
}
