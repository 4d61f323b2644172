use mediaorganizer::ranker::hdr_format_rank;
use mediaorganizer::ranker::{compute_best_flags, default_criteria, pick_keeper, Axis, Criterion, QualityScores};

/// An order-preserving integer for a finite `f64` (the same order as the
/// values, equal exactly when the values are).
fn ordered_key(x: f64) -> i64 {
    let b = x.to_bits() as i64;
    if b < 0 {
        b ^ i64::MAX
    } else {
        b
    }
}

fn make_record(size: u64, dur: f64) -> QualityScores {
    QualityScores {
        is_image: false,
        duration: ordered_key(dur),
        size_bytes: size,
        fps: ordered_key(0.0),
        video_bitrate: 0,
        audio_sample_rate: 0,
        audio_bitrate: 0,
        hdr_rank: 0,
        frame_area: 1920 * 1080,
    }
}

#[test]
fn pick_keeper_longest_duration() {
    let ids = ["a", "b", "c"];
    let items = vec![make_record(1000, 60.0), make_record(2000, 120.0), make_record(500, 90.0)];
    let criteria = default_criteria();
    let winner = pick_keeper(&items, &criteria).unwrap();
    assert_eq!(ids[winner], "b");
}

#[test]
fn pick_keeper_tiebreak_by_size() {
    // Two items with same duration; smaller size wins.
    let ids = ["big", "small"];
    let items = vec![make_record(2000, 60.0), make_record(1000, 60.0)];
    let criteria = default_criteria();
    let winner = pick_keeper(&items, &criteria).unwrap();
    assert_eq!(ids[winner], "small");
}

#[test]
fn compute_best_flags_marks_longest() {
    let items = vec![make_record(1000, 60.0), make_record(2000, 120.0)];
    let flags = compute_best_flags(&items);
    assert!(!flags[0].is_best_duration);
    assert!(flags[1].is_best_duration);
}

#[test]
fn pick_keeper_of_nothing_is_none() {
    assert!(pick_keeper(&vec![], &default_criteria()).is_none());
}

#[test]
fn pick_keeper_takes_the_last_of_equal_bests() {
    let items = vec![make_record(1000, 60.0), make_record(1000, 60.0), make_record(1000, 60.0)];
    assert_eq!(pick_keeper(&items, &default_criteria()), Some(2));
}

#[test]
fn pick_keeper_skips_video_criteria_for_images() {
    let mut a = make_record(3000, 0.0);
    let mut b = make_record(1000, 0.0);
    a.is_image = true;
    b.is_image = true;
    a.duration = 100;
    b.duration = 5;
    // Duration would pick `a`; for images the size decides.
    assert_eq!(pick_keeper(&vec![a, b], &default_criteria()), Some(1));
}

#[test]
fn pick_keeper_with_custom_criteria() {
    let criteria = vec![Criterion::new("area", Axis::FrameArea, false)];
    let mut a = make_record(10, 1.0);
    let mut b = make_record(10, 1.0);
    a.frame_area = 100;
    b.frame_area = 50;
    assert_eq!(pick_keeper(&vec![a, b], &criteria), Some(0));
    assert_eq!(pick_keeper(&vec![a, b], &vec![]), Some(0));
}

#[test]
fn best_flags_mark_ties_and_skip_video_axes_for_images() {
    let items = vec![make_record(1000, 60.0), make_record(1000, 60.0), make_record(2000, 30.0)];
    let flags = compute_best_flags(&items);
    assert!(flags[0].is_best_duration && flags[1].is_best_duration && !flags[2].is_best_duration);
    assert!(flags[0].is_best_size && flags[1].is_best_size && !flags[2].is_best_size);
    assert!(flags.iter().all(|f| f.is_best_frame_size));

    let mut img = make_record(10, 0.0);
    img.is_image = true;
    let flags = compute_best_flags(&vec![img, img]);
    assert!(flags.iter().all(|f| !f.is_best_duration && !f.is_best_fps && f.is_best_size));
    assert!(compute_best_flags(&vec![]).is_empty());
}

#[test]
fn default_criteria_order() {
    let names: Vec<&str> = default_criteria().iter().map(|c| c.name).collect();
    assert_eq!(
        names,
        ["duration", "size_smallest", "fps", "video_bitrate", "audio_sample_rate", "audio_bitrate", "hdr_rank", "frame_area"]
    );
}

#[test]
fn hdr_format_ranks() {
    assert_eq!(hdr_format_rank(Some("Dolby Vision, HDR10 compatible")), 4);
    assert_eq!(hdr_format_rank(Some("HDR10+ Profile A")), 3);
    assert_eq!(hdr_format_rank(Some("SMPTE ST 2086, HDR10")), 2);
    assert_eq!(hdr_format_rank(Some("HLG")), 1);
    assert_eq!(hdr_format_rank(Some("SDR")), 0);
    assert_eq!(hdr_format_rank(None), 0);
}
