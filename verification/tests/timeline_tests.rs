use mediaorganizer::timeline::{timeline_pairs, TimelineItem, TimelineRules};

fn item(image: bool, hashes: Vec<u64>) -> TimelineItem {
    TimelineItem { is_image: image, hashes }
}

fn rules() -> TimelineRules {
    TimelineRules { min_consecutive: 2, min_same_bits: 64, max_gap: 0 }
}

#[test]
fn clip_inside_longer_video_is_reported_longer_first() {
    let long: Vec<u64> = (1..=10u64).map(|i| i * 0x0101_0101_0101_0101).collect();
    let clip: Vec<u64> = long[3..6].to_vec();
    let items = vec![item(false, clip), item(true, long.clone()), item(false, long)];
    // at least all frames of the shorter timeline must match
    let min_matches: Vec<usize> = (0..=20).collect();
    let found = timeline_pairs(&items, &min_matches, rules());
    assert_eq!(found.len(), 1);
    assert_eq!(found[0].longer, 2);
    assert_eq!(found[0].shorter, 0);
    assert_eq!(found[0].result.offset, 3);
    assert_eq!(found[0].result.matches, 3);
    assert_eq!(found[0].result.frames, 3);
}

#[test]
fn short_timelines_and_weak_matches_are_skipped() {
    let a = vec![1u64, 2, 3, 4];
    let b = vec![1u64, 0xFFFF_FFFF_FFFF_FFFF, 3, 0xF0F0_F0F0_F0F0_F0F0];
    let items = vec![item(false, a.clone()), item(false, b), item(false, vec![5])];
    let strict: Vec<usize> = (0..=20).collect();
    assert!(timeline_pairs(&items, &strict, rules()).is_empty());
    // two matching frames of four suffice, but not as a run of two
    let loose: Vec<usize> = (0..=20).map(|n| n / 2).collect();
    assert!(timeline_pairs(&items, &loose, rules()).is_empty());
    let mut r = rules();
    r.min_consecutive = 1;
    let found = timeline_pairs(&items, &loose, r);
    assert_eq!(found.len(), 1);
    assert_eq!((found[0].longer, found[0].shorter), (1, 0));
}
