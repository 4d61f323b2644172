use mediaorganizer::comparison::{arrays_match, sliding_window_compare, MatchResult};
use mediaorganizer::phash::compute_phash;

const PIXELS: usize = 32 * 32;

/// Bits two frames must share for their similarity `1 - d/64` to reach `t`.
fn same_bits_for(t: f32) -> u32 {
    (0..=64u32).find(|&k| 1.0 - (64 - k) as f32 / 64.0 >= t).unwrap_or(65)
}

/// Matches out of `n` frames needed for `m / n` to reach `s`.
fn matches_for(n: usize, s: f32) -> usize {
    (0..=n).find(|&m| m as f32 / n as f32 >= s).unwrap_or(n + 1)
}

fn similarity(r: &MatchResult) -> f32 {
    r.matches as f32 / r.frames as f32
}

fn compare(shorter: &[u64], longer: &[u64], hash_threshold: f32, max_gap: usize) -> Option<MatchResult> {
    sliding_window_compare(shorter, longer, same_bits_for(hash_threshold), max_gap)
}

fn matches(
    shorter: &[u64],
    longer: &[u64],
    min_similarity: f32,
    min_consecutive: usize,
    hash_threshold: f32,
    max_gap: usize,
) -> Option<MatchResult> {
    arrays_match(
        shorter,
        longer,
        matches_for(shorter.len().max(1), min_similarity),
        min_consecutive,
        same_bits_for(hash_threshold),
        max_gap,
    )
}

fn pattern(seed: u8) -> [u8; PIXELS] {
    let mut g = [0u8; PIXELS];
    for (i, b) in g.iter_mut().enumerate() {
        *b = ((i as u64 * 13 + seed as u64 * 97) % 256) as u8;
    }
    g
}

fn phash(seed: u8) -> u64 {
    compute_phash(&pattern(seed))
}

/// The hash of every seed, computed once for the randomised tests.
fn phash_table() -> Vec<u64> {
    (0..=255u8).map(phash).collect()
}

struct Sampler(u64);

impl Sampler {
    fn next(&mut self) -> u64 {
        self.0 = self.0.wrapping_mul(6364136223846793005).wrapping_add(1442695040888963407);
        self.0 >> 11
    }
    fn range(&mut self, lo: usize, hi: usize) -> usize {
        lo + (self.next() % (hi - lo + 1) as u64) as usize
    }
}

#[test]
fn exact_subsequence_detected() {
    let longer: Vec<u64> = (0u64..20).map(|i| i * 0x0101010101010101).collect();
    let shorter: Vec<u64> = longer[5..10].to_vec();
    let result = compare(&shorter, &longer, 0.9, 0).unwrap();
    assert_eq!(result.offset, 5);
    assert!(similarity(&result) > 0.99);
    assert_eq!(result.consecutive_run, 5);
}

#[test]
fn empty_shorter_returns_none() {
    let longer = vec![1u64, 2, 3];
    assert!(compare(&[], &longer, 0.85, 0).is_none());
}

#[test]
fn comparison_shorter_longer_than_longer_returns_none() {
    let a = vec![1u64, 2, 3, 4, 5];
    let b = vec![1u64, 2];
    assert!(compare(&a, &b, 0.85, 0).is_none());
}

#[test]
fn gap_tolerance_bridges_single_alternate_frame() {
    let a: u64 = 0x0000000000000000;
    let x: u64 = 0xFFFFFFFFFFFFFFFF;
    let longer = vec![a, a, a, x, a, a, a];
    let shorter = vec![a; 6];
    let strict = compare(&shorter, &longer, 0.9, 0).unwrap();
    assert!(strict.consecutive_run <= 3);
    let tolerant = compare(&shorter, &longer, 0.9, 1).unwrap();
    assert_eq!(tolerant.consecutive_run, 6);
}

#[test]
fn arrays_match_respects_min_consecutive() {
    let a: u64 = 0;
    let longer = vec![a; 20];
    let shorter = vec![a; 5];
    assert!(matches(&shorter, &longer, 0.9, 3, 0.9, 0).is_some());
    assert!(matches(&shorter, &longer, 0.9, 10, 0.9, 0).is_none());
}

#[test]
fn exact_clip_inside_longer_video_detected() {
    let longer: Vec<u64> = (0u64..50).map(|i| phash(i as u8)).collect();
    let shorter = longer[20..30].to_vec();
    let result = compare(&shorter, &longer, 0.95, 0).expect("exact subsequence must be found");
    assert_eq!(result.offset, 20, "clip starts at frame 20");
    assert_eq!(result.consecutive_run, 10, "10 consecutive frames");
    assert!(similarity(&result) > 0.99, "exact match → similarity near 1.0");
}

#[test]
fn clip_at_start_of_longer_video_detected() {
    let longer: Vec<u64> = (0u64..30).map(|i| phash(i as u8)).collect();
    let shorter = longer[0..10].to_vec();
    let result = compare(&shorter, &longer, 0.95, 0).expect("prefix clip must be found");
    assert_eq!(result.offset, 0);
    assert_eq!(result.consecutive_run, 10);
}

#[test]
fn clip_at_end_of_longer_video_detected() {
    let longer: Vec<u64> = (0u64..30).map(|i| phash(i as u8)).collect();
    let shorter = longer[20..30].to_vec();
    let result = compare(&shorter, &longer, 0.95, 0).expect("suffix clip must be found");
    assert_eq!(result.offset, 20);
    assert_eq!(result.consecutive_run, 10);
}

#[test]
fn noisy_clip_detected_above_threshold() {
    let longer: Vec<u64> = (0u64..30).map(|i| phash(i as u8)).collect();
    let shorter: Vec<u64> = longer[10..20].iter().map(|&h| h ^ 1u64).collect();
    let result = compare(&shorter, &longer, 0.95, 0).expect("noisy clip should still match");
    assert_eq!(result.offset, 10);
    assert!(similarity(&result) > 0.95);
}

#[test]
fn heavily_different_content_not_matched() {
    let longer: Vec<u64> = (0u64..30).map(|i| phash(i as u8)).collect();
    let shorter: Vec<u64> = longer[0..10].iter().map(|&h| !h).collect();
    match compare(&shorter, &longer, 0.85, 0) {
        None => {}
        Some(r) => {
            assert!(similarity(&r) < 0.5, "inverted content should have very low similarity, got {}", similarity(&r));
        }
    }
}

#[test]
fn arrays_match_requires_minimum_consecutive_frames() {
    let longer: Vec<u64> = (0u64..30).map(|i| phash(i as u8)).collect();
    let shorter = longer[10..20].to_vec();
    assert!(matches(&shorter, &longer, 0.95, 5, 0.8, 0).is_some(), "min_consecutive=5 should match 10-frame clip");
    assert!(matches(&shorter, &longer, 0.95, 15, 0.8, 0).is_none(), "min_consecutive=15 should not match 10-frame clip");
}

#[test]
fn arrays_match_min_similarity_threshold() {
    let longer: Vec<u64> = (0u64..20).map(|i| phash(i as u8)).collect();
    let shorter = longer[5..10].to_vec();
    let result = matches(&shorter, &longer, 0.95, 3, 0.99, 0);
    assert!(result.is_some(), "exact frames should pass very high percent threshold");
}

#[test]
fn arrays_match_with_gap_tolerance() {
    let a: u64 = 0x0000000000000000;
    let x: u64 = !0;
    let longer = vec![a, a, a, a, a, x, a, a, a, a, a];
    let shorter = vec![a; 10];
    let strict = matches(&shorter, &longer, 0.9, 8, 0.8, 0);
    assert!(strict.is_none(), "strict match should fail (run broken by X)");
    let lenient = matches(&shorter, &longer, 0.9, 8, 0.8, 1);
    assert!(lenient.is_some(), "gap=1 should bridge the single bad frame");
}

#[test]
fn empty_shorter_returns_none_from_sliding_window() {
    let longer = vec![1u64, 2, 3, 4, 5];
    assert!(compare(&[], &longer, 0.9, 0).is_none());
}

#[test]
fn comparison_integration_shorter_longer_than_longer_returns_none() {
    let a = vec![1u64; 10];
    let b = vec![1u64; 5];
    assert!(compare(&a, &b, 0.9, 0).is_none());
}

#[test]
fn single_frame_clip_detection() {
    let longer: Vec<u64> = (0u64..20).map(|i| phash(i as u8)).collect();
    let shorter = vec![longer[10]];
    let result = compare(&shorter, &longer, 0.99, 0).expect("single-frame exact match must be found");
    assert_eq!(result.offset, 10);
    assert_eq!(result.consecutive_run, 1);
}

#[test]
fn exact_subclip_always_detected() {
    let table = phash_table();
    let mut rng = Sampler(1);
    for _ in 0..512 {
        let longer_len = rng.range(5, 50);
        let raw_offset = rng.range(0, 40);
        let raw_clip_len = rng.range(1, 20);
        let seed_base = rng.range(0, 200) as u8;
        let offset = raw_offset % longer_len;
        let max_clip = (longer_len - offset).max(1);
        let clip_len = (raw_clip_len % max_clip).max(1);
        let longer: Vec<u64> = (0..longer_len).map(|i| table[seed_base.wrapping_add(i as u8) as usize]).collect();
        let shorter = longer[offset..offset + clip_len].to_vec();
        let r = compare(&shorter, &longer, 0.99, 0).expect("exact subclip must be found");
        assert!(similarity(&r) >= 0.99, "exact match similarity must be ≥ 0.99, got {}", similarity(&r));
    }
}

#[test]
fn identical_sequences_match_at_offset_zero() {
    let table = phash_table();
    let mut rng = Sampler(2);
    for _ in 0..256 {
        let len = rng.range(1, 30);
        let seed = rng.range(0, 200) as u8;
        let seq: Vec<u64> = (0..len).map(|i| table[seed.wrapping_add(i as u8) as usize]).collect();
        let r = compare(&seq, &seq, 0.99, 0).expect("identical sequences must produce Some");
        assert!(similarity(&r) >= 0.99);
        assert_eq!(r.offset, 0);
        assert_eq!(r.consecutive_run, len);
    }
}

#[test]
fn single_gap_within_budget_does_not_break_run() {
    let table = phash_table();
    let mut rng = Sampler(3);
    for _ in 0..256 {
        let run_len = rng.range(6, 30);
        let raw_pos = rng.range(1, 28);
        let seed = rng.range(0, 200) as u8;
        let gap_pos = (raw_pos % (run_len - 1)).max(1);
        let mut longer: Vec<u64> = (0..run_len).map(|i| table[seed.wrapping_add(i as u8) as usize]).collect();
        longer[gap_pos] = !0u64;
        let shorter: Vec<u64> = (0..run_len).map(|i| table[seed.wrapping_add(i as u8) as usize]).collect();
        let r = compare(&shorter, &longer, 0.95, 1).expect("single gap must produce Some");
        let expected_min = (run_len - 1) as f32 / run_len as f32 - 0.02;
        assert!(similarity(&r) >= expected_min);
    }
}

#[test]
fn strict_mode_limits_consecutive_run() {
    let table = phash_table();
    let mut rng = Sampler(4);
    for _ in 0..256 {
        let run_len = rng.range(4, 20);
        let raw_pos = rng.range(1, 18);
        let seed = rng.range(0, 200) as u8;
        let gap_pos = (raw_pos % (run_len - 1)).max(1);
        let mut longer: Vec<u64> = (0..run_len).map(|i| table[seed.wrapping_add(i as u8) as usize]).collect();
        longer[gap_pos] = !0u64;
        let shorter: Vec<u64> = (0..run_len).map(|i| table[seed.wrapping_add(i as u8) as usize]).collect();
        if let Some(r) = compare(&shorter, &longer, 0.95, 0) {
            let max_clean = gap_pos.max(run_len - gap_pos - 1);
            assert!(r.consecutive_run <= max_clean);
        }
    }
}

#[test]
fn lowering_threshold_never_decreases_similarity() {
    let table = phash_table();
    let mut rng = Sampler(5);
    for _ in 0..256 {
        let longer_len = rng.range(5, 40);
        let raw_clip = rng.range(2, 15);
        let seed = rng.range(0, 200) as u8;
        let clip_len = raw_clip.min(longer_len);
        let longer: Vec<u64> = (0..longer_len).map(|i| table[seed.wrapping_add(i as u8) as usize]).collect();
        let shorter = longer[0..clip_len].to_vec();
        let strict = compare(&shorter, &longer, 0.99, 0).map(|r| similarity(&r)).unwrap_or(0.0);
        let loose = compare(&shorter, &longer, 0.50, 0).map(|r| similarity(&r)).unwrap_or(0.0);
        assert!(loose >= strict - 1e-6);
    }
}

#[test]
fn arrays_match_monotone_in_hash_threshold() {
    let table = phash_table();
    let mut rng = Sampler(6);
    for _ in 0..256 {
        let longer_len = rng.range(5, 30);
        let raw_clip = rng.range(1, 10);
        let seed = rng.range(0, 200) as u8;
        let clip_len = raw_clip.min(longer_len);
        let longer: Vec<u64> = (0..longer_len).map(|i| table[seed.wrapping_add(i as u8) as usize]).collect();
        let shorter = longer[0..clip_len].to_vec();
        let strict = matches(&shorter, &longer, 0.9, 1, 0.99, 0);
        let loose = matches(&shorter, &longer, 0.9, 1, 0.50, 0);
        assert!(!(strict.is_some() && loose.is_none()));
    }
}

#[test]
fn threshold_conversions() {
    assert_eq!(same_bits_for(0.95), 61);
    assert_eq!(same_bits_for(1.0), 64);
    assert_eq!(same_bits_for(0.0), 0);
    assert_eq!(same_bits_for(1.5), 65);
    assert_eq!(matches_for(10, 0.95), 10);
    assert_eq!(matches_for(10, 0.9), 9);
    // With 65 bits required nothing matches.
    let r = sliding_window_compare(&[0, 0], &[0, 0, 0], 65, 0).unwrap();
    assert_eq!((r.matches, r.offset, r.consecutive_run), (0, 0, 0));
}
