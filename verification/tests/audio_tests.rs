use mediaorganizer::audio::{
    build_pairs, frame_to_mono_i16, is_silent_fingerprint, majority_vote, matching_bits, PAIRS,
};

fn similarity(a: &[u32], b: &[u32]) -> f32 {
    if a.is_empty() || b.is_empty() {
        return 0.0;
    }
    let (matching, total) = matching_bits(a, b);
    matching as f32 / total as f32
}

#[test]
fn pairs_are_exactly_32() {
    assert_eq!(PAIRS.len(), 32);
}

#[test]
fn built_pairs_equal_the_table() {
    assert_eq!(build_pairs(), PAIRS);
    assert_eq!(PAIRS[0], (0, 1));
    assert_eq!(PAIRS[11], (11, 0));
    assert_eq!(PAIRS[12], (0, 3));
    assert_eq!(PAIRS[23], (11, 2));
    assert_eq!(PAIRS[24], (0, 6));
    assert_eq!(PAIRS[31], (7, 1));
}

#[test]
fn identical_fingerprints_have_similarity_one() {
    let fp = vec![0xDEADBEEFu32; 10];
    let sim = similarity(&fp, &fp);
    assert!((sim - 1.0).abs() < 1e-5, "got {sim}");
}

#[test]
fn opposite_fingerprints_have_zero_similarity() {
    let a = vec![0u32; 10];
    let b = vec![0xFFFF_FFFFu32; 10];
    let sim = similarity(&a, &b);
    assert!(sim < 1e-5, "got {sim}");
}

#[test]
fn matching_bits_uses_the_shorter_length() {
    let a = vec![0u32, 0xFFFF_0000];
    let b = vec![0u32, 0xFFFF_FFFF, 7];
    assert_eq!(matching_bits(&a, &b), (32 + 16, 64));
    assert_eq!(matching_bits(&[], &b), (0, 0));
}

#[test]
fn majority_vote_sets_bits_of_the_majority() {
    assert_eq!(majority_vote(&[]), 0);
    assert_eq!(majority_vote(&[0b101]), 0b101);
    assert_eq!(majority_vote(&[0b011, 0b110, 0b010]), 0b010);
    // Two of four is not a majority.
    assert_eq!(majority_vote(&[1, 1, 0, 0]), 0);
    assert_eq!(majority_vote(&[1, 1, 1, 0]), 1);
    assert_eq!(majority_vote(&[0x8000_0000, 0x8000_0000, 0]), 0x8000_0000);
}

#[test]
fn pcm_decoding_is_little_endian() {
    let data = [0x01u8, 0x00, 0xff, 0xff, 0x00, 0x80, 0x34];
    assert_eq!(frame_to_mono_i16(&data, 10), vec![1i16, -1, i16::MIN]);
    assert_eq!(frame_to_mono_i16(&data, 2), vec![1i16, -1]);
    assert!(frame_to_mono_i16(&data, 0).is_empty());
}

#[test]
fn silent_fingerprints() {
    assert!(!is_silent_fingerprint(&[]));
    assert!(is_silent_fingerprint(&[0, 0, 0]));
    assert!(!is_silent_fingerprint(&[0, 1, 0]));
}

#[test]
fn fingerprint_similarity_bounds() {
    let a: Vec<u32> = (0u32..32).collect();
    let b: Vec<u32> = (0u32..32).collect();
    let c: Vec<u32> = (0u32..32).map(|x| !x).collect();

    let same = similarity(&a, &b);
    let diff = similarity(&a, &c);

    assert!((0.0..=1.0).contains(&same), "similarity must be in [0,1]");
    assert!((0.0..=1.0).contains(&diff), "similarity must be in [0,1]");
    assert!(same > diff, "same fingerprints must score higher than inverted");
    assert!(same > 0.99, "identical fingerprints must score near 1.0");
    assert!(diff < 0.5, "inverted fingerprints must score < 0.5");
}
