use mediaorganizer::frame::flip_gray_horizontal;
use mediaorganizer::phash::{compute_phash, hamming, PIXELS};
use mediaorganizer::scan::is_duplicate as within_bits;

/// A direct binary32 transcription of the hash, to compare against.
fn reference_phash(gray: &[u8; 1024]) -> u64 {
    let n = 32usize;
    let k = 8usize;
    let mut cos = vec![0f32; n * n];
    for f in 0..n {
        for i in 0..n {
            let angle = ((2 * i + 1) * f) as f64 * std::f64::consts::PI / (2.0 * n as f64);
            cos[f * n + i] = angle.cos() as f32;
        }
    }
    let alpha = (2.0f64 / n as f64).sqrt() as f32;
    let mut temp = vec![0f32; n * k];
    for y in 0..n {
        for u in 1..=k {
            let mut sum = 0f32;
            for x in 0..n {
                sum += gray[y * n + x] as f32 * cos[u * n + x];
            }
            temp[y * k + (u - 1)] = alpha * sum;
        }
    }
    let mut ac = vec![0f32; k * k];
    let mut idx = 0usize;
    for v in 1..=k {
        for u in 1..=k {
            let mut sum = 0f32;
            for y in 0..n {
                sum += temp[y * k + (u - 1)] * cos[v * n + y];
            }
            ac[idx] = alpha * sum;
            idx += 1;
        }
    }
    let mut buf = ac.clone();
    buf.sort_by(|a, b| a.partial_cmp(b).unwrap_or(std::cmp::Ordering::Equal));
    let median = (buf[31] + buf[32]) * 0.5;
    let mut hash = 0u64;
    for i in 0..64 {
        if ac[i] > median {
            hash |= 1u64 << i;
        }
    }
    hash
}

struct Lcg(u64);

impl Lcg {
    fn next(&mut self) -> u64 {
        self.0 = self.0.wrapping_mul(6364136223846793005).wrapping_add(1442695040888963407);
        self.0 >> 33
    }
}

#[test]
fn identical_images_produce_identical_hash() {
    let gray = [128u8; PIXELS];
    assert_eq!(compute_phash(&gray), compute_phash(&gray));
}

#[test]
fn identical_hashes_have_zero_hamming() {
    let h = compute_phash(&[64u8; PIXELS]);
    assert_eq!(hamming(h, h), 0);
}

#[test]
fn different_images_differ() {
    let mut a = [0u8; PIXELS];
    let mut b = [0u8; PIXELS];
    for i in 0..PIXELS {
        a[i] = (i % 256) as u8;
        b[i] = ((i * 3 + 100) % 256) as u8;
    }
    let ha = compute_phash(&a);
    let hb = compute_phash(&b);
    assert!(hamming(ha, hb) > 4, "expected significant hamming distance");
}

#[test]
fn uniform_image_yields_zero_hash() {
    let h = compute_phash(&[128u8; PIXELS]);
    assert_eq!(h, 0);
}

#[test]
fn uniform_images_produce_stable_hashes() {
    for &val in &[0u8, 64, 128, 192, 255] {
        let gray = [val; PIXELS];
        assert_eq!(compute_phash(&gray), compute_phash(&gray), "uniform {val} must be stable");
    }
}

#[test]
fn identical_pixel_buffers_produce_identical_hashes() {
    let mut gray = [0u8; PIXELS];
    for (i, b) in gray.iter_mut().enumerate() {
        *b = (i * 7 + 13) as u8;
    }
    assert_eq!(compute_phash(&gray), compute_phash(&gray));
}

#[test]
fn flipped_horizontal_yields_different_hash() {
    let mut gray = [0u8; PIXELS];
    for (i, b) in gray.iter_mut().enumerate() {
        *b = (i * 3 + 17) as u8;
    }
    let forward = compute_phash(&gray);
    let mut flipped = [0u8; PIXELS];
    for y in 0..32usize {
        for x in 0..32usize {
            flipped[y * 32 + (31 - x)] = gray[y * 32 + x];
        }
    }
    let flipped_hash = compute_phash(&flipped);
    assert_ne!(forward, flipped_hash, "asymmetric image flipped horizontally should differ");
}

#[test]
fn inverted_image_has_known_high_distance() {
    let mut gray = [0u8; PIXELS];
    for (i, b) in gray.iter_mut().enumerate() {
        *b = (i % 200) as u8;
    }
    let h = compute_phash(&gray);
    let mut inverted = [0u8; PIXELS];
    for (i, b) in inverted.iter_mut().enumerate() {
        *b = 255 - gray[i];
    }
    let hi = compute_phash(&inverted);
    assert!(hamming(h, hi) > 40, "inverted image should have large Hamming distance");
}

#[test]
fn regression_ramp_pattern() {
    let mut gray = [0u8; PIXELS];
    for (i, b) in gray.iter_mut().enumerate() {
        *b = (i % 256) as u8;
    }
    let h = compute_phash(&gray);
    assert!(hamming(h, 0) > 10, "ramp pattern should have many bits set, got hamming={}", hamming(h, 0));
    assert_eq!(compute_phash(&gray), h, "ramp hash must be stable");
}

#[test]
fn regression_checkerboard_pattern() {
    let mut gray = [0u8; PIXELS];
    for (i, b) in gray.iter_mut().enumerate() {
        let y = i / 32;
        let x = i % 32;
        *b = if (x + y) % 2 == 0 { 255 } else { 0 };
    }
    let h = compute_phash(&gray);
    assert_eq!(compute_phash(&gray), h, "checkerboard hash must be stable");
    let mut ramp = [0u8; PIXELS];
    for (i, b) in ramp.iter_mut().enumerate() {
        *b = (i % 256) as u8;
    }
    assert_ne!(h, compute_phash(&ramp), "checkerboard and ramp should produce different hashes");
}

#[test]
fn regression_block_pattern() {
    let mut gray = [0u8; PIXELS];
    for (i, b) in gray.iter_mut().enumerate() {
        *b = if i < PIXELS / 2 { 0 } else { 255 };
    }
    let h = compute_phash(&gray);
    assert!(hamming(h, 0) > 15, "half-black half-white should have many hash bits set, got {}", hamming(h, 0));
    assert_eq!(compute_phash(&gray), h, "block pattern hash must be stable");
}

#[test]
fn print_reference_vectors() {
    let mut patterns: Vec<(&str, [u8; PIXELS])> = Vec::new();
    patterns.push(("uniform_128", [128u8; PIXELS]));
    let mut ramp = [0u8; PIXELS];
    for (i, b) in ramp.iter_mut().enumerate() {
        *b = (i % 256) as u8;
    }
    patterns.push(("ramp", ramp));
    let mut checker = [0u8; PIXELS];
    for (i, b) in checker.iter_mut().enumerate() {
        *b = if ((i / 32) + (i % 32)) % 2 == 0 { 255 } else { 0 };
    }
    patterns.push(("checkerboard", checker));
    let mut block = [0u8; PIXELS];
    for (i, b) in block.iter_mut().enumerate() {
        *b = if i < PIXELS / 2 { 0 } else { 255 };
    }
    patterns.push(("block_half", block));
    println!("\n--- pHash reference vectors ---");
    for (name, gray) in &patterns {
        let h = compute_phash(gray);
        println!("{name:20} → 0x{h:016X}  (hamming from 0: {})", hamming(h, 0));
    }
    println!("-------------------------------\n");
}

#[test]
fn phash_matches_binary32_reference_on_patterns() {
    let mut cases: Vec<[u8; PIXELS]> = Vec::new();
    let mut ramp = [0u8; PIXELS];
    let mut checker = [0u8; PIXELS];
    let mut block = [0u8; PIXELS];
    let mut diag = [0u8; PIXELS];
    for i in 0..PIXELS {
        ramp[i] = (i % 256) as u8;
        checker[i] = if ((i / 32) + (i % 32)) % 2 == 0 { 255 } else { 0 };
        block[i] = if i < PIXELS / 2 { 0 } else { 255 };
        diag[i] = (((i / 32) * 8 + (i % 32) * 3) % 256) as u8;
    }
    cases.push(ramp);
    cases.push(checker);
    cases.push(block);
    cases.push(diag);
    for g in &cases {
        assert_eq!(compute_phash(g), reference_phash(g));
    }
}

#[test]
fn phash_matches_binary32_reference_on_random_frames() {
    let mut rng = Lcg(0x5eed_1234);
    for _ in 0..200 {
        let mut g = [0u8; PIXELS];
        for b in g.iter_mut() {
            *b = (rng.next() % 256) as u8;
        }
        assert_eq!(compute_phash(&g), reference_phash(&g));
    }
}

#[test]
fn every_uniform_frame_hashes_to_zero() {
    for v in 0..=255u8 {
        assert_eq!(compute_phash(&[v; PIXELS]), 0, "uniform {v}");
    }
    // One differing pixel is enough to leave the uniform case.
    let mut g = [7u8; PIXELS];
    g[1023] = 8;
    assert_eq!(compute_phash(&g), reference_phash(&g));
}

#[test]
fn hamming_counts_differing_bits() {
    assert_eq!(hamming(0, 0), 0);
    assert_eq!(hamming(0, u64::MAX), 64);
    assert_eq!(hamming(0b1011, 0b0010), 2);
    assert_eq!(hamming(0x0000_0000_0000_0007, 0), 3);
}

#[test]
fn hamming_is_symmetric_and_triangular_on_samples() {
    let (a, b, c) = (0x0123_4567_89ab_cdefu64, 0xfedc_ba98_7654_3210u64, 0x0f0f_0f0f_f0f0_f0f0u64);
    assert_eq!(hamming(a, b), hamming(b, a));
    assert!(hamming(a, c) <= hamming(a, b) + hamming(b, c));
}

#[test]
fn flipped_frame_hash_matches_flipped_reference() {
    let mut gray = [0u8; PIXELS];
    for (i, b) in gray.iter_mut().enumerate() {
        *b = (i * 3 + 17) as u8;
    }
    let flipped = flip_gray_horizontal(&gray);
    assert_eq!(compute_phash(&flipped), reference_phash(&flipped));
}

/// The bit budget of a similarity threshold: `floor((1 − t) · 64)`, in
/// single precision.
fn max_bits_for(min_similarity: f32) -> u32 {
    ((1.0 - min_similarity) * 64.0).floor() as u32
}

fn is_duplicate(a: u64, b: u64, min_similarity: f32) -> bool {
    within_bits(a, b, max_bits_for(min_similarity))
}

fn similarity(a: u64, b: u64) -> f32 {
    1.0 - hamming(a, b) as f32 / 64.0
}

#[test]
fn is_duplicate_identical() {
    let h = compute_phash(&[42u8; PIXELS]);
    assert!(is_duplicate(h, h, 0.95));
}

#[test]
fn is_duplicate_rejects_max_distance() {
    assert!(!is_duplicate(0u64, !0u64, 0.95));
}

#[test]
fn is_duplicate_same_hash_always_true() {
    let h = compute_phash(&[77u8; PIXELS]);
    assert!(is_duplicate(h, h, 0.95));
    assert!(is_duplicate(h, h, 1.0));
    assert!(is_duplicate(h, h, 0.5));
}

#[test]
fn is_duplicate_respects_threshold() {
    let a: u64 = 0x0000000000000000;
    let b: u64 = 0x0000000000000007;
    assert_eq!(hamming(a, b), 3);
    assert!(is_duplicate(a, b, 0.95), "should be dup at 0.95 with 3-bit distance");
    assert!(!is_duplicate(a, b, 0.97), "should not be dup at 0.97 with 3-bit distance");
}

#[test]
fn maximum_distance_hashes_not_duplicates() {
    assert!(!is_duplicate(0u64, !0u64, 0.5));
    assert!(!is_duplicate(0u64, !0u64, 0.95));
}

#[test]
fn similarity_bounds() {
    assert_eq!(similarity(0, 0), 1.0);
    assert_eq!(similarity(0, !0), 0.0);
    let h = compute_phash(&[55u8; PIXELS]);
    assert_eq!(similarity(h, h), 1.0);
}
