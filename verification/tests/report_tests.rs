use mediaorganizer::db::{FileFlags, MatchMethod};
use mediaorganizer::report::{
    cleanup_targets, clear_confirmed, estimated_waste, listed_pairs, total_size, ListedPair, PairFiles,
    SizedFile,
};

fn file(id: &str, size: u64) -> SizedFile {
    SizedFile { id: id.to_string(), size_bytes: size }
}

fn pair(a: &str, b: &str) -> PairFiles {
    PairFiles { file_a: a.to_string(), file_b: b.to_string() }
}

#[test]
fn waste_counts_the_smaller_file_of_each_known_pair() {
    let files = vec![file("a", 100), file("b", 40), file("c", 0), file("d", 70)];
    let pairs = vec![pair("a", "b"), pair("a", "d"), pair("a", "c"), pair("a", "zz")];
    // 40 + 70; an empty or unknown file contributes nothing
    assert_eq!(estimated_waste(&files, &pairs), 110);
    assert_eq!(total_size(&files), 210);
    assert_eq!(estimated_waste(&files, &Vec::new()), 0);
}

#[test]
fn waste_uses_the_first_record_of_an_id() {
    let files = vec![file("a", 10), file("a", 1000), file("b", 50)];
    assert_eq!(estimated_waste(&files, &vec![pair("b", "a")]), 10);
}

#[test]
fn listing_filters_by_similarity_and_method() {
    let p = |s: f32, m: MatchMethod| ListedPair { similarity_bits: s.to_bits(), method: m };
    let pairs = vec![
        p(0.99, MatchMethod::FrameSimilarity),
        p(0.80, MatchMethod::AudioFingerprint),
        p(0.95, MatchMethod::IframeTimeline),
    ];
    assert_eq!(listed_pairs(&pairs, 0, None), vec![0, 1, 2]);
    assert_eq!(listed_pairs(&pairs, 0.9f32.to_bits(), None), vec![0, 2]);
    assert_eq!(listed_pairs(&pairs, 0, Some("AUDIO")), vec![1]);
    assert_eq!(listed_pairs(&pairs, 0, Some("frame")), vec![0, 2]);
    assert_eq!(listed_pairs(&pairs, 0.9f32.to_bits(), Some("timeline")), vec![2]);
    assert_eq!(listed_pairs(&pairs, 0, Some("ssim")), Vec::<usize>::new());
}

#[test]
fn cleanup_removes_missing_and_errored_records() {
    let errored = FileFlags { scan_error: Some("boom".to_string()), ..Default::default() };
    let thumb = FileFlags { thumbnail_error: true, ..Default::default() };
    let fine = FileFlags { manually_excluded: true, ..Default::default() };
    let on_disk = vec![true, false, true, true, true];
    let flags = vec![None, None, Some(errored), Some(thumb), Some(fine)];
    assert_eq!(cleanup_targets(&on_disk, &flags), vec![1, 2, 3]);
}

#[test]
fn clear_prompt_needs_yes() {
    assert!(clear_confirmed("yes\n"));
    assert!(clear_confirmed("  YeS "));
    assert!(!clear_confirmed("y"));
    assert!(!clear_confirmed("yes please"));
    assert!(!clear_confirmed(""));
}
