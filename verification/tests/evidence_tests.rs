use mediaorganizer::db::MatchMethod;
use mediaorganizer::evidence::{clock, explanation, MatchMethodDisplay};

#[test]
fn clock_shows_minutes_or_hours() {
    assert_eq!(clock(0), "0:00");
    assert_eq!(clock(59), "0:59");
    assert_eq!(clock(90), "1:30");
    assert_eq!(clock(3599), "59:59");
    assert_eq!(clock(3600), "1:00:00");
    assert_eq!(clock(3661), "1:01:01");
    assert_eq!(clock(360_000), "100:00:00");
}

#[test]
fn compare_view_method_labels() {
    assert_eq!(MatchMethodDisplay::from(MatchMethod::FrameSimilarity).label(), "Frame pHash");
    assert_eq!(MatchMethodDisplay::from(MatchMethod::AudioFingerprint).label(), "Chromaprint audio");
    assert_eq!(
        MatchMethodDisplay::from(MatchMethod::TemporalAverageHash).label(),
        "Temporal average hash"
    );
    assert_eq!(MatchMethodDisplay::default(), MatchMethodDisplay::FrameSimilarity);
}

#[test]
fn explanation_lists_the_evidence() {
    assert_eq!(
        explanation(MatchMethod::FrameSimilarity, 97, None, None, None, false),
        "Frame similarity · 97% match"
    );
    assert_eq!(
        explanation(MatchMethod::IframeTimeline, 88, Some(75), Some("-1.5"), Some(12), true),
        "I-frame timeline · 88% match · clip at 1:15 · audio offset -1.5s · 12 consecutive frames · horizontally mirrored"
    );
    // no frames line for a zero count
    assert_eq!(
        explanation(MatchMethod::TemporalAverageHash, 100, Some(3725), None, Some(0), false),
        "Temporal avg hash · 100% match · clip at 1:02:05"
    );
}
