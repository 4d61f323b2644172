use mediaorganizer::streaming::{mime_for_ext, parse_range, stream_plan, StreamPlan};

#[test]
fn range_headers() {
    assert_eq!(parse_range("bytes=0-99", 1000), Some((0, 99)));
    assert_eq!(parse_range("bytes=500-", 1000), Some((500, 999)));
    assert_eq!(parse_range("bytes=0-", 0), Some((0, 0)));
    assert_eq!(parse_range("bytes=+5-6", 1000), Some((5, 6)));
    assert_eq!(parse_range("bytes=-5", 1000), None);
    assert_eq!(parse_range("items=0-1", 1000), None);
    assert_eq!(parse_range("bytes=1-2-3", 1000), None);
    assert_eq!(parse_range("bytes=12", 1000), None);
    assert_eq!(parse_range("bytes=a-1", 1000), None);
    assert_eq!(parse_range("bytes=18446744073709551616-", 1000), None);
    assert_eq!(parse_range("bytes=18446744073709551615-1", 1000), Some((u64::MAX, 1)));
}

#[test]
fn plans() {
    assert_eq!(stream_plan(None, 100), StreamPlan::Whole);
    assert_eq!(stream_plan(Some("garbage"), 100), StreamPlan::Whole);
    assert_eq!(stream_plan(Some("bytes=10-19"), 100), StreamPlan::Part { start: 10, end: 19, len: 10 });
    assert_eq!(stream_plan(Some("bytes=10-500"), 100), StreamPlan::Part { start: 10, end: 99, len: 90 });
    assert_eq!(stream_plan(Some("bytes=90-"), 100), StreamPlan::Part { start: 90, end: 99, len: 10 });
    assert_eq!(stream_plan(Some("bytes=100-"), 100), StreamPlan::NotSatisfiable);
    assert_eq!(stream_plan(Some("bytes=20-10"), 100), StreamPlan::NotSatisfiable);
    assert_eq!(stream_plan(Some("bytes=0-"), 0), StreamPlan::NotSatisfiable);
}

#[test]
fn content_types() {
    assert_eq!(mime_for_ext(Some("mp4")), "video/mp4");
    assert_eq!(mime_for_ext(Some("M4V")), "video/mp4");
    assert_eq!(mime_for_ext(Some("MkV")), "video/x-matroska");
    assert_eq!(mime_for_ext(Some("ts")), "video/mp2t");
    assert_eq!(mime_for_ext(Some("3gp")), "video/3gpp");
    assert_eq!(mime_for_ext(Some("txt")), "application/octet-stream");
    assert_eq!(mime_for_ext(None), "application/octet-stream");
}
