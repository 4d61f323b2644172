use mediaorganizer::monitor::{ScanEvent, ScanMonitor};
use mediaorganizer::ui_state::LogLevel;

fn last(m: &ScanMonitor) -> (LogLevel, String) {
    let e = m.log.entries.last().unwrap();
    (e.level, e.message.clone())
}

#[test]
fn progress_events_update_counters_and_log() {
    let mut m = ScanMonitor::new();
    m.apply(ScanEvent::FileDiscovered { path: "/v/a.mp4".to_string() });
    assert_eq!(m.files_found, 1);
    assert_eq!(last(&m), (LogLevel::Info, "found   /v/a.mp4".to_string()));

    m.apply(ScanEvent::FileHashed { path: "/v/a.mp4".to_string(), phash: 0xabc });
    assert_eq!(last(&m).1, "hashed  /v/a.mp4  [0x0000000000000abc]");
    assert_eq!(last(&m).1, format!("hashed  {}  [{:#018x}]", "/v/a.mp4", 0xabcu64));

    m.apply(ScanEvent::ComparisonStarted { total_pairs: 3 });
    assert_eq!(last(&m).1, "comparing 3 pairs…");

    m.apply(ScanEvent::DuplicateFound {
        file_a: "a".to_string(),
        file_b: "b".to_string(),
        similarity_pct: format!("{:.1}", 0.975f32 * 100.0),
    });
    assert_eq!(m.duplicates_found, 1);
    assert_eq!(last(&m).1, "MATCH  97.5%  a  ↔  b");

    m.apply(ScanEvent::Failed { path: "/v/b.mp4".to_string(), msg: "bad".to_string() });
    assert_eq!(last(&m), (LogLevel::Error, "error /v/b.mp4: bad".to_string()));
    assert!(!m.complete);

    m.apply(ScanEvent::ScanComplete { files: 2, duplicates: 1 });
    assert!(m.complete);
    assert_eq!(last(&m).1, "done — 2 files, 1 duplicate groups");
    assert_eq!(m.log.entries.len(), 6);
    assert_eq!(m.files_found, 1);
}
