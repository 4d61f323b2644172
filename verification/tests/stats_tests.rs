use mediaorganizer::db::MatchMethod;
use mediaorganizer::stats::{duplicate_stats, method_breakdown, BreakdownCluster, StatsCluster};

#[test]
fn totals_and_reclaimable_space() {
    let clusters = vec![StatsCluster { sizes: vec![10, 20, 5] }, StatsCluster { sizes: vec![7] }];
    let s = duplicate_stats(&clusters);
    assert_eq!(s.group_count, 2);
    assert_eq!(s.file_count, 4);
    assert_eq!(s.total_bytes, 42);
    // keep 20 of the first cluster and 7 of the second
    assert_eq!(s.reclaimable_bytes, 15);
    let empty = duplicate_stats(&vec![]);
    assert_eq!((empty.group_count, empty.file_count, empty.total_bytes, empty.reclaimable_bytes), (0, 0, 0, 0));
}

#[test]
fn breakdown_by_method_most_pairs_first() {
    let clusters = vec![
        BreakdownCluster {
            methods: vec![MatchMethod::AudioFingerprint, MatchMethod::FrameSimilarity, MatchMethod::AudioFingerprint],
            bytes: 100,
        },
        BreakdownCluster { methods: vec![MatchMethod::AudioFingerprint], bytes: 5 },
    ];
    let rows = method_breakdown(&clusters);
    assert_eq!(rows.len(), 2);
    assert_eq!(rows[0].method, MatchMethod::AudioFingerprint);
    assert_eq!(rows[0].pairs, 3);
    assert_eq!(rows[0].bytes, 205);
    assert_eq!(rows[1].method, MatchMethod::FrameSimilarity);
    assert_eq!(rows[1].pairs, 1);
    assert_eq!(rows[1].bytes, 100);
    assert!(method_breakdown(&vec![]).is_empty());
}
