use mediaorganizer::dryrun::{export_dry_run_report, DryRunFile};

fn rec(id: &str, size: u64, w: u32, h: u32) -> DryRunFile {
    DryRunFile { id: id.to_string(), path: format!("/m/{id}.mp4"), size_bytes: size, width: w, height: h }
}

fn pair(a: &str, b: &str) -> (String, String) {
    (a.to_string(), b.to_string())
}

#[test]
fn groups_items_and_savings() {
    let pairs = vec![pair("b", "a"), pair("c", "b"), pair("x", "y")];
    let records = vec![rec("a", 10, 1920, 1080), rec("b", 20, 0, 0), rec("c", 30, 640, 480), rec("y", 5, 0, 0)];
    let remove = vec!["b".to_string(), "y".to_string(), "c".to_string(), "b".to_string()];
    let report = export_dry_run_report(&remove, &pairs, &records);
    assert_eq!(report.groups.len(), 3);

    let g0 = &report.groups[0];
    assert_eq!(g0.remove.len(), 1);
    assert_eq!(g0.remove[0].path, "/m/b.mp4");
    assert_eq!(g0.remove[0].resolution, "");
    assert_eq!(g0.keep.len(), 1);
    assert_eq!(g0.keep[0].path, "/m/a.mp4");
    assert_eq!(g0.keep[0].resolution, "1920×1080");
    assert_eq!(g0.estimated_savings_bytes, 20);

    // x has no record: only y is listed
    let g1 = &report.groups[1];
    assert_eq!(g1.remove.len(), 1);
    assert_eq!(g1.remove[0].size_bytes, 5);
    assert!(g1.keep.is_empty());

    // c is filed under key "b", whose members are c and b
    let g2 = &report.groups[2];
    assert_eq!(g2.remove.iter().map(|i| i.path.as_str()).collect::<Vec<_>>(), vec!["/m/c.mp4", "/m/b.mp4"]);
    assert_eq!(g2.remove[0].resolution, "640×480");
    assert_eq!(g2.estimated_savings_bytes, 50);

    assert_eq!(report.total_savings_bytes, 75);
    assert!(!report.created_at.is_empty());
    assert!(report.created_at.chars().all(|c| c.is_ascii_digit()));
}

#[test]
fn unknown_ids_make_no_group() {
    let report = export_dry_run_report(&vec!["zzz".to_string()], &vec![], &vec![rec("a", 1, 0, 0)]);
    assert!(report.groups.is_empty());
    assert_eq!(report.total_savings_bytes, 0);
}
