use mediaorganizer::clusters::{cluster_groups, cluster_labels, plan_deletions, DeletionStrategy, MarkCandidate};

fn file(size: u64, dur: u64, w: u32, h: u32) -> MarkCandidate {
    MarkCandidate { size_bytes: size, duration_order: dur, width: Some(w), height: Some(h) }
}

#[test]
fn chains_of_pairs_form_one_cluster() {
    let pairs = vec![(0usize, 1usize), (2, 3), (1, 2)];
    let labels = cluster_labels(5, &pairs);
    assert_eq!(labels.len(), 5);
    assert_eq!(labels[0], labels[1]);
    assert_eq!(labels[0], labels[2]);
    assert_eq!(labels[0], labels[3]);
    assert_ne!(labels[0], labels[4]);
    assert_eq!(labels[4], 4);
}

#[test]
fn separate_pairs_stay_separate() {
    let labels = cluster_labels(4, &vec![(0, 1), (2, 3)]);
    assert_eq!(labels[0], labels[1]);
    assert_eq!(labels[2], labels[3]);
    assert_ne!(labels[1], labels[2]);
}

#[test]
fn smallest_file_strategy_keeps_largest() {
    let files = vec![file(10, 0, 0, 0), file(30, 0, 0, 0), file(20, 0, 0, 0), file(5, 0, 0, 0)];
    let pairs = vec![(0, 1), (1, 2)];
    let doomed = plan_deletions(&pairs, &vec![true, true], &files, DeletionStrategy::SmallestFile);
    // file 3 is in no pair; file 1 is the largest of {0, 1, 2}
    assert_eq!(doomed, vec![0, 2]);
}

#[test]
fn resolution_strategy_keeps_most_pixels_first_on_tie() {
    let files = vec![file(1, 0, 640, 480), file(1, 0, 1920, 1080), file(1, 0, 1920, 1080)];
    let pairs = vec![(0, 1), (0, 2)];
    let doomed = plan_deletions(&pairs, &vec![true, true], &files, DeletionStrategy::WorstResolution);
    assert_eq!(doomed, vec![0, 2]);
    let lowest = plan_deletions(&pairs, &vec![true, true], &files, DeletionStrategy::LowestQuality);
    assert_eq!(lowest, vec![0, 2]);
}

#[test]
fn duration_strategy_keeps_longest() {
    let files = vec![file(1, 100, 0, 0), file(1, 50, 0, 0)];
    let doomed = plan_deletions(&vec![(0, 1)], &vec![true], &files, DeletionStrategy::ShortestDuration);
    assert_eq!(doomed, vec![1]);
}

#[test]
fn exact_only_strategy_skips_inexact_clusters() {
    let files = vec![
        file(1, 0, 10, 10),
        file(1, 0, 20, 20),
        file(1, 0, 10, 10),
        file(1, 0, 30, 30),
    ];
    let pairs = vec![(0, 1), (2, 3)];
    let exact = vec![true, false];
    let doomed = plan_deletions(&pairs, &exact, &files, DeletionStrategy::HundredPercentOnly);
    assert_eq!(doomed, vec![0]);
    // other strategies ignore the exactness flags
    let all = plan_deletions(&pairs, &exact, &files, DeletionStrategy::WorstResolution);
    assert_eq!(all, vec![0, 2]);
}

#[test]
fn every_cluster_keeps_one_file() {
    let files = vec![file(7, 0, 0, 0), file(7, 0, 0, 0), file(7, 0, 0, 0)];
    let doomed = plan_deletions(&vec![(0, 1), (1, 2)], &vec![true, true], &files, DeletionStrategy::SmallestFile);
    assert_eq!(doomed, vec![1, 2]);
}

#[test]
fn no_pairs_no_deletions() {
    let files = vec![file(1, 0, 0, 0), file(2, 0, 0, 0)];
    assert!(plan_deletions(&vec![], &vec![], &files, DeletionStrategy::SmallestFile).is_empty());
}

#[test]
fn groups_list_pairs_and_files_per_cluster() {
    // files 0..7; pairs link {0, 1, 4} and {2, 5}; 3 and 6 are in no pair
    let pairs = vec![(2usize, 5usize), (0, 1), (4, 1), (5, 2)];
    let groups = cluster_groups(7, &pairs);
    assert_eq!(groups.len(), 2);
    assert_eq!(groups[0].pairs, vec![0, 3]);
    assert_eq!(groups[0].files, vec![2, 5]);
    assert_eq!(groups[1].pairs, vec![1, 2]);
    assert_eq!(groups[1].files, vec![0, 1, 4]);
    assert_ne!(groups[0].label, groups[1].label);
    assert!(cluster_groups(3, &vec![]).is_empty());
}
