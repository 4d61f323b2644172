use mediaorganizer::config::{hw_accel_flag_str, FolderMatchMode, HardwareAccel, Platform};
use mediaorganizer::ffmpeg_setup::{
    check_ffmpeg, ffmpeg_path, ffmpeg_ready, ffmpeg_status, ffprobe_path, install_instructions,
    FfmpegStatus,
};
use mediaorganizer::notify::notify_command;
use mediaorganizer::ui_state::{
    apply_sort, remove_cluster_containing, remove_file, LevelFilter, LogLevel, ResultCluster, ResultEdge, ResultSort,
    ScanLog, SortKey, MAX_LOG,
};

#[test]
fn ffmpeg_state_before_and_after_the_check() {
    let none = None;
    assert!(ffmpeg_status(&none).is_none());
    assert!(!ffmpeg_ready(&none));
    assert!(ffmpeg_path(&none).is_none());

    let ready = Some(check_ffmpeg(Some("/usr/bin/ffmpeg".to_string()), Some("/usr/bin/ffprobe".to_string())));
    assert_eq!(ffmpeg_status(&ready), Some(&FfmpegStatus::Ready));
    assert!(ffmpeg_ready(&ready));
    assert_eq!(ffmpeg_path(&ready), Some("/usr/bin/ffmpeg"));
    assert_eq!(ffprobe_path(&ready), Some("/usr/bin/ffprobe"));

    let partial = Some(check_ffmpeg(Some("/x/ffmpeg".to_string()), None));
    assert_eq!(
        ffmpeg_status(&partial),
        Some(&FfmpegStatus::MissingFfprobe { ffmpeg_path: "/x/ffmpeg".to_string() })
    );
    assert!(!ffmpeg_ready(&partial));
    assert!(ffprobe_path(&partial).is_none());

    let other = Some(check_ffmpeg(None, Some("/y/ffprobe".to_string())));
    assert_eq!(
        ffmpeg_status(&other),
        Some(&FfmpegStatus::MissingFfmpeg { ffprobe_path: "/y/ffprobe".to_string() })
    );
    let missing = Some(check_ffmpeg(None, None));
    assert_eq!(ffmpeg_status(&missing), Some(&FfmpegStatus::Missing));
}

#[test]
fn install_instructions_per_platform() {
    assert!(install_instructions(Platform::Linux).starts_with("sudo apt install ffmpeg"));
    assert!(install_instructions(Platform::MacOs).starts_with("brew install ffmpeg"));
    assert!(install_instructions(Platform::Windows).contains("BtbN"));
    assert_eq!(install_instructions(Platform::Other), "https://ffmpeg.org/download.html");
}

#[test]
fn hwaccel_flags() {
    assert_eq!(hw_accel_flag_str(HardwareAccel::Off), None);
    assert_eq!(hw_accel_flag_str(HardwareAccel::Vaapi), Some("vaapi"));
    assert_eq!(hw_accel_flag_str(HardwareAccel::VideoToolbox), Some("videotoolbox"));
    assert_eq!(hw_accel_flag_str(HardwareAccel::OpenCl), Some("opencl"));
    assert_eq!(HardwareAccel::default(), HardwareAccel::Off);
    assert_eq!(FolderMatchMode::default(), FolderMatchMode::Unconstrained);
}

#[test]
fn notification_commands() {
    let (prog, args) = notify_command(Platform::Linux, "Scan done", "3 duplicates").unwrap();
    assert_eq!(prog, "notify-send");
    assert_eq!(args, ["--app-name", "MediaOrganizer", "Scan done", "3 duplicates"]);
    let (prog, args) = notify_command(Platform::MacOs, "T\"", "m\\").unwrap();
    assert_eq!(prog, "osascript");
    assert_eq!(args, ["-e", "display notification \"m\\\\\" with title \"T\\\"\""]);
    let (prog, args) = notify_command(Platform::Windows, "it's", "ok").unwrap();
    assert_eq!(prog, "powershell");
    assert_eq!(args.len(), 5);
    assert!(args[4].contains("ShowBalloonTip(4000,'it''s','ok',"));
    assert!(notify_command(Platform::Other, "a", "b").is_none());
}

#[test]
fn scan_log_is_capped() {
    let mut log = ScanLog::new();
    for i in 0..(MAX_LOG + 10) {
        log.push_log(LogLevel::Info, format!("line {i}"));
    }
    assert_eq!(log.entries.len(), MAX_LOG);
    assert_eq!(log.entries[0].message, "line 10");
    assert_eq!(log.entries[MAX_LOG - 1].message, format!("line {}", MAX_LOG + 9));
    log.push_log(LogLevel::Error, "boom".to_string());
    assert_eq!(log.entries.last().unwrap().level, LogLevel::Error);
    log.reset();
    assert!(log.entries.is_empty());
    assert_eq!(ResultSort::default(), ResultSort::SimilarityDesc);
}

#[test]
fn log_level_filter() {
    let mut log = ScanLog::new();
    log.push_log(LogLevel::Info, "a".to_string());
    log.push_log(LogLevel::Warn, "b".to_string());
    log.push_log(LogLevel::Info, "c".to_string());
    log.push_log(LogLevel::Error, "d".to_string());
    assert_eq!(log.filtered(LevelFilter::All), vec![0, 1, 2, 3]);
    assert_eq!(log.filtered(LevelFilter::Info), vec![0, 2]);
    assert_eq!(log.filtered(LevelFilter::Warn), vec![1]);
    assert_eq!(log.filtered(LevelFilter::Error), vec![3]);
}

fn edge(a: &str, b: &str, sim: f32) -> ResultEdge {
    ResultEdge { file_a: a.to_string(), file_b: b.to_string(), similarity_bits: sim.to_bits() }
}

fn cluster(files: &[&str], edges: Vec<ResultEdge>) -> ResultCluster {
    let best = edges.iter().map(|e| e.similarity_bits).max().unwrap_or(0);
    ResultCluster { files: files.iter().map(|s| s.to_string()).collect(), edges, max_similarity_bits: best }
}

#[test]
fn removing_a_file_updates_and_drops_clusters() {
    let mut clusters = vec![
        cluster(&["a", "b", "c"], vec![edge("a", "b", 0.9), edge("b", "c", 0.95)]),
        cluster(&["x", "c"], vec![edge("x", "c", 0.8)]),
        cluster(&["p", "q"], vec![edge("p", "q", 0.7)]),
    ];
    remove_file(&mut clusters, "c");
    assert_eq!(clusters.len(), 2);
    assert_eq!(clusters[0].files, vec!["a".to_string(), "b".to_string()]);
    assert_eq!(clusters[0].edges.len(), 1);
    assert_eq!(f32::from_bits(clusters[0].max_similarity_bits), 0.9);
    assert_eq!(clusters[1].files, vec!["p".to_string(), "q".to_string()]);
}

#[test]
fn removing_clusters_by_member() {
    let mut clusters = vec![
        cluster(&["a", "b"], vec![edge("a", "b", 0.9)]),
        cluster(&["c", "d"], vec![edge("c", "d", 0.9)]),
        cluster(&["e", "f"], vec![edge("e", "f", 0.9)]),
    ];
    remove_cluster_containing(&mut clusters, &vec!["d".to_string(), "zz".to_string()]);
    assert_eq!(clusters.len(), 2);
    assert_eq!(clusters[0].files[0], "a");
    assert_eq!(clusters[1].files[0], "e");
}

#[test]
fn results_sort_orders() {
    let key = |sim: f32, sizes: &[u64]| SortKey { similarity_bits: sim.to_bits(), sizes: sizes.to_vec() };
    let keys = vec![key(0.9, &[10, 10]), key(0.95, &[1]), key(0.9, &[50]), key(0.5, &[5, 5])];
    assert_eq!(apply_sort(&keys, ResultSort::SimilarityDesc), vec![1, 0, 2, 3]);
    assert_eq!(apply_sort(&keys, ResultSort::SimilarityAsc), vec![3, 0, 2, 1]);
    assert_eq!(apply_sort(&keys, ResultSort::SizeDesc), vec![2, 0, 3, 1]);
    assert!(apply_sort(&vec![], ResultSort::SizeDesc).is_empty());
}
