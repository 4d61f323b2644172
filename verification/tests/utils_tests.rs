use mediaorganizer::utils::{
    bytes_to_string, chrono_or_iso8601, days_to_ymd, format_duration, iso8601_from_secs,
    trash_file_name, trash_info, uuid_v4_hex,
};

/// The size text as computed with binary64 arithmetic.
fn f64_size_text(bytes: u64) -> String {
    const SUFFIXES: &[&str] = &[" B", " KB", " MB", " GB", " TB", " PB", " EB"];
    if bytes == 0 {
        return "0 B".to_string();
    }
    let mut place = 0usize;
    let mut value = bytes as f64;
    while value >= 1024.0 && place < SUFFIXES.len() - 1 {
        value /= 1024.0;
        place += 1;
    }
    format!("{:.1}{}", value, SUFFIXES[place])
}

#[test]
fn bytes_to_string_zero() {
    assert_eq!(bytes_to_string(0), "0 B");
}

#[test]
fn bytes_to_string_mb() {
    let s = bytes_to_string(1024 * 1024);
    assert!(s.contains("MB"), "expected MB in '{}'", s);
}

#[test]
fn bytes_to_string_exact_values() {
    assert_eq!(bytes_to_string(1), "1.0 B");
    assert_eq!(bytes_to_string(1023), "1023.0 B");
    assert_eq!(bytes_to_string(1024), "1.0 KB");
    assert_eq!(bytes_to_string(1536), "1.5 KB");
    assert_eq!(bytes_to_string(1024 * 1024), "1.0 MB");
    assert_eq!(bytes_to_string(u64::MAX), "16.0 EB");
    // 1.25 KB is a tie at one decimal: it goes to the even digit.
    assert_eq!(bytes_to_string(1280), "1.2 KB");
    assert_eq!(bytes_to_string(1024 * 1024 - 1), "1024.0 KB");
}

#[test]
fn bytes_to_string_matches_binary64_formatting() {
    let mut samples: Vec<u64> = vec![0, 1, 2, 9, 10, 99, 100, 1000, 1023, 1024, 1025, 1280, 1331, 1332];
    for p in 0..64u32 {
        let v = 1u64 << p;
        samples.push(v);
        samples.push(v - 1);
        samples.push(v + 1);
        samples.push(v + v / 2);
        samples.push(v + v / 20);
        samples.push(v + v / 20 * 3);
    }
    let mut x: u64 = 0x9e37_79b9_7f4a_7c15;
    for _ in 0..20000 {
        x ^= x << 13;
        x ^= x >> 7;
        x ^= x << 17;
        samples.push(x >> (x % 64));
    }
    for k in 1..2000u64 {
        samples.push(k * 1024 / 20);
        samples.push(k * 1024 * 1024 / 20);
        samples.push((k * 1024 / 20) << 30);
    }
    samples.push(u64::MAX);
    samples.push(u64::MAX - 1024);
    samples.push((1u64 << 53) + 1);
    for b in samples {
        assert_eq!(bytes_to_string(b), f64_size_text(b), "bytes = {b}");
    }
}

#[test]
fn format_duration_seconds() {
    assert_eq!(format_duration(45.0f64 as u64), "45s");
}

#[test]
fn format_duration_minutes() {
    assert_eq!(format_duration(90.0f64 as u64), "1m, 30s");
}

#[test]
fn format_duration_hours() {
    assert_eq!(format_duration(3661.0f64 as u64), "1h, 1m");
}

#[test]
fn format_duration_other_units() {
    assert_eq!(format_duration(0), "0s");
    assert_eq!(format_duration(60), "1m, 0s");
    assert_eq!(format_duration(3600), "1h");
    assert_eq!(format_duration(86400), "1d");
    assert_eq!(format_duration(90000), "1d, 1h");
    assert_eq!(format_duration(86400 + 59), "1d");
}

#[test]
fn days_to_ymd_known_dates() {
    assert_eq!(days_to_ymd(0), (1970, 1, 1));
    assert_eq!(days_to_ymd(31), (1970, 2, 1));
    assert_eq!(days_to_ymd(59), (1970, 3, 1));
    assert_eq!(days_to_ymd(365), (1971, 1, 1));
    // 2000-02-29 (leap year divisible by 400) is day 11016.
    assert_eq!(days_to_ymd(11016), (2000, 2, 29));
    assert_eq!(days_to_ymd(11017), (2000, 3, 1));
    // 2100 is not a leap year.
    assert_eq!(days_to_ymd(47541), (2100, 3, 1));
    assert_eq!(days_to_ymd(19723), (2024, 1, 1));
}

#[test]
fn iso8601_formatting() {
    assert_eq!(iso8601_from_secs(0), "1970-01-01T00:00:00");
    assert_eq!(iso8601_from_secs(1_700_000_000), "2023-11-14T22:13:20");
    assert_eq!(iso8601_from_secs(951_782_400 + 3_723), "2000-02-29T01:02:03");
}

#[test]
fn clock_based_texts_have_their_shape() {
    let now = chrono_or_iso8601();
    assert_eq!(now.len(), 19);
    assert_eq!(&now[4..5], "-");
    assert_eq!(&now[10..11], "T");
    let id = uuid_v4_hex();
    assert_eq!(id.len(), 32);
    assert!(id.chars().all(|c| c.is_ascii_hexdigit() && !c.is_ascii_uppercase()));
}

#[test]
fn trash_names() {
    assert_eq!(trash_file_name("movie.mp4", 0), "movie.mp4");
    assert_eq!(trash_file_name("movie.mp4", 1), "movie_1.mp4");
    assert_eq!(trash_file_name("archive.tar.gz", 12), "archive.tar_12.gz");
    assert_eq!(trash_file_name(".bashrc", 2), ".bashrc_2");
    assert_eq!(trash_file_name("noext", 3), "noext_3");
    assert_eq!(trash_file_name("dot.", 1), "dot_1");
    assert_eq!(trash_file_name("..", 1), ".._1");
}

#[test]
fn trash_info_text() {
    assert_eq!(
        trash_info("/home/u/a.mp4", "2024-01-01T00:00:00"),
        "[Trash Info]\nPath=/home/u/a.mp4\nDeletionDate=2024-01-01T00:00:00\n"
    );
}
