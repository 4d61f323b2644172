use mediaorganizer::db::{method_label, unix_now, BlacklistEntry, MatchMethod, MediaType};

#[test]
fn media_type_detected_from_extension() {
    // A file record takes its media type from the extension of its path.
    let img = MediaType::from_extension("jpg");
    assert!(img.is_image());
    let aud = MediaType::from_extension("flac");
    assert!(aud.is_audio());
    let vid = MediaType::from_extension("mkv");
    assert!(vid.is_video());
}

#[test]
fn media_type_ignores_case() {
    assert_eq!(MediaType::from_extension("MP4"), MediaType::Video);
    assert_eq!(MediaType::from_extension("Flac"), MediaType::Audio);
    assert_eq!(MediaType::from_extension("JPEG"), MediaType::Image);
    assert_eq!(MediaType::from_extension("txt"), MediaType::Unknown);
    assert_eq!(MediaType::from_extension(""), MediaType::Unknown);
    assert_eq!(MediaType::from_lowercase_extension("MP4"), MediaType::Unknown);
    assert_eq!(MediaType::default(), MediaType::Unknown);
}

#[test]
fn every_listed_extension_is_classified() {
    for e in ["mp4", "mkv", "avi", "mov", "wmv", "flv", "webm", "m4v", "mpg", "mpeg", "ts", "m2ts", "mts", "vob", "3gp", "ogv", "rm", "rmvb", "divx", "xvid", "asf", "f4v", "hevc", "264", "265"] {
        assert!(MediaType::from_extension(e).is_video(), "{e}");
    }
    for e in ["mp3", "flac", "aac", "ogg", "opus", "wav", "aiff", "m4a", "wma", "ape", "alac", "dts", "ac3", "mka", "ra"] {
        assert!(MediaType::from_extension(e).is_audio(), "{e}");
    }
    for e in ["jpg", "jpeg", "png", "bmp", "gif", "webp", "tiff", "tif", "heic", "heif", "avif", "raw", "cr2", "cr3", "nef", "arw", "dng", "orf"] {
        assert!(MediaType::from_extension(e).is_image(), "{e}");
    }
}

#[test]
fn method_names_round_trip() {
    let all = [
        MatchMethod::FrameSimilarity,
        MatchMethod::IframeTimeline,
        MatchMethod::AudioFingerprint,
        MatchMethod::Mpeg7Signature,
        MatchMethod::SsimVerified,
        MatchMethod::TemporalAverageHash,
    ];
    for m in all {
        assert_eq!(MatchMethod::from_db_name(m.db_name()), m);
    }
    assert_eq!(MatchMethod::from_db_name("whatever"), MatchMethod::FrameSimilarity);
    assert_eq!(method_label(MatchMethod::AudioFingerprint), "audio-chromaprint");
    assert_eq!(method_label(MatchMethod::TemporalAverageHash), "temporal-avg-hash");
}

#[test]
fn blacklist_entry_keeps_its_fields() {
    let before = unix_now();
    let e = BlacklistEntry::new("a".to_string(), "b".to_string(), Some("same intro".to_string()));
    assert_eq!(e.file_a, "a");
    assert_eq!(e.file_b, "b");
    assert_eq!(e.reason.as_deref(), Some("same intro"));
    assert!(e.added_at >= before);
}
