use mediaorganizer::db::{file_id, folder_id, path_hash};
use mediaorganizer::escape::{csv_escape, escape_applescript, escape_path, escape_powershell, shell_split};
use mediaorganizer::frame::{flip_gray_horizontal, frame_to_gray32, gray_from_rgb32, pack_rows, GRAY_SIZE};

#[test]
fn gray_size_is_1024() {
    assert_eq!(GRAY_SIZE, 1024);
}

#[test]
fn flip_gray_is_involution() {
    let mut src = Box::new([0u8; 1024]);
    for i in 0..1024usize {
        src[i] = (i % 256) as u8;
    }
    let flipped = flip_gray_horizontal(&src);
    let restored = flip_gray_horizontal(&flipped);
    assert_eq!(&*restored, &*src);
}

#[test]
fn shell_split_basic() {
    let parts = shell_split("-i \"my file.mp4\" -f null -");
    assert_eq!(parts, ["-i", "my file.mp4", "-f", "null", "-"]);
}

#[test]
fn escape_path_backslash() {
    assert_eq!(escape_path("C:\\foo\\bar"), "C:/foo/bar");
}

#[test]
fn path_hash_length() {
    let h = path_hash("/some/path/to/video.mp4");
    assert_eq!(h.len(), 16);
}

#[test]
fn path_hash_is_sha256_prefix() {
    // SHA-256("abc") = ba7816bf8f01cfea414140de5dae2223...
    assert_eq!(path_hash("abc"), "ba7816bf8f01cfea");
    assert_eq!(file_id("abc"), "ba7816bf8f01cfea");
    assert_eq!(folder_id(""), "e3b0c44298fc1c14");
}

#[test]
fn file_id_differs_for_different_paths() {
    assert_ne!(file_id("/a/b.mp4"), file_id("/a/c.mp4"));
    assert_eq!(file_id("/a/b.mp4"), file_id("/a/b.mp4"));
}

#[test]
fn flip_reverses_each_row() {
    let mut src = [0u8; 1024];
    for y in 0..32 {
        for x in 0..32 {
            src[y * 32 + x] = (y * 32 + x) as u8;
        }
    }
    let f = flip_gray_horizontal(&src);
    for y in 0..32 {
        for x in 0..32 {
            assert_eq!(f[y * 32 + x], src[y * 32 + 31 - x]);
        }
    }
}

#[test]
fn escape_path_quotes() {
    assert_eq!(escape_path("it's"), "it'\\''s");
    assert_eq!(escape_path("a\\b'c"), "a/b'\\''c");
}

#[test]
fn shell_split_single_quotes_and_spaces() {
    let parts = shell_split("  a  'b c'  d");
    assert_eq!(parts, ["a", "b c", "d"]);
    assert!(shell_split("").is_empty());
    assert!(shell_split("   ").is_empty());
}

#[test]
fn csv_escape_quotes_only_when_needed() {
    assert_eq!(csv_escape("plain"), "plain");
    assert_eq!(csv_escape("a,b"), "\"a,b\"");
    assert_eq!(csv_escape("say \"hi\""), "\"say \"\"hi\"\"\"");
    assert_eq!(csv_escape("line\nbreak"), "\"line\nbreak\"");
}

#[test]
fn applescript_and_powershell_escaping() {
    assert_eq!(escape_applescript("a\\b\"c"), "a\\\\b\\\"c");
    assert_eq!(escape_powershell("it's"), "it''s");
}

#[test]
fn gray_from_rgb_uses_luma_weights() {
    let mut rgb = vec![0u8; 1024 * 3];
    for i in 0..1024 {
        rgb[i * 3] = 255;
    }
    rgb[3] = 10;
    rgb[4] = 20;
    rgb[5] = 30;
    let g = gray_from_rgb32(&rgb);
    assert_eq!(g[0], 76);
    assert_eq!(g[1], ((10 * 299 + 20 * 587 + 30 * 114) / 1000) as u8);
    assert!(g[2..].iter().all(|&v| v == 76));
}

#[test]
fn frame_to_gray32_of_uniform_frame() {
    // 64×48 frame, stride 200 (192 bytes of pixels per row plus padding).
    let (w, h, stride) = (64u32, 48u32, 200usize);
    let mut data = vec![0u8; stride * h as usize];
    for row in 0..h as usize {
        for x in 0..w as usize {
            data[row * stride + x * 3] = 0;
            data[row * stride + x * 3 + 1] = 255;
            data[row * stride + x * 3 + 2] = 0;
        }
        for pad in (w as usize * 3)..stride {
            data[row * stride + pad] = 99;
        }
    }
    let g = frame_to_gray32(&data, stride, w, h).unwrap();
    assert!(g.iter().all(|&v| v == ((255 * 587) / 1000) as u8));
}

#[test]
fn frame_to_gray32_refuses_empty_frames() {
    assert!(frame_to_gray32(&[], 0, 0, 10).is_none());
    assert!(frame_to_gray32(&[], 30, 10, 0).is_none());
}

#[test]
fn frame_to_gray32_downsamples_halves() {
    // Left half black, right half white, 64×64: the gray frame keeps the split.
    let (w, h) = (64u32, 64u32);
    let stride = 64 * 3;
    let mut data = vec![0u8; stride * 64];
    for row in 0..64usize {
        for x in 32..64usize {
            for c in 0..3 {
                data[row * stride + x * 3 + c] = 255;
            }
        }
    }
    let g = frame_to_gray32(&data, stride, w, h).unwrap();
    for y in 0..32 {
        for x in 0..32 {
            let expected = if x < 16 { 0 } else { 255 };
            assert_eq!(g[y * 32 + x], expected);
        }
    }
}

#[test]
fn pack_rows_drops_row_padding() {
    let data: Vec<u8> = (0u8..12).collect();
    let packed = pack_rows(&data, 4, 3, 3);
    assert_eq!(packed, vec![0, 1, 2, 4, 5, 6, 8, 9, 10]);
}
