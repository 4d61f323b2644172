//! Records kept for scanned media: media types by extension, match methods,
//! flag and identifier records, blacklist edges, and the identifiers derived
//! from a path with SHA-256.

use crate::text::{chars_of, eq_str, hex_char, hex_fixed, push_hex_fixed};
use crate::utils::since_epoch;
use vstd::string::StringSliceAdditionalSpecFns;
use vstd::prelude::*;

verus! {

// ─── Media types ─────────────────────────────────────────────────────────────

/// The kind of a media file, by its extension.
#[derive(Debug, Clone, Copy, PartialEq, Eq, Structural)]
pub enum MediaType {
    Video,
    Audio,
    Image,
    Document,
    Unknown,
}

impl Default for MediaType {
    fn default() -> (r: Self)
        ensures
            r == MediaType::Unknown,
    {
        MediaType::Unknown
    }
}

/// The extensions of video files (lowercase).
pub open spec fn video_ext(s: Seq<char>) -> bool {
    s == "mp4"@
    || s == "mkv"@
    || s == "avi"@
    || s == "mov"@
    || s == "wmv"@
    || s == "flv"@
    || s == "webm"@
    || s == "m4v"@
    || s == "mpg"@
    || s == "mpeg"@
    || s == "ts"@
    || s == "m2ts"@
    || s == "mts"@
    || s == "vob"@
    || s == "3gp"@
    || s == "ogv"@
    || s == "rm"@
    || s == "rmvb"@
    || s == "divx"@
    || s == "xvid"@
    || s == "asf"@
    || s == "f4v"@
    || s == "hevc"@
    || s == "264"@
    || s == "265"@
}

/// The extensions of audio files (lowercase).
pub open spec fn audio_ext(s: Seq<char>) -> bool {
    s == "mp3"@
    || s == "flac"@
    || s == "aac"@
    || s == "ogg"@
    || s == "opus"@
    || s == "wav"@
    || s == "aiff"@
    || s == "m4a"@
    || s == "wma"@
    || s == "ape"@
    || s == "alac"@
    || s == "dts"@
    || s == "ac3"@
    || s == "mka"@
    || s == "ra"@
}

/// The extensions of image files (lowercase).
pub open spec fn image_ext(s: Seq<char>) -> bool {
    s == "jpg"@
    || s == "jpeg"@
    || s == "png"@
    || s == "bmp"@
    || s == "gif"@
    || s == "webp"@
    || s == "tiff"@
    || s == "tif"@
    || s == "heic"@
    || s == "heif"@
    || s == "avif"@
    || s == "raw"@
    || s == "cr2"@
    || s == "cr3"@
    || s == "nef"@
    || s == "arw"@
    || s == "dng"@
    || s == "orf"@
}

pub(crate) fn is_video_ext(s: &Vec<char>) -> (r: bool)
    ensures
        r == video_ext(s@),
{
    eq_str(s, "mp4")
        || eq_str(s, "mkv")
        || eq_str(s, "avi")
        || eq_str(s, "mov")
        || eq_str(s, "wmv")
        || eq_str(s, "flv")
        || eq_str(s, "webm")
        || eq_str(s, "m4v")
        || eq_str(s, "mpg")
        || eq_str(s, "mpeg")
        || eq_str(s, "ts")
        || eq_str(s, "m2ts")
        || eq_str(s, "mts")
        || eq_str(s, "vob")
        || eq_str(s, "3gp")
        || eq_str(s, "ogv")
        || eq_str(s, "rm")
        || eq_str(s, "rmvb")
        || eq_str(s, "divx")
        || eq_str(s, "xvid")
        || eq_str(s, "asf")
        || eq_str(s, "f4v")
        || eq_str(s, "hevc")
        || eq_str(s, "264")
        || eq_str(s, "265")
}

fn is_audio_ext(s: &Vec<char>) -> (r: bool)
    ensures
        r == audio_ext(s@),
{
    eq_str(s, "mp3")
        || eq_str(s, "flac")
        || eq_str(s, "aac")
        || eq_str(s, "ogg")
        || eq_str(s, "opus")
        || eq_str(s, "wav")
        || eq_str(s, "aiff")
        || eq_str(s, "m4a")
        || eq_str(s, "wma")
        || eq_str(s, "ape")
        || eq_str(s, "alac")
        || eq_str(s, "dts")
        || eq_str(s, "ac3")
        || eq_str(s, "mka")
        || eq_str(s, "ra")
}

fn is_image_ext(s: &Vec<char>) -> (r: bool)
    ensures
        r == image_ext(s@),
{
    eq_str(s, "jpg")
        || eq_str(s, "jpeg")
        || eq_str(s, "png")
        || eq_str(s, "bmp")
        || eq_str(s, "gif")
        || eq_str(s, "webp")
        || eq_str(s, "tiff")
        || eq_str(s, "tif")
        || eq_str(s, "heic")
        || eq_str(s, "heif")
        || eq_str(s, "avif")
        || eq_str(s, "raw")
        || eq_str(s, "cr2")
        || eq_str(s, "cr3")
        || eq_str(s, "nef")
        || eq_str(s, "arw")
        || eq_str(s, "dng")
        || eq_str(s, "orf")
}

/// The media type of a lowercase extension.
pub open spec fn media_type_of(lower: Seq<char>) -> MediaType {
    if video_ext(lower) {
        MediaType::Video
    } else if audio_ext(lower) {
        MediaType::Audio
    } else if image_ext(lower) {
        MediaType::Image
    } else {
        MediaType::Unknown
    }
}

/// The Unicode lowercase of a string.
pub uninterp spec fn lowercase(s: Seq<char>) -> Seq<char>;

/// The lowercase form of `s` (std `str::to_lowercase`, which lowercases by
/// the Unicode `Lowercase` property).  Its result is named `lowercase(s@)`;
/// which characters it maps, and to what, is left to std.
#[verifier::external_body]
pub(crate) fn to_lowercase(s: &str) -> (r: String)
    ensures
        r@ == lowercase(s@),
{
    s.to_lowercase()
}

impl MediaType {
    /// The media type of a file extension, compared case-insensitively.
    pub fn from_extension(ext: &str) -> (r: Self)
        ensures
            r == media_type_of(lowercase(ext@)),
    {
        let lower = to_lowercase(ext);
        MediaType::from_lowercase_extension(lower.as_str())
    }

    /// The media type of an extension that is already lowercase.
    pub fn from_lowercase_extension(lower: &str) -> (r: Self)
        ensures
            r == media_type_of(lower@),
    {
        let cs = chars_of(lower);
        if is_video_ext(&cs) {
            MediaType::Video
        } else if is_audio_ext(&cs) {
            MediaType::Audio
        } else if is_image_ext(&cs) {
            MediaType::Image
        } else {
            MediaType::Unknown
        }
    }

    pub fn is_video(self) -> (r: bool)
        ensures
            r == (self == MediaType::Video),
    {
        match self {
            MediaType::Video => true,
            _ => false,
        }
    }

    pub fn is_audio(self) -> (r: bool)
        ensures
            r == (self == MediaType::Audio),
    {
        match self {
            MediaType::Audio => true,
            _ => false,
        }
    }

    pub fn is_image(self) -> (r: bool)
        ensures
            r == (self == MediaType::Image),
    {
        match self {
            MediaType::Image => true,
            _ => false,
        }
    }
}

// ─── Match methods ───────────────────────────────────────────────────────────

/// The evidence by which two files were judged duplicates.
#[derive(Debug, Clone, Copy, PartialEq, Eq, Structural)]
pub enum MatchMethod {
    FrameSimilarity,
    IframeTimeline,
    AudioFingerprint,
    Mpeg7Signature,
    SsimVerified,
    TemporalAverageHash,
}

/// The name under which a method is stored in a duplicate edge.
pub open spec fn method_db_name(m: MatchMethod) -> Seq<char> {
    match m {
        MatchMethod::FrameSimilarity => "FrameSimilarity"@,
        MatchMethod::IframeTimeline => "IframeTimeline"@,
        MatchMethod::AudioFingerprint => "AudioFingerprint"@,
        MatchMethod::Mpeg7Signature => "Mpeg7Signature"@,
        MatchMethod::SsimVerified => "SsimVerified"@,
        MatchMethod::TemporalAverageHash => "TemporalAverageHash"@,
    }
}

/// The method a stored name stands for; an unknown name reads as
/// `FrameSimilarity`.
pub open spec fn method_of_db_name(s: Seq<char>) -> MatchMethod {
    if s == "IframeTimeline"@ {
        MatchMethod::IframeTimeline
    } else if s == "AudioFingerprint"@ {
        MatchMethod::AudioFingerprint
    } else if s == "Mpeg7Signature"@ {
        MatchMethod::Mpeg7Signature
    } else if s == "SsimVerified"@ {
        MatchMethod::SsimVerified
    } else if s == "TemporalAverageHash"@ {
        MatchMethod::TemporalAverageHash
    } else {
        MatchMethod::FrameSimilarity
    }
}

/// The short label of a method in reports.
pub open spec fn method_label_text(m: MatchMethod) -> Seq<char> {
    match m {
        MatchMethod::FrameSimilarity => "frame-phash"@,
        MatchMethod::IframeTimeline => "i-frame-timeline"@,
        MatchMethod::AudioFingerprint => "audio-chromaprint"@,
        MatchMethod::Mpeg7Signature => "mpeg7-signature"@,
        MatchMethod::SsimVerified => "ssim-verified"@,
        MatchMethod::TemporalAverageHash => "temporal-avg-hash"@,
    }
}

impl MatchMethod {
    /// The method stored under `name` in a duplicate edge.
    pub fn from_db_name(name: &str) -> (r: Self)
        ensures
            r == method_of_db_name(name@),
    {
        let cs = chars_of(name);
        if eq_str(&cs, "IframeTimeline") {
            MatchMethod::IframeTimeline
        } else if eq_str(&cs, "AudioFingerprint") {
            MatchMethod::AudioFingerprint
        } else if eq_str(&cs, "Mpeg7Signature") {
            MatchMethod::Mpeg7Signature
        } else if eq_str(&cs, "SsimVerified") {
            MatchMethod::SsimVerified
        } else if eq_str(&cs, "TemporalAverageHash") {
            MatchMethod::TemporalAverageHash
        } else {
            MatchMethod::FrameSimilarity
        }
    }

    /// The name under which the method is stored in a duplicate edge.
    pub fn db_name(self) -> (r: &'static str)
        ensures
            r@ == method_db_name(self),
    {
        match self {
            MatchMethod::FrameSimilarity => "FrameSimilarity",
            MatchMethod::IframeTimeline => "IframeTimeline",
            MatchMethod::AudioFingerprint => "AudioFingerprint",
            MatchMethod::Mpeg7Signature => "Mpeg7Signature",
            MatchMethod::SsimVerified => "SsimVerified",
            MatchMethod::TemporalAverageHash => "TemporalAverageHash",
        }
    }
}

/// The short label of a method in reports.
pub fn method_label(m: MatchMethod) -> (r: &'static str)
    ensures
        r@ == method_label_text(m),
{
    match m {
        MatchMethod::FrameSimilarity => "frame-phash",
        MatchMethod::IframeTimeline => "i-frame-timeline",
        MatchMethod::AudioFingerprint => "audio-chromaprint",
        MatchMethod::Mpeg7Signature => "mpeg7-signature",
        MatchMethod::SsimVerified => "ssim-verified",
        MatchMethod::TemporalAverageHash => "temporal-avg-hash",
    }
}

// ─── Records ─────────────────────────────────────────────────────────────────

/// One subtitle stream of a container.
#[derive(Debug, Clone, Default)]
pub struct SubtitleStreamInfo {
    pub index: u32,
    pub codec_name: String,
    pub language: Option<String>,
    pub title: Option<String>,
    pub is_default: bool,
    pub is_forced: bool,
    pub is_hearing_impaired: bool,
}

/// Per-file status flags.
#[derive(Debug, Clone, Default)]
pub struct FileFlags {
    pub manually_excluded: bool,
    pub thumbnail_error: bool,
    pub metadata_error: bool,
    pub no_audio_track: bool,
    pub audio_fingerprint_error: bool,
    pub silent_audio_track: bool,
    pub is_missing: bool,
    pub scan_error: Option<String>,
    pub is_placeholder: bool,
}

/// Identifiers of a file in outside catalogues.
#[derive(Debug, Clone, Default)]
pub struct ExternalIds {
    pub tmdb_id: Option<i64>,
    pub tvdb_id: Option<i64>,
    pub imdb_id: Option<String>,
    pub musicbrainz_recording_id: Option<String>,
    pub musicbrainz_release_id: Option<String>,
    pub acoustid: Option<String>,
    pub isrc: Option<String>,
    /// Path of the cached MPEG-7 signature file.
    pub mpeg7_sig_path: Option<String>,
}

/// A scanned folder.
#[derive(Debug, Clone)]
pub struct LocationRecord {
    pub id: String,
    pub path: String,
    pub name: String,
    pub label: Option<String>,
    pub mount_type: Option<String>,
    pub scanned_at: u64,
    pub file_count: u64,
}

/// A tag that a user attaches to files.
#[derive(Debug, Clone)]
pub struct UserTag {
    pub id: String,
    pub name: String,
    pub color: Option<String>,
    pub description: Option<String>,
    pub created_at: u64,
}

/// A pair of files that the user marked as not duplicates.
#[derive(Debug, Clone)]
pub struct BlacklistEntry {
    pub file_a: String,
    pub file_b: String,
    pub added_at: u64,
    pub reason: Option<String>,
}

/// Seconds since the Unix epoch by the system clock (0 before the epoch).
pub fn unix_now() -> u64 {
    let (secs, _) = since_epoch();
    secs
}

impl BlacklistEntry {
    /// An entry for the pair, stamped with the current time.
    pub fn new(file_a: String, file_b: String, reason: Option<String>) -> (r: Self)
        ensures
            r.file_a == file_a,
            r.file_b == file_b,
            r.reason == reason,
    {
        BlacklistEntry { file_a, file_b, added_at: unix_now(), reason }
    }
}

// ─── Identifiers ─────────────────────────────────────────────────────────────

/// The SHA-256 digest of a byte string.
pub uninterp spec fn sha256_digest(data: Seq<u8>) -> Seq<u8>;

/// The SHA-256 digest of `data` (sha2 `Sha256::digest`), as its 32 bytes:
/// named `sha256_digest(data@)`.
#[verifier::external_body]
fn sha256(data: &[u8]) -> (r: [u8; 32])
    ensures
        r@ == sha256_digest(data@),
{
    <sha2::Sha256 as sha2::Digest>::digest(data).into()
}

/// Bytes as lowercase hex, two digits each.
pub open spec fn hex_bytes(bs: Seq<u8>) -> Seq<char>
    decreases bs.len(),
{
    if bs.len() == 0 {
        Seq::empty()
    } else {
        hex_bytes(bs.drop_last()) + hex_fixed(bs.last() as nat, 2)
    }
}

/// Whether `c` is a lowercase hexadecimal digit.
pub open spec fn is_hex_char(c: char) -> bool {
    ('0' <= c <= '9') || ('a' <= c <= 'f')
}

/// Lowercase hex of bytes has two hex digits per byte.
pub proof fn lemma_hex_bytes_chars(bs: Seq<u8>)
    ensures
        hex_bytes(bs).len() == 2 * bs.len(),
        forall|i: int| 0 <= i < hex_bytes(bs).len() ==> is_hex_char(#[trigger] hex_bytes(bs)[i]),
    decreases bs.len(),
{
    if bs.len() > 0 {
        lemma_hex_bytes_chars(bs.drop_last());
        let h = hex_fixed(bs.last() as nat, 2);
        reveal_with_fuel(hex_fixed, 3);
        assert(h =~= seq![hex_char(((bs.last() as nat) / 16) % 16), hex_char((bs.last() as nat) % 16)]);
        let whole = hex_bytes(bs);
        let front = hex_bytes(bs.drop_last());
        assert forall|i: int| 0 <= i < whole.len() implies is_hex_char(#[trigger] whole[i]) by {
            if i < front.len() {
                assert(whole[i] == front[i]);
            } else {
                assert(whole[i] == h[i - front.len()]);
            }
        }
    }
}

/// The identifier of a path: the first 16 hex digits (8 bytes) of the
/// SHA-256 of its UTF-8 bytes.
pub open spec fn path_id(bytes: Seq<u8>) -> Seq<char> {
    hex_bytes(sha256_digest(bytes).take(8))
}

/// The stable 16-character identifier of a file path.
pub fn file_id(path: &str) -> (r: String)
    ensures
        r@ == path_id(path.spec_bytes()),
        r@.len() == 16,
{
    let digest = sha256(path.as_bytes());
    let mut s = String::new();
    let mut i: usize = 0;
    while i < 8
        invariant
            i <= 8,
            digest@ == sha256_digest(path.spec_bytes()),
            s@ == hex_bytes(digest@.take(i as int)),
        decreases 8 - i,
    {
        push_hex_fixed(&mut s, digest[i] as u128, 2);
        proof {
            assert(digest@.take(i as int + 1).drop_last() =~= digest@.take(i as int));
        }
        i = i + 1;
    }
    proof {
        lemma_hex_bytes_chars(digest@.take(8));
    }
    s
}

/// The identifier of a folder path, made as that of a file path.
pub fn folder_id(path: &str) -> (r: String)
    ensures
        r@ == path_id(path.spec_bytes()),
        r@.len() == 16,
{
    file_id(path)
}

/// The name under which the MPEG-7 signature of a video is cached: the
/// identifier of its path.
pub fn path_hash(video_path: &str) -> (r: String)
    ensures
        r@ == path_id(video_path.spec_bytes()),
        r@.len() == 16,
{
    file_id(video_path)
}

} // verus!
