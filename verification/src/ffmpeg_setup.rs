//! Whether `ffmpeg` and `ffprobe` were found at startup, and what the user
//! is told when they were not.
//!
//! The state is an `Option<FfmpegState>`: `None` until the check has run.
//! Where each tool lies is found by the caller and handed to `check_ffmpeg`.

use crate::config::Platform;
use vstd::prelude::*;

verus! {

/// The availability of the two FFmpeg tools.
#[derive(Debug, Clone, PartialEq)]
pub enum FfmpegStatus {
    /// Both ffmpeg and ffprobe were found.
    Ready,
    /// ffmpeg was found but ffprobe was not.
    MissingFfprobe { ffmpeg_path: String },
    /// ffprobe was found but ffmpeg was not.
    MissingFfmpeg { ffprobe_path: String },
    /// Neither tool was found.
    Missing,
}

/// The outcome of the availability check.
#[derive(Debug, Clone)]
pub struct FfmpegState {
    pub status: FfmpegStatus,
    pub ffmpeg_path: Option<String>,
    pub ffprobe_path: Option<String>,
}

/// The state recorded for the tools found (each by its path, if found).
pub open spec fn checked_state(ffmpeg: Option<String>, ffprobe: Option<String>) -> FfmpegState {
    let status = match (ffmpeg, ffprobe) {
        (Some(_), Some(_)) => FfmpegStatus::Ready,
        (Some(f), None) => FfmpegStatus::MissingFfprobe { ffmpeg_path: f },
        (None, Some(p)) => FfmpegStatus::MissingFfmpeg { ffprobe_path: p },
        (None, None) => FfmpegStatus::Missing,
    };
    FfmpegState { status, ffmpeg_path: ffmpeg, ffprobe_path: ffprobe }
}

/// Whether the check has run and found both tools.
pub open spec fn ready(state: Option<FfmpegState>) -> bool {
    match state {
        Some(s) => s.status is Ready,
        None => false,
    }
}

/// Records which tools were found.
pub fn check_ffmpeg(ffmpeg: Option<String>, ffprobe: Option<String>) -> (r: FfmpegState)
    ensures
        r == checked_state(ffmpeg, ffprobe),
{
    let status = match (&ffmpeg, &ffprobe) {
        (Some(_), Some(_)) => FfmpegStatus::Ready,
        (Some(f), None) => FfmpegStatus::MissingFfprobe { ffmpeg_path: f.clone() },
        (None, Some(p)) => FfmpegStatus::MissingFfmpeg { ffprobe_path: p.clone() },
        (None, None) => FfmpegStatus::Missing,
    };
    FfmpegState { status, ffmpeg_path: ffmpeg, ffprobe_path: ffprobe }
}

/// The status found by the check; none before it has run.
pub fn ffmpeg_status(state: &Option<FfmpegState>) -> (r: Option<&FfmpegStatus>)
    ensures
        match *state {
            Some(s) => r == Some(&s.status),
            None => r is None,
        },
{
    match state {
        Some(s) => Some(&s.status),
        None => None,
    }
}

/// Returns `true` if both ffmpeg and ffprobe were found.
pub fn ffmpeg_ready(state: &Option<FfmpegState>) -> (r: bool)
    ensures
        r == ready(*state),
{
    match state {
        Some(s) => match &s.status {
            FfmpegStatus::Ready => true,
            _ => false,
        },
        None => false,
    }
}

/// The path of the ffmpeg binary, if it was found.
pub fn ffmpeg_path(state: &Option<FfmpegState>) -> (r: Option<&str>)
    ensures
        match *state {
            Some(s) => match s.ffmpeg_path {
                Some(p) => r is Some && r->0@ == p@,
                None => r is None,
            },
            None => r is None,
        },
{
    match state {
        Some(s) => match &s.ffmpeg_path {
            Some(p) => Some(p.as_str()),
            None => None,
        },
        None => None,
    }
}

/// The path of the ffprobe binary, if it was found.
pub fn ffprobe_path(state: &Option<FfmpegState>) -> (r: Option<&str>)
    ensures
        match *state {
            Some(s) => match s.ffprobe_path {
                Some(p) => r is Some && r->0@ == p@,
                None => r is None,
            },
            None => r is None,
        },
{
    match state {
        Some(s) => match &s.ffprobe_path {
            Some(p) => Some(p.as_str()),
            None => None,
        },
        None => None,
    }
}

/// The install instructions shown for each platform.
pub open spec fn instructions_for(p: Platform) -> Seq<char> {
    match p {
        Platform::Linux => "sudo apt install ffmpeg   (Debian/Ubuntu)\nsudo dnf install ffmpeg   (Fedora/RHEL)\nOr download from https://ffmpeg.org/download.html"@,
        Platform::MacOs => "brew install ffmpeg\nOr download from https://ffmpeg.org/download.html"@,
        Platform::Windows => "Download from https://github.com/BtbN/FFmpeg-Builds/releases\nExtract and add the bin/ folder to your PATH."@,
        Platform::Other => "https://ffmpeg.org/download.html"@,
    }
}

/// Human-readable install instructions for a platform.
pub fn install_instructions(platform: Platform) -> (r: &'static str)
    ensures
        r@ == instructions_for(platform),
{
    match platform {
        Platform::Linux => "sudo apt install ffmpeg   (Debian/Ubuntu)\nsudo dnf install ffmpeg   (Fedora/RHEL)\nOr download from https://ffmpeg.org/download.html",
        Platform::MacOs => "brew install ffmpeg\nOr download from https://ffmpeg.org/download.html",
        Platform::Windows => "Download from https://github.com/BtbN/FFmpeg-Builds/releases\nExtract and add the bin/ folder to your PATH.",
        Platform::Other => "https://ffmpeg.org/download.html",
    }
}

/// The check reports FFmpeg ready exactly when both tools were found, and
/// it keeps the path of each tool it found.
pub proof fn lemma_ready_iff_both_found(ffmpeg: Option<String>, ffprobe: Option<String>)
    ensures
        ready(Some(checked_state(ffmpeg, ffprobe))) <==> (ffmpeg is Some && ffprobe is Some),
        checked_state(ffmpeg, ffprobe).ffmpeg_path == ffmpeg,
        checked_state(ffmpeg, ffprobe).ffprobe_path == ffprobe,
{
}

} // verus!
