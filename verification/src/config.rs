//! Settings enumerations: how folders constrain comparisons, and which
//! hardware decoder FFmpeg is asked to use.

use vstd::prelude::*;

use crate::text::{chars_of, eq_str};

verus! {

/// Folder-match constraint for pairwise comparisons.
#[derive(Debug, Clone, Copy, PartialEq, Eq, Structural)]
pub enum FolderMatchMode {
    /// Compare all files regardless of folder.
    Unconstrained,
    /// Only compare files in the same folder.
    SameFolderOnly,
    /// Only compare files in different folders.
    DifferentFolderOnly,
}

impl Default for FolderMatchMode {
    fn default() -> (r: Self)
        ensures
            r == FolderMatchMode::Unconstrained,
    {
        FolderMatchMode::Unconstrained
    }
}

/// The value of the settings form's folder-match option for a mode.
pub open spec fn folder_choice_text(mode: FolderMatchMode) -> Seq<char> {
    match mode {
        FolderMatchMode::Unconstrained => "none"@,
        FolderMatchMode::SameFolderOnly => "same"@,
        FolderMatchMode::DifferentFolderOnly => "different"@,
    }
}

/// The mode an option value of the settings form selects: `"same"`,
/// `"different"`, and anything else for all folders.
pub open spec fn folder_mode_of_choice(value: Seq<char>) -> FolderMatchMode {
    if value == "same"@ {
        FolderMatchMode::SameFolderOnly
    } else if value == "different"@ {
        FolderMatchMode::DifferentFolderOnly
    } else {
        FolderMatchMode::Unconstrained
    }
}

impl FolderMatchMode {
    /// The mode selected by an option value of the settings form.
    pub fn from_choice(value: &str) -> (r: Self)
        ensures
            r == folder_mode_of_choice(value@),
    {
        let cs = chars_of(value);
        if eq_str(&cs, "same") {
            FolderMatchMode::SameFolderOnly
        } else if eq_str(&cs, "different") {
            FolderMatchMode::DifferentFolderOnly
        } else {
            FolderMatchMode::Unconstrained
        }
    }

    /// The option value of the settings form that shows this mode.
    pub fn choice(self) -> (r: &'static str)
        ensures
            r@ == folder_choice_text(self),
    {
        match self {
            FolderMatchMode::Unconstrained => "none",
            FolderMatchMode::SameFolderOnly => "same",
            FolderMatchMode::DifferentFolderOnly => "different",
        }
    }
}

/// Choosing the option value that shows a mode selects that mode again.
pub proof fn lemma_folder_choice_round_trip(mode: FolderMatchMode)
    ensures
        folder_mode_of_choice(folder_choice_text(mode)) == mode,
{
    reveal_strlit("none");
    reveal_strlit("same");
    reveal_strlit("different");
    assert("none"@[0] != "same"@[0]);
    assert("none"@.len() != "different"@.len());
    assert("different"@.len() != "same"@.len());
}

/// The hardware decoder to ask FFmpeg for.
#[derive(Debug, Clone, Copy, PartialEq, Eq, Structural)]
pub enum HardwareAccel {
    /// Software decoding.
    Off,
    Auto,
    Vdpau,
    Dxva2,
    Vaapi,
    Qsv,
    Cuda,
    VideoToolbox,
    D3d11va,
    Drm,
    OpenCl,
    MediaCodec,
    Vulkan,
}

impl Default for HardwareAccel {
    fn default() -> (r: Self)
        ensures
            r == HardwareAccel::Off,
    {
        HardwareAccel::Off
    }
}

/// The value of FFmpeg's `-hwaccel` flag for a mode; none for software
/// decoding.
pub open spec fn hw_accel_flag(accel: HardwareAccel) -> Option<Seq<char>> {
    match accel {
        HardwareAccel::Off => None,
        HardwareAccel::Auto => Some("auto"@),
        HardwareAccel::Vdpau => Some("vdpau"@),
        HardwareAccel::Dxva2 => Some("dxva2"@),
        HardwareAccel::Vaapi => Some("vaapi"@),
        HardwareAccel::Qsv => Some("qsv"@),
        HardwareAccel::Cuda => Some("cuda"@),
        HardwareAccel::VideoToolbox => Some("videotoolbox"@),
        HardwareAccel::D3d11va => Some("d3d11va"@),
        HardwareAccel::Drm => Some("drm"@),
        HardwareAccel::OpenCl => Some("opencl"@),
        HardwareAccel::MediaCodec => Some("mediacodec"@),
        HardwareAccel::Vulkan => Some("vulkan"@),
    }
}

/// The string that FFmpeg's `-hwaccel` flag accepts for this mode.
pub fn hw_accel_flag_str(accel: HardwareAccel) -> (r: Option<&'static str>)
    ensures
        match r {
            Some(s) => hw_accel_flag(accel) == Some(s@),
            None => hw_accel_flag(accel) is None,
        },
{
    match accel {
        HardwareAccel::Off => None,
        HardwareAccel::Auto => Some("auto"),
        HardwareAccel::Vdpau => Some("vdpau"),
        HardwareAccel::Dxva2 => Some("dxva2"),
        HardwareAccel::Vaapi => Some("vaapi"),
        HardwareAccel::Qsv => Some("qsv"),
        HardwareAccel::Cuda => Some("cuda"),
        HardwareAccel::VideoToolbox => Some("videotoolbox"),
        HardwareAccel::D3d11va => Some("d3d11va"),
        HardwareAccel::Drm => Some("drm"),
        HardwareAccel::OpenCl => Some("opencl"),
        HardwareAccel::MediaCodec => Some("mediacodec"),
        HardwareAccel::Vulkan => Some("vulkan"),
    }
}

/// The operating system the program runs on.
#[derive(Debug, Clone, Copy, PartialEq, Eq, Structural)]
pub enum Platform {
    Linux,
    MacOs,
    Windows,
    Other,
}

} // verus!
