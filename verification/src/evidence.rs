//! The evidence text of a duplicate pair in the results and compare views:
//! method names, clock-style durations and the one-line explanation.

use vstd::prelude::*;

use crate::db::MatchMethod;
use crate::text::{chars_of, decimal, push_all, push_char, push_zero_padded, zero_padded};

verus! {

// ─── Durations ───────────────────────────────────────────────────────────────

/// A duration in whole seconds on a clock: `h:mm:ss` from one hour on,
/// `m:ss` below.
pub open spec fn clock_text(t: nat) -> Seq<char> {
    let h = t / 3600;
    let m = (t % 3600) / 60;
    let s = t % 60;
    if h > 0 {
        decimal(h) + seq![':'] + zero_padded(m, 2) + seq![':'] + zero_padded(s, 2)
    } else {
        decimal(m) + seq![':'] + zero_padded(s, 2)
    }
}

/// Formats a duration in whole seconds on a clock (see [`clock_text`]).
pub fn clock(total_secs: u64) -> (r: String)
    ensures
        r@ == clock_text(total_secs as nat),
{
    let h = total_secs / 3600;
    let m = (total_secs % 3600) / 60;
    let s = total_secs % 60;
    let mut out = String::new();
    if h > 0 {
        push_all(&mut out, &crate::text::decimal_chars(h as u128));
        push_char(&mut out, ':');
        push_zero_padded(&mut out, m as u128, 2);
        push_char(&mut out, ':');
        push_zero_padded(&mut out, s as u128, 2);
    } else {
        push_all(&mut out, &crate::text::decimal_chars(m as u128));
        push_char(&mut out, ':');
        push_zero_padded(&mut out, s as u128, 2);
    }
    proof {
        assert(out@ =~= clock_text(total_secs as nat));
    }
    out
}

// ─── Method names ────────────────────────────────────────────────────────────

/// How the compare view names the method that matched a pair.
#[derive(Debug, Clone, Copy, PartialEq, Eq, Structural)]
pub enum MatchMethodDisplay {
    FrameSimilarity,
    IframeTimeline,
    AudioFingerprint,
    Mpeg7Signature,
    SsimVerified,
    TemporalAverageHash,
}

impl Default for MatchMethodDisplay {
    fn default() -> (r: Self)
        ensures
            r == MatchMethodDisplay::FrameSimilarity,
    {
        MatchMethodDisplay::FrameSimilarity
    }
}

pub open spec fn display_of(m: MatchMethod) -> MatchMethodDisplay {
    match m {
        MatchMethod::FrameSimilarity => MatchMethodDisplay::FrameSimilarity,
        MatchMethod::IframeTimeline => MatchMethodDisplay::IframeTimeline,
        MatchMethod::AudioFingerprint => MatchMethodDisplay::AudioFingerprint,
        MatchMethod::Mpeg7Signature => MatchMethodDisplay::Mpeg7Signature,
        MatchMethod::SsimVerified => MatchMethodDisplay::SsimVerified,
        MatchMethod::TemporalAverageHash => MatchMethodDisplay::TemporalAverageHash,
    }
}

impl From<MatchMethod> for MatchMethodDisplay {
    fn from(m: MatchMethod) -> (r: Self) {
        match m {
            MatchMethod::FrameSimilarity => MatchMethodDisplay::FrameSimilarity,
            MatchMethod::IframeTimeline => MatchMethodDisplay::IframeTimeline,
            MatchMethod::AudioFingerprint => MatchMethodDisplay::AudioFingerprint,
            MatchMethod::Mpeg7Signature => MatchMethodDisplay::Mpeg7Signature,
            MatchMethod::SsimVerified => MatchMethodDisplay::SsimVerified,
            MatchMethod::TemporalAverageHash => MatchMethodDisplay::TemporalAverageHash,
        }
    }
}

impl vstd::std_specs::convert::FromSpecImpl<MatchMethod> for MatchMethodDisplay {
    open spec fn obeys_from_spec() -> bool {
        true
    }

    open spec fn from_spec(m: MatchMethod) -> Self {
        display_of(m)
    }
}

/// The compare view's name of a method.
pub open spec fn display_label(d: MatchMethodDisplay) -> Seq<char> {
    match d {
        MatchMethodDisplay::FrameSimilarity => "Frame pHash"@,
        MatchMethodDisplay::IframeTimeline => "I-frame timeline"@,
        MatchMethodDisplay::AudioFingerprint => "Chromaprint audio"@,
        MatchMethodDisplay::Mpeg7Signature => "MPEG-7 signature"@,
        MatchMethodDisplay::SsimVerified => "SSIM verified"@,
        MatchMethodDisplay::TemporalAverageHash => "Temporal average hash"@,
    }
}

impl MatchMethodDisplay {
    /// The compare view's name of the method.
    pub fn label(self) -> (r: &'static str)
        ensures
            r@ == display_label(self),
    {
        match self {
            MatchMethodDisplay::FrameSimilarity => "Frame pHash",
            MatchMethodDisplay::IframeTimeline => "I-frame timeline",
            MatchMethodDisplay::AudioFingerprint => "Chromaprint audio",
            MatchMethodDisplay::Mpeg7Signature => "MPEG-7 signature",
            MatchMethodDisplay::SsimVerified => "SSIM verified",
            MatchMethodDisplay::TemporalAverageHash => "Temporal average hash",
        }
    }
}

/// The results view's name of a method.
pub open spec fn explained_name(m: MatchMethod) -> Seq<char> {
    match m {
        MatchMethod::FrameSimilarity => "Frame similarity"@,
        MatchMethod::IframeTimeline => "I-frame timeline"@,
        MatchMethod::AudioFingerprint => "Audio fingerprint"@,
        MatchMethod::Mpeg7Signature => "MPEG-7 signature"@,
        MatchMethod::SsimVerified => "SSIM verified"@,
        MatchMethod::TemporalAverageHash => "Temporal avg hash"@,
    }
}

fn explained_name_str(m: MatchMethod) -> (r: &'static str)
    ensures
        r@ == explained_name(m),
{
    match m {
        MatchMethod::FrameSimilarity => "Frame similarity",
        MatchMethod::IframeTimeline => "I-frame timeline",
        MatchMethod::AudioFingerprint => "Audio fingerprint",
        MatchMethod::Mpeg7Signature => "MPEG-7 signature",
        MatchMethod::SsimVerified => "SSIM verified",
        MatchMethod::TemporalAverageHash => "Temporal avg hash",
    }
}

// ─── Explanation ─────────────────────────────────────────────────────────────

/// The separator between the parts of an explanation: a middle dot with a
/// space on each side.
pub open spec fn separator() -> Seq<char> {
    seq![' ', '\u{b7}', ' ']
}

/// One more part of an explanation, when there is one.
pub open spec fn optional_part(part: Option<Seq<char>>) -> Seq<char> {
    match part {
        Some(p) => separator() + p,
        None => Seq::empty(),
    }
}

/// What an explanation says of a pair, in order: the method; the rounded
/// similarity in percent; where the clip starts (whole seconds); the audio
/// offset (seconds as already written with one decimal); the number of
/// consecutive matching frames, when some; and whether one file is the
/// mirror image of the other.
pub open spec fn explanation_text(
    m: MatchMethod,
    similarity_pct: nat,
    clip_offset_secs: Option<nat>,
    audio_offset: Option<Seq<char>>,
    consecutive_frames: Option<nat>,
    mirrored: bool,
) -> Seq<char> {
    explained_name(m) + separator() + decimal(similarity_pct) + "% match"@ + optional_part(
        match clip_offset_secs {
            Some(c) => Some("clip at "@ + clock_text(c)),
            None => None,
        },
    ) + optional_part(
        match audio_offset {
            Some(a) => Some("audio offset "@ + a + seq!['s']),
            None => None,
        },
    ) + optional_part(
        match consecutive_frames {
            Some(f) => if f > 0 {
                Some(decimal(f) + " consecutive frames"@)
            } else {
                None
            },
            None => None,
        },
    ) + optional_part(
        if mirrored {
            Some("horizontally mirrored"@)
        } else {
            None
        },
    )
}

fn push_lit(s: &mut String, lit: &str)
    ensures
        final(s)@ == old(s)@ + lit@,
{
    push_all(s, &chars_of(lit));
}

fn push_separator(s: &mut String)
    ensures
        final(s)@ == old(s)@ + separator(),
{
    push_char(s, ' ');
    push_char(s, '\u{b7}');
    push_char(s, ' ');
    proof {
        assert(final(s)@ =~= old(s)@ + separator());
    }
}

/// The one-line explanation of a duplicate pair (see
/// [`explanation_text`]).
pub fn explanation(
    m: MatchMethod,
    similarity_pct: u32,
    clip_offset_secs: Option<u64>,
    audio_offset: Option<&str>,
    consecutive_frames: Option<u32>,
    mirrored: bool,
) -> (r: String)
    ensures
        r@ == explanation_text(
            m,
            similarity_pct as nat,
            match clip_offset_secs {
                Some(c) => Some(c as nat),
                None => None,
            },
            match audio_offset {
                Some(a) => Some(a@),
                None => None,
            },
            match consecutive_frames {
                Some(f) => Some(f as nat),
                None => None,
            },
            mirrored,
        ),
{
    let mut out = String::new();
    push_lit(&mut out, explained_name_str(m));
    push_separator(&mut out);
    push_all(&mut out, &crate::text::decimal_chars(similarity_pct as u128));
    push_lit(&mut out, "% match");
    let ghost base = out@;
    let ghost clip_part: Option<Seq<char>> = match clip_offset_secs {
        Some(c) => Some("clip at "@ + clock_text(c as nat)),
        None => None,
    };
    if let Some(c) = clip_offset_secs {
        push_separator(&mut out);
        push_lit(&mut out, "clip at ");
        let t = clock(c);
        push_lit(&mut out, t.as_str());
    }
    proof {
        assert(out@ =~= base + optional_part(clip_part));
    }
    let ghost base2 = out@;
    let ghost audio_part: Option<Seq<char>> = match audio_offset {
        Some(a) => Some("audio offset "@ + a@ + seq!['s']),
        None => None,
    };
    if let Some(a) = audio_offset {
        push_separator(&mut out);
        push_lit(&mut out, "audio offset ");
        push_lit(&mut out, a);
        push_char(&mut out, 's');
    }
    proof {
        assert(out@ =~= base2 + optional_part(audio_part));
    }
    let ghost base3 = out@;
    let ghost frames_part: Option<Seq<char>> = match consecutive_frames {
        Some(f) => if f > 0 {
            Some(decimal(f as nat) + " consecutive frames"@)
        } else {
            None
        },
        None => None,
    };
    if let Some(f) = consecutive_frames {
        if f > 0 {
            push_separator(&mut out);
            push_all(&mut out, &crate::text::decimal_chars(f as u128));
            push_lit(&mut out, " consecutive frames");
        }
    }
    proof {
        assert(out@ =~= base3 + optional_part(frames_part));
    }
    let ghost base4 = out@;
    let ghost mirror_part: Option<Seq<char>> = if mirrored {
        Some("horizontally mirrored"@)
    } else {
        None
    };
    if mirrored {
        push_separator(&mut out);
        push_lit(&mut out, "horizontally mirrored");
    }
    proof {
        assert(out@ =~= base4 + optional_part(mirror_part));
    }
    out
}

} // verus!
