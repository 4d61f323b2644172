//! Serving media files over HTTP: the `Range` request header, what part of
//! the file to send, and the content type by extension.

use crate::auth::{first_index, lemma_first_index};
use crate::db::{lowercase, to_lowercase};
use crate::text::{chars_of, eq_str};
use vstd::prelude::*;

verus! {

// ─── Unsigned integers ───────────────────────────────────────────────────────

pub open spec fn is_digit(c: char) -> bool {
    '0' <= c <= '9'
}

/// The value of a string of decimal digits.
pub open spec fn digits_value(s: Seq<char>) -> nat
    decreases s.len(),
{
    if s.len() == 0 {
        0
    } else {
        digits_value(s.drop_last()) * 10 + (s.last() as nat - '0' as nat) as nat
    }
}

/// What std `u64::from_str` accepts: an optional `+`, then one or more
/// decimal digits, of a value that fits in 64 bits.
pub open spec fn parse_u64_spec(s: Seq<char>) -> Option<u64> {
    let d = unsigned_part(s);
    if d.len() > 0 && all_digits(d) && digits_value(d) <= u64::MAX {
        Some(digits_value(d) as u64)
    } else {
        None
    }
}

/// `s` without a leading `+`.
pub open spec fn unsigned_part(s: Seq<char>) -> Seq<char> {
    if s.len() > 0 && s[0] == '+' {
        s.drop_first()
    } else {
        s
    }
}

pub open spec fn all_digits(d: Seq<char>) -> bool {
    forall|i: int| 0 <= i < d.len() ==> is_digit(#[trigger] d[i])
}

proof fn lemma_digits_value_grows(s: Seq<char>, k: int)
    requires
        0 <= k <= s.len(),
        forall|i: int| 0 <= i < s.len() ==> is_digit(#[trigger] s[i]),
    ensures
        digits_value(s.take(k)) <= digits_value(s),
    decreases s.len() - k,
{
    if k < s.len() {
        lemma_digits_value_grows(s, k + 1);
        assert(s.take(k + 1).drop_last() =~= s.take(k));
    } else {
        assert(s.take(k) =~= s);
    }
}

/// Parses the characters `cs[from..]` as std `u64::from_str` does.
fn parse_u64_from(cs: &Vec<char>, from: usize) -> (r: Option<u64>)
    requires
        from <= cs@.len(),
    ensures
        r == parse_u64_spec(cs@.skip(from as int)),
{
    let ghost s = cs@.skip(from as int);
    let mut i: usize = from;
    if i < cs.len() && cs[i] == '+' {
        i = i + 1;
    }
    let ghost d = cs@.skip(i as int);
    proof {
        if s.len() > 0 && s[0] == '+' {
            assert(d =~= s.drop_first());
        } else {
            assert(d =~= s);
        }
        assert(d == unsigned_part(s));
    }
    if i == cs.len() {
        return None;
    }
    let start = i;
    let mut value: u64 = 0;
    while i < cs.len()
        invariant
            start <= i <= cs@.len(),
            d == cs@.skip(start as int),
            s == cs@.skip(from as int),
            d == unsigned_part(s),
            value as nat == digits_value(d.take(i - start)),
            forall|k: int| 0 <= k < i - start ==> is_digit(#[trigger] d[k]),
        decreases cs@.len() - i,
    {
        let c = cs[i];
        proof {
            assert(d[i - start] == c);
            assert(d.take(i - start + 1).drop_last() =~= d.take(i - start));
        }
        if !('0' <= c && c <= '9') {
            proof {
                assert(!is_digit(d[i - start]));
                assert(!all_digits(d));
            }
            return None;
        }
        let digit: u64 = (c as u32 - '0' as u32) as u64;
        let times_ten = value.checked_mul(10);
        match times_ten {
            None => {
                proof {
                    assert forall|k: int| 0 <= k < i - start + 1 implies is_digit(#[trigger] d[k]) by {}
                    if all_digits(d) {
                        lemma_digits_value_grows(d, i - start + 1);
                    }
                }
                return None;
            },
            Some(t) => {
                match t.checked_add(digit) {
                    None => {
                        proof {
                            if all_digits(d) {
                                lemma_digits_value_grows(d, i - start + 1);
                            }
                        }
                        return None;
                    },
                    Some(v) => {
                        value = v;
                    },
                }
            },
        }
        i = i + 1;
    }
    proof {
        assert(d.take(i - start) =~= d);
    }
    Some(value)
}

// ─── Range header ────────────────────────────────────────────────────────────

/// The characters `bytes=`.
pub open spec fn bytes_prefix() -> Seq<char> {
    seq!['b', 'y', 't', 'e', 's', '=']
}

/// The byte range asked for by a `Range` header: `bytes=START-END`, or
/// `bytes=START-` for the rest of the file (its last byte being
/// `file_size - 1`, or 0 for an empty file). Anything else gives `None`.
pub open spec fn range_spec(header: Seq<char>, file_size: u64) -> Option<(u64, u64)> {
    if header.len() < 6 || header.take(6) != bytes_prefix() {
        None
    } else {
        let s = header.skip(6);
        let k = first_index(s, '-');
        if k < 0 {
            None
        } else {
            match parse_u64_spec(s.take(k)) {
                None => None,
                Some(start) => {
                    let e = s.skip(k + 1);
                    if e.len() == 0 {
                        Some((start, if file_size > 0 { (file_size - 1) as u64 } else { 0 }))
                    } else {
                        match parse_u64_spec(e) {
                            None => None,
                            Some(end) => Some((start, end)),
                        }
                    }
                },
            }
        }
    }
}

/// Parses a `Range` request header (see [`range_spec`]).
pub fn parse_range(header: &str, file_size: u64) -> (r: Option<(u64, u64)>)
    ensures
        r == range_spec(header@, file_size),
{
    let cs = chars_of(header);
    if cs.len() < 6 || cs[0] != 'b' || cs[1] != 'y' || cs[2] != 't' || cs[3] != 'e' || cs[4] != 's'
        || cs[5] != '=' {
        proof {
            if cs@.len() >= 6 {
                assert(cs@.take(6)[0] == cs@[0]);
                assert(cs@.take(6)[1] == cs@[1]);
                assert(cs@.take(6)[2] == cs@[2]);
                assert(cs@.take(6)[3] == cs@[3]);
                assert(cs@.take(6)[4] == cs@[4]);
                assert(cs@.take(6)[5] == cs@[5]);
            }
        }
        return None;
    }
    proof {
        assert(cs@.take(6) =~= bytes_prefix());
    }
    let ghost s = cs@.skip(6);
    let mut dash: usize = 6;
    while dash < cs.len() && cs[dash] != '-'
        invariant
            6 <= dash <= cs@.len(),
            s == cs@.skip(6),
            forall|k: int| 0 <= k < dash - 6 ==> s[k] != '-',
        decreases cs@.len() - dash,
    {
        dash = dash + 1;
    }
    if dash == cs.len() {
        proof {
            lemma_first_index(s, '-', s.len() as int);
        }
        return None;
    }
    proof {
        lemma_first_index(s, '-', dash - 6);
    }
    let mut head: Vec<char> = Vec::new();
    let mut k: usize = 6;
    while k < dash
        invariant
            6 <= k <= dash < cs@.len(),
            head@ == cs@.subrange(6, k as int),
        decreases dash - k,
    {
        head.push(cs[k]);
        proof {
            assert(cs@.subrange(6, k + 1) =~= cs@.subrange(6, k as int).push(cs@[k as int]));
        }
        k = k + 1;
    }
    proof {
        assert(head@.skip(0) =~= s.take(dash - 6));
    }
    let start = match parse_u64_from(&head, 0) {
        None => {
            return None;
        },
        Some(v) => v,
    };
    proof {
        assert(cs@.skip(dash + 1) =~= s.skip(dash - 6 + 1));
    }
    if dash + 1 == cs.len() {
        let last = if file_size > 0 {
            file_size - 1
        } else {
            0
        };
        return Some((start, last));
    }
    match parse_u64_from(&cs, dash + 1) {
        None => None,
        Some(end) => Some((start, end)),
    }
}

// ─── What to send ────────────────────────────────────────────────────────────

/// How to answer a request for a media file.
#[derive(Clone, Copy, Debug, PartialEq, Eq, Structural)]
pub enum StreamPlan {
    /// No usable range: send the whole file.
    Whole,
    /// Send bytes `start..=end`, `len` of them.
    Part { start: u64, end: u64, len: u64 },
    /// The range lies outside the file.
    NotSatisfiable,
}

/// The answer for a byte range (or none) on a file of `file_size` bytes:
/// the end is clamped to the file's last byte, and a range that starts past
/// its end (or past the clamped end) cannot be satisfied.
pub open spec fn plan_spec(range: Option<(u64, u64)>, file_size: u64) -> StreamPlan {
    match range {
        None => StreamPlan::Whole,
        Some((start, end)) => {
            let last: int = if file_size > 0 { file_size - 1 } else { 0 };
            let e: int = if end < last { end as int } else { last };
            if start > e || start >= file_size {
                StreamPlan::NotSatisfiable
            } else {
                StreamPlan::Part { start, end: e as u64, len: (e - start + 1) as u64 }
            }
        },
    }
}

/// Decides how to answer a media request from its `Range` header (when it
/// has one that is valid text) and the file's size.
pub fn stream_plan(range_header: Option<&str>, file_size: u64) -> (p: StreamPlan)
    ensures
        p == plan_spec(
            match range_header {
                Some(h) => range_spec(h@, file_size),
                None => None,
            },
            file_size,
        ),
{
    let range = match range_header {
        Some(h) => parse_range(h, file_size),
        None => None,
    };
    match range {
        None => StreamPlan::Whole,
        Some((start, end)) => {
            let last = if file_size > 0 {
                file_size - 1
            } else {
                0
            };
            let e = if end < last {
                end
            } else {
                last
            };
            if start > e || start >= file_size {
                StreamPlan::NotSatisfiable
            } else {
                StreamPlan::Part { start, end: e, len: e - start + 1 }
            }
        },
    }
}

// ─── Content type ────────────────────────────────────────────────────────────

/// The content type of a lowercase file extension.
pub open spec fn mime_of(ext: Seq<char>) -> Seq<char> {
    if ext == "mp4"@ || ext == "m4v"@ {
        "video/mp4"@
    } else if ext == "webm"@ {
        "video/webm"@
    } else if ext == "mkv"@ {
        "video/x-matroska"@
    } else if ext == "avi"@ {
        "video/x-msvideo"@
    } else if ext == "mov"@ {
        "video/quicktime"@
    } else if ext == "wmv"@ {
        "video/x-ms-wmv"@
    } else if ext == "flv"@ {
        "video/x-flv"@
    } else if ext == "ts"@ {
        "video/mp2t"@
    } else if ext == "ogv"@ {
        "video/ogg"@
    } else if ext == "3gp"@ {
        "video/3gpp"@
    } else {
        "application/octet-stream"@
    }
}

/// The content type to send for a file with the given extension (compared
/// case-insensitively); files without one are sent as octet streams.
pub fn mime_for_ext(ext: Option<&str>) -> (r: &'static str)
    ensures
        r@ == match ext {
            Some(e) => mime_of(lowercase(e@)),
            None => "application/octet-stream"@,
        },
{
    let e = match ext {
        None => {
            return "application/octet-stream";
        },
        Some(e) => e,
    };
    let lower = to_lowercase(e);
    let cs = chars_of(lower.as_str());
    if eq_str(&cs, "mp4") || eq_str(&cs, "m4v") {
        "video/mp4"
    } else if eq_str(&cs, "webm") {
        "video/webm"
    } else if eq_str(&cs, "mkv") {
        "video/x-matroska"
    } else if eq_str(&cs, "avi") {
        "video/x-msvideo"
    } else if eq_str(&cs, "mov") {
        "video/quicktime"
    } else if eq_str(&cs, "wmv") {
        "video/x-ms-wmv"
    } else if eq_str(&cs, "flv") {
        "video/x-flv"
    } else if eq_str(&cs, "ts") {
        "video/mp2t"
    } else if eq_str(&cs, "ogv") {
        "video/ogg"
    } else if eq_str(&cs, "3gp") {
        "video/3gpp"
    } else {
        "application/octet-stream"
    }
}

/// A part that is sent lies within the file, and its length counts its
/// bytes.
pub proof fn lemma_part_within_file(range: Option<(u64, u64)>, file_size: u64)
    ensures
        match plan_spec(range, file_size) {
            StreamPlan::Part { start, end, len } => start <= end < file_size && len == end - start
                + 1,
            _ => true,
        },
{
}

} // verus!
