//! Formatting helpers: byte sizes, durations, calendar dates, hex identifiers
//! and the names given to files moved into the trash.

use crate::rounding::{rne_div, round_sig_exec, round_sig_nat};
use crate::text::{
    decimal, decimal_chars, digit_char, digit_exec, hex_fixed, push_all, push_char,
    push_hex_fixed, push_zero_padded, zero_padded,
};
use vstd::prelude::*;

verus! {

// ─── Byte sizes ──────────────────────────────────────────────────────────────

/// 2^53: one more than the largest binary64 significand.
pub open spec fn f64_sig_limit() -> nat {
    0x20_0000_0000_0000
}

/// The exact value of a byte count converted to `f64` (round to nearest,
/// ties to even).
pub open spec fn as_f64(bytes: nat) -> nat {
    round_sig_nat(bytes, f64_sig_limit())
}

pub open spec fn pow1024(p: nat) -> nat
    decreases p,
{
    if p == 0 {
        1
    } else {
        1024 * pow1024((p - 1) as nat)
    }
}

/// The unit a value is shown in: divide by 1024 while the value is at least
/// 1024, at most six times.
pub open spec fn size_place(v: nat, p: nat) -> nat
    decreases 6 - p,
{
    if p >= 6 || v < pow1024(p + 1) {
        p
    } else {
        size_place(v, p + 1)
    }
}

/// The unit suffix of place `p` (B, KB, MB, GB, TB, PB, EB).
pub open spec fn size_suffix(p: nat) -> Seq<char> {
    if p == 0 {
        seq![' ', 'B']
    } else {
        let c = if p == 1 {
            'K'
        } else if p == 2 {
            'M'
        } else if p == 3 {
            'G'
        } else if p == 4 {
            'T'
        } else if p == 5 {
            'P'
        } else {
            'E'
        };
        seq![' ', c, 'B']
    }
}

/// A value given in tenths, printed with one decimal.
pub open spec fn one_decimal(tenths: nat) -> Seq<char> {
    decimal(tenths / 10).push('.').push(digit_char(tenths % 10))
}

/// The text of a byte count: the `f64` value divided down to its unit and
/// printed to one decimal (rounded to nearest, ties to even), then the unit.
pub open spec fn size_text(bytes: nat) -> Seq<char> {
    if bytes == 0 {
        seq!['0', ' ', 'B']
    } else {
        let v = as_f64(bytes);
        let p = size_place(v, 0);
        one_decimal(rne_div(10 * v, pow1024(p))) + size_suffix(p)
    }
}

proof fn lemma_pow1024_facts(p: nat)
    requires
        p <= 7,
    ensures
        pow1024(p) >= 1,
        p >= 1 ==> pow1024(p) == 1024 * pow1024((p - 1) as nat),
        pow1024(p) <= 0x40_0000_0000_0000_0000,
{
    reveal_with_fuel(pow1024, 8);
    assert(pow1024(7) == 0x40_0000_0000_0000_0000);
}

fn push_size_suffix(s: &mut String, p: usize)
    requires
        p <= 6,
    ensures
        final(s)@ == old(s)@ + size_suffix(p as nat),
{
    push_char(s, ' ');
    if p == 1 {
        push_char(s, 'K');
    } else if p == 2 {
        push_char(s, 'M');
    } else if p == 3 {
        push_char(s, 'G');
    } else if p == 4 {
        push_char(s, 'T');
    } else if p == 5 {
        push_char(s, 'P');
    } else if p == 6 {
        push_char(s, 'E');
    }
    push_char(s, 'B');
    proof {
        assert(final(s)@ =~= old(s)@ + size_suffix(p as nat));
    }
}

/// Formats a byte count as a human-readable size: "0 B", "1.0 KB",
/// "1.5 MB", ...
pub fn bytes_to_string(bytes: u64) -> (r: String)
    ensures
        r@ == size_text(bytes as nat),
{
    let mut s = String::new();
    if bytes == 0 {
        push_char(&mut s, '0');
        push_char(&mut s, ' ');
        push_char(&mut s, 'B');
        proof {
            assert(s@ =~= seq!['0', ' ', 'B']);
        }
        return s;
    }
    let v = round_sig_exec(bytes as u128, 0x20_0000_0000_0000);
    let mut place: usize = 0;
    let mut div: u128 = 1;
    proof {
        lemma_pow1024_facts(0);
        lemma_pow1024_facts(1);
    }
    while place < 6 && v >= div * 1024
        invariant
            place <= 6,
            div == pow1024(place as nat),
            div <= 0x40_0000_0000_0000_0000,
            size_place(v as nat, 0) == size_place(v as nat, place as nat),
            v as nat == as_f64(bytes as nat),
            v <= 2 * (bytes as int),
        decreases 6 - place,
    {
        proof {
            lemma_pow1024_facts((place + 1) as nat);
        }
        div = div * 1024;
        place = place + 1;
        proof {
            lemma_pow1024_facts((place + 1) as nat);
        }
    }
    proof {
        lemma_pow1024_facts(place as nat);
        assert(size_place(v as nat, place as nat) == place as nat);
    }
    let num = v * 10;
    let q = num / div;
    let rem = num % div;
    let tenths: u128 = if 2 * rem > div || (2 * rem == div && q % 2 == 1) {
        q + 1
    } else {
        q
    };
    proof {
        assert(tenths as nat == rne_div(10 * (v as nat), pow1024(place as nat)));
    }
    let whole = decimal_chars(tenths / 10);
    push_all(&mut s, &whole);
    push_char(&mut s, '.');
    push_char(&mut s, digit_exec((tenths % 10) as u64));
    push_size_suffix(&mut s, place);
    proof {
        assert(s@ =~= size_text(bytes as nat));
    }
    s
}

// ─── Durations ───────────────────────────────────────────────────────────────

/// The text of a duration of `t` whole seconds: its two leading units among
/// days, hours, minutes and seconds ("1d, 2h", "3h", "1m, 30s", "45s").
pub open spec fn duration_text(t: nat) -> Seq<char> {
    let d = t / 86400;
    let h = (t % 86400) / 3600;
    let m = (t % 3600) / 60;
    let s = t % 60;
    if d > 0 {
        if h > 0 {
            decimal(d) + seq!['d', ',', ' '] + decimal(h) + seq!['h']
        } else {
            decimal(d) + seq!['d']
        }
    } else if h > 0 {
        if m > 0 {
            decimal(h) + seq!['h', ',', ' '] + decimal(m) + seq!['m']
        } else {
            decimal(h) + seq!['h']
        }
    } else if m > 0 {
        decimal(m) + seq!['m', ',', ' '] + decimal(s) + seq!['s']
    } else {
        decimal(s) + seq!['s']
    }
}

fn push_unit(s: &mut String, n: u64, unit: char)
    ensures
        final(s)@ == old(s)@ + decimal(n as nat) + seq![unit],
{
    let d = decimal_chars(n as u128);
    push_all(s, &d);
    push_char(s, unit);
    proof {
        assert(final(s)@ =~= old(s)@ + decimal(n as nat) + seq![unit]);
    }
}

fn push_separator(s: &mut String)
    ensures
        final(s)@ == old(s)@ + seq![',', ' '],
{
    push_char(s, ',');
    push_char(s, ' ');
    proof {
        assert(final(s)@ =~= old(s)@ + seq![',', ' ']);
    }
}

/// Formats a duration given in whole seconds.
pub fn format_duration(total_secs: u64) -> (r: String)
    ensures
        r@ == duration_text(total_secs as nat),
{
    let t = total_secs;
    let d = t / 86400;
    let h = (t % 86400) / 3600;
    let m = (t % 3600) / 60;
    let sec = t % 60;
    let mut s = String::new();
    if d > 0 {
        push_unit(&mut s, d, 'd');
        if h > 0 {
            push_separator(&mut s);
            push_unit(&mut s, h, 'h');
        }
    } else if h > 0 {
        push_unit(&mut s, h, 'h');
        if m > 0 {
            push_separator(&mut s);
            push_unit(&mut s, m, 'm');
        }
    } else if m > 0 {
        push_unit(&mut s, m, 'm');
        push_separator(&mut s);
        push_unit(&mut s, sec, 's');
    } else {
        push_unit(&mut s, sec, 's');
    }
    proof {
        assert(s@ =~= duration_text(total_secs as nat));
    }
    s
}

// ─── Calendar ────────────────────────────────────────────────────────────────

pub open spec fn is_leap(y: nat) -> bool {
    (y % 4 == 0 && y % 100 != 0) || y % 400 == 0
}

pub open spec fn year_len(y: nat) -> nat {
    if is_leap(y) {
        366
    } else {
        365
    }
}

pub open spec fn month_len(y: nat, m: nat) -> nat {
    if m == 2 {
        if is_leap(y) {
            29
        } else {
            28
        }
    } else if m == 4 || m == 6 || m == 9 || m == 11 {
        30
    } else {
        31
    }
}

/// Walks whole years from `y` on: the year that day `days` (counted from the
/// start of year `y`) falls in, and the day within that year.
pub open spec fn year_walk(days: nat, y: nat) -> (nat, nat)
    decreases days,
{
    if days < year_len(y) {
        (y, days)
    } else {
        year_walk((days - year_len(y)) as nat, y + 1)
    }
}

/// Walks the months of year `y` from month `m` on: the month that day `days`
/// falls in, and the day within it.
pub open spec fn month_walk(y: nat, days: nat, m: nat) -> (nat, nat)
    decreases 13 - m,
{
    if m > 12 || days < month_len(y, m) {
        (m, days)
    } else {
        month_walk(y, (days - month_len(y, m)) as nat, m + 1)
    }
}

/// The Gregorian (year, month, day) of the day `days` after 1970-01-01.
pub open spec fn ymd(days: nat) -> (nat, nat, nat) {
    let (y, r) = year_walk(days, 1970);
    let (m, d) = month_walk(y, r, 1);
    (y, m, d + 1)
}

/// The days in months `m..=12` of year `y`.
pub open spec fn days_from_month(y: nat, m: nat) -> nat
    decreases 13 - m,
{
    if m > 12 {
        0
    } else {
        month_len(y, m) + days_from_month(y, m + 1)
    }
}

proof fn lemma_year_walk(days: nat, y: nat)
    ensures
        year_walk(days, y).0 >= y,
        year_walk(days, y).1 < year_len(year_walk(days, y).0),
    decreases days,
{
    if days >= year_len(y) {
        lemma_year_walk((days - year_len(y)) as nat, y + 1);
    }
}

proof fn lemma_month_walk(y: nat, days: nat, m: nat)
    requires
        1 <= m <= 12,
        days < days_from_month(y, m),
    ensures
        m <= month_walk(y, days, m).0 <= 12,
        month_walk(y, days, m).1 < month_len(y, month_walk(y, days, m).0),
    decreases 13 - m,
{
    if days >= month_len(y, m) {
        if m == 12 {
            assert(days_from_month(y, 13) == 0);
        } else {
            lemma_month_walk(y, (days - month_len(y, m)) as nat, m + 1);
        }
    }
}

proof fn lemma_year_is_months(y: nat)
    ensures
        days_from_month(y, 1) == year_len(y),
{
    reveal_with_fuel(days_from_month, 14);
}

/// Converts a count of days since 1970-01-01 to a Gregorian (year, month,
/// day).  The result is always a valid calendar date.
pub fn days_to_ymd(days: u64) -> (r: (u64, u64, u64))
    ensures
        (r.0 as nat, r.1 as nat, r.2 as nat) == ymd(days as nat),
        r.0 >= 1970,
        1 <= r.1 <= 12,
        1 <= r.2 <= month_len(r.0 as nat, r.1 as nat),
{
    let mut rest = days;
    let mut year: u64 = 1970;
    loop
        invariant
            year >= 1970,
            365 * (year - 1970) <= days - rest,
            rest <= days,
            year_walk(days as nat, 1970) == year_walk(rest as nat, year as nat),
        ensures
            year >= 1970,
            rest < year_len(year as nat),
            year_walk(days as nat, 1970) == year_walk(rest as nat, year as nat),
        decreases rest,
    {
        let leap = (year % 4 == 0 && year % 100 != 0) || year % 400 == 0;
        let dy: u64 = if leap {
            366
        } else {
            365
        };
        if rest < dy {
            break;
        }
        rest = rest - dy;
        year = year + 1;
    }
    proof {
        lemma_year_walk(days as nat, 1970);
        lemma_year_is_months(year as nat);
    }
    let leap = (year % 4 == 0 && year % 100 != 0) || year % 400 == 0;
    let feb: u64 = if leap {
        29
    } else {
        28
    };
    let mut month: u64 = 1;
    loop
        invariant
            1 <= month <= 12,
            rest < days_from_month(year as nat, month as nat),
            month_walk(year as nat, ymd_rest(days as nat), 1) == month_walk(
                year as nat,
                rest as nat,
                month as nat,
            ),
            ymd_rest(days as nat) < year_len(year as nat),
            feb == month_len(year as nat, 2),
            year as nat == year_walk(days as nat, 1970).0,
        ensures
            1 <= month <= 12,
            rest < month_len(year as nat, month as nat),
            month_walk(year as nat, ymd_rest(days as nat), 1) == month_walk(
                year as nat,
                rest as nat,
                month as nat,
            ),
            year as nat == year_walk(days as nat, 1970).0,
        decreases 13 - month,
    {
        proof {
            assert(days_from_month(year as nat, 13) == 0);
        }
        let md: u64 = if month == 2 {
            feb
        } else if month == 4 || month == 6 || month == 9 || month == 11 {
            30
        } else {
            31
        };
        if rest < md {
            break;
        }
        rest = rest - md;
        month = month + 1;
    }
    proof {
        lemma_month_walk(year as nat, rest as nat, month as nat);
    }
    (year, month, rest + 1)
}

/// The day within its year of day `days` after 1970-01-01.
pub open spec fn ymd_rest(days: nat) -> nat {
    year_walk(days, 1970).1
}

// ─── Timestamps and identifiers ──────────────────────────────────────────────

/// The time elapsed since the Unix epoch, read from the system clock (std
/// `SystemTime::now` and `duration_since`), as whole seconds and the
/// nanoseconds past them; both zero when the clock reads before the epoch.
/// The reading depends on the clock: nothing is claimed of it beyond the range
/// of the nanosecond part that `Duration` documents.
#[verifier::external_body]
pub(crate) fn since_epoch() -> (r: (u64, u32))
    ensures
        r.1 < 1_000_000_000,
{
    match std::time::SystemTime::now().duration_since(std::time::UNIX_EPOCH) {
        Ok(d) => (d.as_secs(), d.subsec_nanos()),
        Err(_) => (0, 0),
    }
}

/// `YYYY-MM-DDTHH:MM:SS` (UTC, no zone suffix) for `secs` seconds after the
/// Unix epoch.
pub open spec fn iso8601_text(secs: nat) -> Seq<char> {
    let (y, mo, d) = ymd(secs / 86400);
    zero_padded(y, 4) + seq!['-'] + zero_padded(mo, 2) + seq!['-'] + zero_padded(d, 2) + seq![
        'T',
    ] + zero_padded((secs / 3600) % 24, 2) + seq![':'] + zero_padded((secs / 60) % 60, 2) + seq![
        ':',
    ] + zero_padded(secs % 60, 2)
}

/// Formats `secs` seconds after the Unix epoch as an ISO-8601 date and time.
pub fn iso8601_from_secs(secs: u64) -> (r: String)
    ensures
        r@ == iso8601_text(secs as nat),
{
    let sec = secs % 60;
    let min = (secs / 60) % 60;
    let hour = (secs / 3600) % 24;
    let days = secs / 86400;
    let (y, mo, d) = days_to_ymd(days);
    let mut s = String::new();
    push_zero_padded(&mut s, y as u128, 4);
    push_char(&mut s, '-');
    push_zero_padded(&mut s, mo as u128, 2);
    push_char(&mut s, '-');
    push_zero_padded(&mut s, d as u128, 2);
    push_char(&mut s, 'T');
    push_zero_padded(&mut s, hour as u128, 2);
    push_char(&mut s, ':');
    push_zero_padded(&mut s, min as u128, 2);
    push_char(&mut s, ':');
    push_zero_padded(&mut s, sec as u128, 2);
    proof {
        assert(s@ =~= iso8601_text(secs as nat));
    }
    s
}

/// The current time as an ISO-8601 date and time (UTC), as written to a
/// trash info file.  What comes back is `iso8601_text` of the clock's
/// reading in seconds.
pub fn chrono_or_iso8601() -> (r: String)
    ensures
        exists|secs: u64| r@ == iso8601_text(secs as nat),
{
    let (secs, _) = since_epoch();
    iso8601_from_secs(secs)
}

/// 32 lowercase hex digits of `nanos`.
pub open spec fn hex32_text(nanos: nat) -> Seq<char> {
    hex_fixed(nanos, 32)
}

/// A 32-digit hex identifier made of the nanoseconds elapsed since the Unix
/// epoch.
pub fn uuid_v4_hex() -> (r: String)
    ensures
        exists|nanos: u128| r@ == hex32_text(nanos as nat),
{
    let (secs, sub) = since_epoch();
    let nanos: u128 = (secs as u128) * 1_000_000_000 + (sub as u128);
    let mut s = String::new();
    push_hex_fixed(&mut s, nanos, 32);
    proof {
        assert(s@ =~= hex32_text(nanos as nat));
    }
    s
}

// ─── Trash ───────────────────────────────────────────────────────────────────

/// The index of the last `.` in `s`, or -1.
pub open spec fn last_dot(s: Seq<char>) -> int
    decreases s.len(),
{
    if s.len() == 0 {
        -1
    } else if s.last() == '.' {
        s.len() - 1
    } else {
        last_dot(s.drop_last())
    }
}

/// The stem and extension of a file name, as std's `Path::file_stem` and
/// `Path::extension` split it: at the last dot, unless the name is `..` or
/// its only dot leads it; a missing extension is empty.
pub open spec fn stem_and_ext(name: Seq<char>) -> (Seq<char>, Seq<char>) {
    let k = last_dot(name);
    if name == seq!['.', '.'] || k <= 0 {
        (name, Seq::empty())
    } else {
        (name.take(k), name.skip(k + 1))
    }
}

/// The name a file takes in the trash on the given attempt: its own name
/// first, then `stem_N.ext` for N = 1, 2, ...
pub open spec fn trash_name(name: Seq<char>, attempt: nat) -> Seq<char> {
    if attempt == 0 {
        name
    } else {
        let (stem, ext) = stem_and_ext(name);
        let ext_dot = if ext.len() == 0 {
            Seq::empty()
        } else {
            seq!['.'] + ext
        };
        stem + seq!['_'] + decimal(attempt) + ext_dot
    }
}

proof fn lemma_last_dot_range(s: Seq<char>)
    ensures
        -1 <= last_dot(s) < s.len(),
        last_dot(s) >= 0 ==> s[last_dot(s)] == '.',
        forall|i: int| last_dot(s) < i < s.len() ==> s[i] != '.',
    decreases s.len(),
{
    if s.len() > 0 && s.last() != '.' {
        lemma_last_dot_range(s.drop_last());
        assert forall|i: int| last_dot(s) < i < s.len() implies s[i] != '.' by {
            if i < s.len() - 1 {
                assert(s[i] == s.drop_last()[i]);
            }
        }
    }
}

fn find_last_dot(cs: &Vec<char>) -> (k: i64)
    requires
        cs@.len() < 0x7fff_ffff_ffff_ffff,
    ensures
        k == last_dot(cs@),
{
    let mut i: usize = cs.len();
    proof {
        assert(cs@.take(cs@.len() as int) =~= cs@);
    }
    while i > 0
        invariant
            i <= cs@.len(),
            last_dot(cs@) == last_dot(cs@.take(i as int)),
            cs@.len() < 0x7fff_ffff_ffff_ffff,
        decreases i,
    {
        proof {
            assert(cs@.take(i as int).drop_last() =~= cs@.take(i as int - 1));
        }
        if cs[i - 1] == '.' {
            return (i - 1) as i64;
        }
        i = i - 1;
    }
    -1
}

/// Splits a file name into stem and extension.
pub(crate) fn split_stem_ext(cs: &Vec<char>) -> (r: (Vec<char>, Vec<char>))
    requires
        cs@.len() < 0x7fff_ffff_ffff_ffff,
    ensures
        (r.0@, r.1@) == stem_and_ext(cs@),
{
    let k = find_last_dot(cs);
    proof {
        lemma_last_dot_range(cs@);
    }
    let is_dotdot = cs.len() == 2 && cs[0] == '.' && cs[1] == '.';
    if is_dotdot || k <= 0 {
        proof {
            if is_dotdot {
                assert(cs@ =~= seq!['.', '.']);
            }
        }
        return (cs.clone(), Vec::new());
    }
    proof {
        assert(cs@ != seq!['.', '.']);
    }
    let k = k as usize;
    let mut stem: Vec<char> = Vec::new();
    let mut ext: Vec<char> = Vec::new();
    let mut i: usize = 0;
    while i < cs.len()
        invariant
            0 < k < cs@.len(),
            i <= cs@.len(),
            stem@ == cs@.take(if i < k { i as int } else { k as int }),
            ext@ == cs@.skip(k + 1).take(if i <= k { 0 } else { i - k - 1 }),
        decreases cs@.len() - i,
    {
        if i < k {
            stem.push(cs[i]);
            proof {
                assert(cs@.take(i as int + 1) =~= cs@.take(i as int).push(cs@[i as int]));
            }
        } else if i > k {
            ext.push(cs[i]);
            proof {
                assert(cs@.skip(k + 1).take(i - k) =~= cs@.skip(k + 1).take(i - k - 1).push(
                    cs@[i as int],
                ));
            }
        }
        i = i + 1;
    }
    proof {
        assert(cs@.skip(k + 1).take(cs@.len() - k - 1) =~= cs@.skip(k + 1));
    }
    (stem, ext)
}

/// The name a file takes in the trash on the given attempt (0 for its own
/// name).  The name is a single path component.
pub fn trash_file_name(name: &str, attempt: u64) -> (r: String)
    requires
        name@.len() < 0x7fff_ffff_ffff_ffff,
    ensures
        r@ == trash_name(name@, attempt as nat),
{
    let cs = crate::text::chars_of(name);
    let mut s = String::new();
    if attempt == 0 {
        push_all(&mut s, &cs);
        proof {
            assert(s@ =~= name@);
        }
        return s;
    }
    let (stem, ext) = split_stem_ext(&cs);
    push_all(&mut s, &stem);
    push_char(&mut s, '_');
    let digits = decimal_chars(attempt as u128);
    push_all(&mut s, &digits);
    if ext.len() > 0 {
        push_char(&mut s, '.');
        push_all(&mut s, &ext);
    }
    proof {
        assert(s@ =~= trash_name(name@, attempt as nat));
    }
    s
}

/// The contents of a freedesktop.org trash info file.
pub open spec fn trash_info_text(path: Seq<char>, date: Seq<char>) -> Seq<char> {
    "[Trash Info]\nPath="@ + path + "\nDeletionDate="@ + date + "\n"@
}

/// The trash info file recording that `path` was deleted at `date`.
pub fn trash_info(path: &str, date: &str) -> (r: String)
    ensures
        r@ == trash_info_text(path@, date@),
{
    let mut s = String::new();
    s.append("[Trash Info]\nPath=");
    s.append(path);
    s.append("\nDeletionDate=");
    s.append(date);
    s.append("\n");
    proof {
        assert(s@ =~= trash_info_text(path@, date@));
    }
    s
}

} // verus!
