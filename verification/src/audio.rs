//! Integer parts of the chroma audio fingerprint: the 32 chroma pairs that
//! give a frame its bits, the per-second majority vote, decoding of 16-bit
//! PCM, and the bit agreement between two fingerprints.

use vstd::prelude::*;

verus! {

/// The 32 fixed chroma pairs, one per fingerprint bit: adjacent semitones
/// (bits 0-11), minor thirds (bits 12-23) and tritones (bits 24-31).
pub const PAIRS: [(u8, u8); 32] = [
    (0, 1),
    (1, 2),
    (2, 3),
    (3, 4),
    (4, 5),
    (5, 6),
    (6, 7),
    (7, 8),
    (8, 9),
    (9, 10),
    (10, 11),
    (11, 0),
    (0, 3),
    (1, 4),
    (2, 5),
    (3, 6),
    (4, 7),
    (5, 8),
    (6, 9),
    (7, 10),
    (8, 11),
    (9, 0),
    (10, 1),
    (11, 2),
    (0, 6),
    (1, 7),
    (2, 8),
    (3, 9),
    (4, 10),
    (5, 11),
    (6, 0),
    (7, 1),
];

/// The chroma pair of fingerprint bit `k`.
pub open spec fn pair_spec(k: int) -> (int, int) {
    if k < 12 {
        (k, (k + 1) % 12)
    } else if k < 24 {
        (k - 12, (k - 12 + 3) % 12)
    } else {
        (k - 24, (k - 24 + 6) % 12)
    }
}

/// Builds the 32 chroma pairs: `(i, i+1)`, `(i, i+3)` for the twelve
/// semitones, then `(i, i+6)` for the first eight.
pub fn build_pairs() -> (pairs: [(u8, u8); 32])
    ensures
        forall|k: int|
            0 <= k < 32 ==> (pairs@[k].0 as int, pairs@[k].1 as int) == pair_spec(k),
{
    let mut pairs: [(u8, u8); 32] = [(0u8, 0u8); 32];
    let mut idx: usize = 0;
    let mut i: u8 = 0;
    while i < 12
        invariant
            i <= 12,
            idx == i,
            forall|k: int|
                0 <= k < idx ==> (pairs@[k].0 as int, pairs@[k].1 as int) == pair_spec(k),
        decreases 12 - i,
    {
        pairs[idx] = (i, (i + 1) % 12);
        idx = idx + 1;
        i = i + 1;
    }
    i = 0;
    while i < 12
        invariant
            i <= 12,
            idx == 12 + i,
            forall|k: int|
                0 <= k < idx ==> (pairs@[k].0 as int, pairs@[k].1 as int) == pair_spec(k),
        decreases 12 - i,
    {
        pairs[idx] = (i, (i + 3) % 12);
        idx = idx + 1;
        i = i + 1;
    }
    i = 0;
    while i < 8
        invariant
            i <= 8,
            idx == 24 + i,
            forall|k: int|
                0 <= k < idx ==> (pairs@[k].0 as int, pairs@[k].1 as int) == pair_spec(k),
        decreases 8 - i,
    {
        pairs[idx] = (i, (i + 6) % 12);
        idx = idx + 1;
        i = i + 1;
    }
    pairs
}

/// Whether bit `b` of `x` is set.
pub open spec fn bit_set(x: u32, b: int) -> bool {
    (x >> (b as u32)) & 1 == 1
}

/// How many of the first `n` frames have bit `b` set.
pub open spec fn count_set(frames: Seq<u32>, b: int, n: int) -> nat
    decreases n,
{
    if n <= 0 {
        0
    } else {
        count_set(frames, b, n - 1) + if bit_set(frames[n - 1], b) {
            1nat
        } else {
            0nat
        }
    }
}

proof fn lemma_count_bound(frames: Seq<u32>, b: int, n: int)
    requires
        0 <= n,
    ensures
        count_set(frames, b, n) <= n,
    decreases n,
{
    if n > 0 {
        lemma_count_bound(frames, b, n - 1);
    }
}

proof fn lemma_or_bit(r: u32, b: u32, k: u32)
    requires
        b < 32,
        k < 32,
    ensures
        bit_set(r | (1u32 << b), k as int) == (bit_set(r, k as int) || k == b),
{
    assert(((r | (1u32 << b)) >> k) & 1 == 1 <==> (((r >> k) & 1 == 1) || k == b))
        by (bit_vector)
        requires
            b < 32,
            k < 32,
    ;
}

proof fn lemma_zero_bits(k: u32)
    requires
        k < 32,
    ensures
        !bit_set(0u32, k as int),
{
    assert((0u32 >> k) & 1 == 0) by (bit_vector);
}

fn bit_of(x: u32, b: u32) -> (r: bool)
    requires
        b < 32,
    ensures
        r == bit_set(x, b as int),
{
    (x >> b) & 1 == 1
}

/// The bitwise majority of per-frame fingerprints: each bit is set when
/// more than half of the frames set it; 0 for no frames.
pub fn majority_vote(frames: &[u32]) -> (r: u32)
    ensures
        frames@.len() == 0 ==> r == 0,
        forall|b: int|
            0 <= b < 32 ==> (bit_set(r, b) <==> (frames@.len() > 0 && count_set(
                frames@,
                b,
                frames@.len() as int,
            ) >= frames@.len() / 2 + 1)),
{
    if frames.len() == 0 {
        proof {
            assert forall|b: int| 0 <= b < 32 implies !bit_set(0u32, b) by {
                lemma_zero_bits(b as u32);
            }
        }
        return 0;
    }
    let threshold = frames.len() / 2 + 1;
    let mut result: u32 = 0;
    let mut bit: u32 = 0;
    proof {
        assert forall|b: int| 0 <= b < 32 implies !bit_set(0u32, b) by {
            lemma_zero_bits(b as u32);
        }
    }
    while bit < 32
        invariant
            bit <= 32,
            frames@.len() > 0,
            threshold == frames@.len() / 2 + 1,
            forall|b: int|
                0 <= b < 32 ==> (bit_set(result, b) <==> (b < bit && count_set(
                    frames@,
                    b,
                    frames@.len() as int,
                ) >= threshold)),
        decreases 32 - bit,
    {
        let mut count: usize = 0;
        let mut i: usize = 0;
        while i < frames.len()
            invariant
                i <= frames@.len(),
                bit < 32,
                count == count_set(frames@, bit as int, i as int),
            decreases frames@.len() - i,
        {
            proof {
                lemma_count_bound(frames@, bit as int, i as int);
            }
            if bit_of(frames[i], bit) {
                count = count + 1;
            }
            i = i + 1;
        }
        if count >= threshold {
            let ghost old_result = result;
            result = result | (1u32 << bit);
            proof {
                assert forall|b: int| 0 <= b < 32 implies (bit_set(result, b) <==> (b < bit + 1
                    && count_set(frames@, b, frames@.len() as int) >= threshold)) by {
                    lemma_or_bit(old_result, bit, b as u32);
                }
            }
        }
        bit = bit + 1;
    }
    result
}

/// The signed 16-bit value of two little-endian bytes.
pub open spec fn le_i16(lo: u8, hi: u8) -> i16 {
    ((lo as int) + 256 * (hi as int)) as u16 as i16
}

/// The samples of a packed mono 16-bit little-endian PCM buffer: at most
/// `n`, as many as whole byte pairs the buffer holds.
pub fn frame_to_mono_i16(data: &[u8], n: usize) -> (out: Vec<i16>)
    ensures
        out@.len() == if n <= data@.len() / 2 {
            n as int
        } else {
            (data@.len() / 2) as int
        },
        forall|i: int| 0 <= i < out@.len() ==> out@[i] == le_i16(data@[2 * i], data@[2 * i + 1]),
{
    let mut out: Vec<i16> = Vec::new();
    let mut i: usize = 0;
    while i < n
        invariant
            i <= n,
            out@.len() == if i <= data@.len() / 2 {
                i as int
            } else {
                (data@.len() / 2) as int
            },
            forall|k: int|
                0 <= k < out@.len() ==> out@[k] == le_i16(data@[2 * k], data@[2 * k + 1]),
        decreases n - i,
    {
        if i < data.len() / 2 {
            let idx = i * 2;
            let lo = data[idx];
            let hi = data[idx + 1];
            let v: u16 = (lo as u16) | ((hi as u16) << 8u16);
            proof {
                assert(v == (lo as int) + 256 * (hi as int)) by (bit_vector)
                    requires
                        v == (lo as u16) | ((hi as u16) << 8u16),
                ;
            }
            out.push(v as i16);
        }
        i = i + 1;
    }
    out
}

/// The number of bits in which the first `n` pairs of words agree.
pub open spec fn agreeing_bits(a: Seq<u32>, b: Seq<u32>, n: int) -> nat
    decreases n,
{
    if n <= 0 {
        0
    } else {
        agreeing_bits(a, b, n - 1) + same_bits(a[n - 1], b[n - 1], 32)
    }
}

/// The number of the low `k` bits in which two words agree.
pub open spec fn same_bits(x: u32, y: u32, k: int) -> nat
    decreases k,
{
    if k <= 0 {
        0
    } else {
        same_bits(x, y, k - 1) + if bit_set(x, k - 1) == bit_set(y, k - 1) {
            1nat
        } else {
            0nat
        }
    }
}

proof fn lemma_same_bits_bound(x: u32, y: u32, k: int)
    requires
        0 <= k,
    ensures
        same_bits(x, y, k) <= k,
    decreases k,
{
    if k > 0 {
        lemma_same_bits_bound(x, y, k - 1);
    }
}

proof fn lemma_agreeing_bound(a: Seq<u32>, b: Seq<u32>, n: int)
    requires
        0 <= n,
    ensures
        agreeing_bits(a, b, n) <= 32 * n,
    decreases n,
{
    if n > 0 {
        lemma_agreeing_bound(a, b, n - 1);
        lemma_same_bits_bound(a[n - 1], b[n - 1], 32);
    }
}

fn count_same_bits(x: u32, y: u32) -> (r: u32)
    ensures
        r == same_bits(x, y, 32),
{
    let mut r: u32 = 0;
    let mut k: u32 = 0;
    while k < 32
        invariant
            k <= 32,
            r == same_bits(x, y, k as int),
        decreases 32 - k,
    {
        proof {
            lemma_same_bits_bound(x, y, k as int);
        }
        if bit_of(x, k) == bit_of(y, k) {
            r = r + 1;
        }
        k = k + 1;
    }
    r
}

/// The bits that two fingerprints share over the length of the shorter:
/// `(agreeing, compared)`, where `compared` is 32 per word.  The similarity
/// of the two is `agreeing / compared`, and 0 when either is empty.
pub fn matching_bits(a: &[u32], b: &[u32]) -> (r: (u128, u128))
    ensures
        r.1 == 32 * (if a@.len() <= b@.len() {
            a@.len()
        } else {
            b@.len()
        }),
        r.0 == agreeing_bits(a@, b@, r.1 as int / 32),
        r.0 <= r.1,
{
    let len = if a.len() <= b.len() {
        a.len()
    } else {
        b.len()
    };
    let mut matching: u128 = 0;
    let mut i: usize = 0;
    while i < len
        invariant
            i <= len,
            len <= a@.len(),
            len <= b@.len(),
            matching == agreeing_bits(a@, b@, i as int),
        decreases len - i,
    {
        proof {
            lemma_agreeing_bound(a@, b@, i as int);
            lemma_same_bits_bound(a@[i as int], b@[i as int], 32);
        }
        let s = count_same_bits(a[i], b[i]);
        matching = matching + s as u128;
        i = i + 1;
    }
    proof {
        lemma_agreeing_bound(a@, b@, len as int);
    }
    (matching, 32 * (len as u128))
}

/// Returns `true` when the fingerprint is not empty and every word of it is
/// zero: silent tracks give such fingerprints, which would match any other
/// silent track fully.
pub fn is_silent_fingerprint(fp: &[u32]) -> (r: bool)
    ensures
        r == (fp@.len() > 0 && forall|i: int| 0 <= i < fp@.len() ==> fp@[i] == 0),
{
    if fp.len() == 0 {
        return false;
    }
    let mut i: usize = 0;
    while i < fp.len()
        invariant
            i <= fp@.len(),
            forall|k: int| 0 <= k < i ==> fp@[k] == 0,
        decreases fp@.len() - i,
    {
        if fp[i] != 0 {
            return false;
        }
        i = i + 1;
    }
    true
}

} // verus!
