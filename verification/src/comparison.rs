//! Sliding-window comparison of two pHash timelines (I-frame fingerprints):
//! slide the shorter sequence over the longer one, count the frames that
//! match at each offset, and keep the offset with the most matches together
//! with the longest run of matching frames there.
//!
//! Two frames match when their hashes agree in at least `min_same_bits` of
//! the 64 bits (a similarity threshold of `t` is `ceil(64 · t)` bits).  Runs
//! may bridge up to `max_gap` non-matching frames in a row, and a run's
//! length counts the frames it spans, bridged ones included.

use crate::phash::{diff_bits, hamming, lemma_hamming_metric};
use vstd::prelude::*;

verus! {

/// Whether two frame hashes agree in at least `min_same` bits.
pub open spec fn frame_match(a: u64, b: u64, min_same: u32) -> bool {
    64 - diff_bits(a, b, 64) >= min_same
}

/// The scan state at one offset: (matches, current run, longest run, gap).
pub type RunState = (nat, nat, nat, nat);

/// One frame of the scan: a match extends the run; a miss is bridged (and
/// spanned by the run) while fewer than `max_gap` misses have been bridged
/// in a row, and otherwise ends the run.  The longest run is taken at
/// matching frames, so a run spans from its first to its last match.
pub open spec fn run_step(st: RunState, matched: bool, max_gap: nat) -> RunState {
    let (m, c, mc, g) = st;
    if matched {
        (m + 1, c + 1, if c + 1 > mc {
            c + 1
        } else {
            mc
        }, 0)
    } else if max_gap > 0 && g < max_gap {
        (m, c + 1, mc, g + 1)
    } else {
        (m, 0, mc, 0)
    }
}

/// The scan state after the first `n` frames of `shorter` laid at `offset`.
pub open spec fn run_at(
    shorter: Seq<u64>,
    longer: Seq<u64>,
    offset: int,
    n: int,
    min_same: u32,
    max_gap: nat,
) -> RunState
    decreases n,
{
    if n <= 0 {
        (0, 0, 0, 0)
    } else {
        run_step(
            run_at(shorter, longer, offset, n - 1, min_same, max_gap),
            frame_match(shorter[n - 1], longer[offset + n - 1], min_same),
            max_gap,
        )
    }
}

/// The best of the first `k` offsets: (matches, offset, longest run); the
/// first offset with the most matches wins, and offset 0 with no run when
/// nothing matches.
pub open spec fn best_upto(
    shorter: Seq<u64>,
    longer: Seq<u64>,
    k: int,
    min_same: u32,
    max_gap: nat,
) -> (nat, nat, nat)
    decreases k,
{
    if k <= 0 {
        (0, 0, 0)
    } else {
        let b = best_upto(shorter, longer, k - 1, min_same, max_gap);
        let s = run_at(shorter, longer, k - 1, shorter.len() as int, min_same, max_gap);
        if s.0 > b.0 {
            (s.0, (k - 1) as nat, s.2)
        } else {
            b
        }
    }
}

/// The number of offsets at which `shorter` fits inside `longer`.
pub open spec fn offsets(shorter: Seq<u64>, longer: Seq<u64>) -> int {
    longer.len() - shorter.len() + 1
}

/// The outcome of the comparison: none when `shorter` is empty or longer
/// than `longer`, else the best offset.
pub open spec fn window_compare(
    shorter: Seq<u64>,
    longer: Seq<u64>,
    min_same: u32,
    max_gap: nat,
) -> Option<(nat, nat, nat)> {
    if shorter.len() == 0 || shorter.len() > longer.len() {
        None
    } else {
        Some(best_upto(shorter, longer, offsets(shorter, longer), min_same, max_gap))
    }
}

/// The result of a sliding-window comparison.
#[derive(Debug, Clone, Copy, PartialEq, Eq)]
pub struct MatchResult {
    /// Frames of the shorter sequence that matched at the best offset; the
    /// similarity is `matches / frames`.
    pub matches: usize,
    /// Frames in the shorter sequence.
    pub frames: usize,
    /// Offset into the longer sequence where the best match starts.
    pub offset: usize,
    /// Longest (gap-bridged) run of matching frames at that offset.
    pub consecutive_run: usize,
}

fn frame_matches(a: u64, b: u64, min_same: u32) -> (r: bool)
    ensures
        r == frame_match(a, b, min_same),
{
    let d = hamming(a, b);
    64 - d >= min_same
}

/// Slides `shorter` over `longer` and finds the offset with the most
/// matching frames.  Returns `None` if `shorter` is empty or longer than
/// `longer`.
pub fn sliding_window_compare(
    shorter: &[u64],
    longer: &[u64],
    min_same_bits: u32,
    max_gap: usize,
) -> (r: Option<MatchResult>)
    ensures
        match r {
            None => window_compare(shorter@, longer@, min_same_bits, max_gap as nat) is None,
            Some(m) => window_compare(shorter@, longer@, min_same_bits, max_gap as nat) == Some(
                (m.matches as nat, m.offset as nat, m.consecutive_run as nat),
            ) && m.frames == shorter@.len(),
        },
{
    let n = shorter.len();
    let total = longer.len();
    if n == 0 || n > total {
        return None;
    }
    let max_offsets = longer.len() - n + 1;
    let miss_budget = n;
    let mut best = MatchResult { matches: 0, frames: n, offset: 0, consecutive_run: 0 };
    let mut offset: usize = 0;
    while offset < max_offsets
        invariant
            n == shorter@.len() >= 1,
            n <= longer@.len(),
            total == longer@.len(),
            max_offsets == longer@.len() - n + 1,
            miss_budget == n,
            offset <= max_offsets,
            best.frames == n,
            (best.matches as nat, best.offset as nat, best.consecutive_run as nat) == best_upto(
                shorter@,
                longer@,
                offset as int,
                min_same_bits,
                max_gap as nat,
            ),
        decreases max_offsets - offset,
    {
        let mut matches: usize = 0;
        let mut consecutive: usize = 0;
        let mut max_consecutive: usize = 0;
        let mut gap: usize = 0;
        let mut misses: usize = 0;
        let mut i: usize = 0;
        while i < n
            invariant
                n == shorter@.len(),
                offset + n <= longer@.len(),
                total == longer@.len(),
                i <= n,
                miss_budget == n,
                misses <= i,
                matches <= i,
                consecutive <= i,
                max_consecutive <= i,
                (matches as nat, consecutive as nat, max_consecutive as nat, gap as nat) == run_at(
                    shorter@,
                    longer@,
                    offset as int,
                    i as int,
                    min_same_bits,
                    max_gap as nat,
                ),
            ensures
                (matches as nat, consecutive as nat, max_consecutive as nat, gap as nat) == run_at(
                    shorter@,
                    longer@,
                    offset as int,
                    n as int,
                    min_same_bits,
                    max_gap as nat,
                ),
                max_consecutive <= n,
                matches <= n,
            decreases n - i,
        {
            if frame_matches(shorter[i], longer[offset + i], min_same_bits) {
                matches = matches + 1;
                consecutive = consecutive + 1;
                gap = 0;
                if consecutive > max_consecutive {
                    max_consecutive = consecutive;
                }
            } else {
                misses = misses + 1;
                if max_gap > 0 && gap < max_gap {
                    consecutive = consecutive + 1;
                    gap = gap + 1;
                } else {
                    consecutive = 0;
                    gap = 0;
                }
                if misses > miss_budget {
                    break;
                }
            }
            i = i + 1;
        }
        if matches > best.matches {
            best = MatchResult { matches, frames: n, offset, consecutive_run: max_consecutive };
        }
        offset = offset + 1;
    }
    Some(best)
}

proof fn lemma_isolated_run(shorter: Seq<u64>, longer: Seq<u64>, i: int, min_same: u32, max_gap: nat)
    requires
        shorter.len() == longer.len(),
        1 <= i <= shorter.len(),
        max_gap >= 1,
        frame_match(shorter[0], longer[0], min_same),
        frame_match(shorter.last(), longer.last(), min_same),
        forall|k: int|
            0 <= k < shorter.len() - 1 ==> frame_match(#[trigger] shorter[k], longer[k], min_same)
                || frame_match(shorter[k + 1], longer[k + 1], min_same),
    ensures
        run_at(shorter, longer, 0, i, min_same, max_gap).0 >= 1,
        run_at(shorter, longer, 0, i, min_same, max_gap).1 == i,
        frame_match(shorter[i - 1], longer[i - 1], min_same) ==> run_at(
            shorter,
            longer,
            0,
            i,
            min_same,
            max_gap,
        ).2 == i && run_at(shorter, longer, 0, i, min_same, max_gap).3 == 0,
        !frame_match(shorter[i - 1], longer[i - 1], min_same) ==> run_at(
            shorter,
            longer,
            0,
            i,
            min_same,
            max_gap,
        ).2 == i - 1 && run_at(shorter, longer, 0, i, min_same, max_gap).3 == 1,
    decreases i,
{
    let prev = run_at(shorter, longer, 0, i - 1, min_same, max_gap);
    let hit = frame_match(shorter[i - 1], longer[i - 1], min_same);
    assert(longer[0 + i - 1] == longer[i - 1]);
    assert(run_at(shorter, longer, 0, i, min_same, max_gap) == run_step(prev, hit, max_gap));
    if i == 1 {
        assert(prev == (0nat, 0nat, 0nat, 0nat));
    } else {
        lemma_isolated_run(shorter, longer, i - 1, min_same, max_gap);
        if !hit {
            assert(i - 1 < shorter.len() - 1);
            assert(frame_match(shorter[i - 2], longer[i - 2], min_same) || frame_match(
                shorter[i - 1],
                longer[i - 1],
                min_same,
            ));
        }
    }
}

/// With a gap tolerance of one frame or more, isolated misses never break a
/// run: when two timelines of the same length match at their first and last
/// frames and never miss at two frames in a row, the longest run at the
/// (only) offset 0 spans every frame.
pub proof fn lemma_isolated_misses_bridged(
    shorter: Seq<u64>,
    longer: Seq<u64>,
    min_same: u32,
    max_gap: nat,
)
    requires
        shorter.len() == longer.len(),
        shorter.len() >= 1,
        max_gap >= 1,
        frame_match(shorter[0], longer[0], min_same),
        frame_match(shorter.last(), longer.last(), min_same),
        forall|k: int|
            0 <= k < shorter.len() - 1 ==> frame_match(#[trigger] shorter[k], longer[k], min_same)
                || frame_match(shorter[k + 1], longer[k + 1], min_same),
    ensures
        match window_compare(shorter, longer, min_same, max_gap) {
            Some((_, off, run)) => off == 0 && run == shorter.len(),
            None => false,
        },
{
    let n = shorter.len() as int;
    lemma_isolated_run(shorter, longer, n, min_same, max_gap);
    assert(shorter[n - 1] == shorter.last());
    assert(offsets(shorter, longer) == 1);
    assert(best_upto(shorter, longer, 0, min_same, max_gap) == (0nat, 0nat, 0nat));
}

/// Whether the comparison passes the thresholds.
pub open spec fn passes(
    r: Option<(nat, nat, nat)>,
    min_matches: nat,
    min_consecutive: nat,
) -> bool {
    match r {
        Some((m, _, run)) => m >= min_matches && run >= min_consecutive,
        None => false,
    }
}

/// Compares two pHash timelines and keeps the result only when at least
/// `min_matches` frames matched (a minimum similarity `s` of `n` frames is
/// the least `m` with `m / n ≥ s`) with a run of at least `min_consecutive`.
pub fn arrays_match(
    shorter: &[u64],
    longer: &[u64],
    min_matches: usize,
    min_consecutive: usize,
    min_same_bits: u32,
    max_gap: usize,
) -> (r: Option<MatchResult>)
    ensures
        r is Some <==> passes(
            window_compare(shorter@, longer@, min_same_bits, max_gap as nat),
            min_matches as nat,
            min_consecutive as nat,
        ),
        match r {
            Some(m) => window_compare(shorter@, longer@, min_same_bits, max_gap as nat) == Some(
                (m.matches as nat, m.offset as nat, m.consecutive_run as nat),
            ) && m.frames == shorter@.len(),
            None => true,
        },
{
    match sliding_window_compare(shorter, longer, min_same_bits, max_gap) {
        Some(result) => {
            if result.matches >= min_matches && result.consecutive_run >= min_consecutive {
                Some(result)
            } else {
                None
            }
        },
        None => None,
    }
}

// ─── Laws ────────────────────────────────────────────────────────────────────

/// The matches at the best offset (0 when there is none).
pub open spec fn best_matches(r: Option<(nat, nat, nat)>) -> nat {
    match r {
        Some(t) => t.0,
        None => 0,
    }
}

/// The longest run at the best offset (0 when there is none).
pub open spec fn best_run(r: Option<(nat, nat, nat)>) -> nat {
    match r {
        Some(t) => t.2,
        None => 0,
    }
}

/// The frames of `shorter`, among the first `n`, that match at `offset`.
pub open spec fn count_matches(
    shorter: Seq<u64>,
    longer: Seq<u64>,
    offset: int,
    n: int,
    min_same: u32,
) -> nat
    decreases n,
{
    if n <= 0 {
        0
    } else {
        count_matches(shorter, longer, offset, n - 1, min_same) + if frame_match(
            shorter[n - 1],
            longer[offset + n - 1],
            min_same,
        ) {
            1nat
        } else {
            0nat
        }
    }
}

proof fn lemma_run_facts(
    shorter: Seq<u64>,
    longer: Seq<u64>,
    offset: int,
    n: int,
    min_same: u32,
    max_gap: nat,
)
    requires
        0 <= n,
    ensures
        ({
            let st = run_at(shorter, longer, offset, n, min_same, max_gap);
            &&& st.0 == count_matches(shorter, longer, offset, n, min_same)
            &&& st.0 <= n
            &&& st.1 <= n
            &&& st.2 <= n
            &&& (st.0 >= 1 <==> st.2 >= 1)
        }),
    decreases n,
{
    if n > 0 {
        lemma_run_facts(shorter, longer, offset, n - 1, min_same, max_gap);
    }
}

proof fn lemma_best_facts(shorter: Seq<u64>, longer: Seq<u64>, k: int, min_same: u32, max_gap: nat)
    requires
        k >= 1,
    ensures
        ({
            let b = best_upto(shorter, longer, k, min_same, max_gap);
            &&& b.1 < k
            &&& b.0 == run_at(shorter, longer, b.1 as int, shorter.len() as int, min_same, max_gap).0
            &&& (b.0 > 0 ==> b.2 == run_at(
                shorter,
                longer,
                b.1 as int,
                shorter.len() as int,
                min_same,
                max_gap,
            ).2)
            &&& (b.0 == 0 ==> b.2 == 0)
            &&& forall|o: int|
                0 <= o < k ==> run_at(shorter, longer, o, shorter.len() as int, min_same, max_gap).0
                    <= b.0
        }),
    decreases k,
{
    if k > 1 {
        lemma_best_facts(shorter, longer, k - 1, min_same, max_gap);
    }
    let b = best_upto(shorter, longer, k, min_same, max_gap);
    if k == 1 {
        assert(best_upto(shorter, longer, 0, min_same, max_gap) == (0nat, 0nat, 0nat));
    }
}

proof fn lemma_count_all(shorter: Seq<u64>, longer: Seq<u64>, offset: int, n: int, min_same: u32)
    requires
        0 <= n <= shorter.len(),
        min_same <= 64,
        forall|i: int| 0 <= i < n ==> shorter[i] == longer[offset + i],
    ensures
        count_matches(shorter, longer, offset, n, min_same) == n,
    decreases n,
{
    if n > 0 {
        lemma_count_all(shorter, longer, offset, n - 1, min_same);
        lemma_hamming_metric(shorter[n - 1], shorter[n - 1], shorter[n - 1]);
    }
}

/// An exact sub-clip is always found: when `shorter` is a slice of
/// `longer` and a frame counts as matching itself, the best offset matches
/// every frame.
pub proof fn lemma_exact_subclip_detected(
    shorter: Seq<u64>,
    longer: Seq<u64>,
    offset: int,
    min_same: u32,
    max_gap: nat,
)
    requires
        shorter.len() >= 1,
        0 <= offset,
        offset + shorter.len() <= longer.len(),
        shorter == longer.subrange(offset, offset + shorter.len()),
        min_same <= 64,
    ensures
        window_compare(shorter, longer, min_same, max_gap) is Some,
        best_matches(window_compare(shorter, longer, min_same, max_gap)) == shorter.len(),
{
    let n = shorter.len() as int;
    assert forall|i: int| 0 <= i < n implies shorter[i] == longer[offset + i] by {
        assert(shorter[i] == longer.subrange(offset, offset + n)[i]);
    }
    lemma_count_all(shorter, longer, offset, n, min_same);
    lemma_run_facts(shorter, longer, offset, n, min_same, max_gap);
    let k = offsets(shorter, longer);
    lemma_best_facts(shorter, longer, k, min_same, max_gap);
    let b = best_upto(shorter, longer, k, min_same, max_gap);
    lemma_run_facts(shorter, longer, b.1 as int, n, min_same, max_gap);
}

proof fn lemma_run_all_match(
    shorter: Seq<u64>,
    longer: Seq<u64>,
    n: int,
    min_same: u32,
    max_gap: nat,
)
    requires
        0 <= n <= shorter.len(),
        min_same <= 64,
        forall|i: int| 0 <= i < n ==> shorter[i] == longer[i],
    ensures
        run_at(shorter, longer, 0, n, min_same, max_gap) == (n as nat, n as nat, n as nat, 0nat),
    decreases n,
{
    if n > 0 {
        lemma_run_all_match(shorter, longer, n - 1, min_same, max_gap);
        lemma_hamming_metric(shorter[n - 1], shorter[n - 1], shorter[n - 1]);
    }
}

/// A sequence compared with itself matches fully at offset 0, in one run
/// over all its frames.
pub proof fn lemma_identical_sequences(seq: Seq<u64>, min_same: u32, max_gap: nat)
    requires
        seq.len() >= 1,
        min_same <= 64,
    ensures
        window_compare(seq, seq, min_same, max_gap) == Some(
            (seq.len(), 0nat, seq.len()),
        ),
{
    let n = seq.len() as int;
    lemma_run_all_match(seq, seq, n, min_same, max_gap);
    assert(offsets(seq, seq) == 1);
    assert(best_upto(seq, seq, 0, min_same, max_gap) == (0nat, 0nat, 0nat));
}

proof fn lemma_count_all_but_one(
    shorter: Seq<u64>,
    longer: Seq<u64>,
    n: int,
    p: int,
    min_same: u32,
)
    requires
        0 <= n <= shorter.len(),
        min_same <= 64,
        forall|i: int| 0 <= i < n && i != p ==> shorter[i] == longer[i],
    ensures
        count_matches(shorter, longer, 0, n, min_same) + 1 >= n,
        0 <= p < n ==> count_matches(shorter, longer, 0, n, min_same) + 1 >= n,
        !(0 <= p < n) ==> count_matches(shorter, longer, 0, n, min_same) == n,
    decreases n,
{
    if n > 0 {
        lemma_count_all_but_one(shorter, longer, n - 1, p, min_same);
        lemma_hamming_metric(shorter[n - 1], shorter[n - 1], shorter[n - 1]);
    }
}

/// One differing frame costs at most one match: when two sequences of the
/// same length agree at every frame but one, at least all frames but one
/// match.
pub proof fn lemma_single_difference(
    shorter: Seq<u64>,
    longer: Seq<u64>,
    p: int,
    min_same: u32,
    max_gap: nat,
)
    requires
        shorter.len() >= 1,
        shorter.len() == longer.len(),
        min_same <= 64,
        forall|i: int| 0 <= i < shorter.len() && i != p ==> shorter[i] == longer[i],
    ensures
        window_compare(shorter, longer, min_same, max_gap) is Some,
        best_matches(window_compare(shorter, longer, min_same, max_gap)) + 1 >= shorter.len(),
{
    let n = shorter.len() as int;
    lemma_count_all_but_one(shorter, longer, n, p, min_same);
    lemma_run_facts(shorter, longer, 0, n, min_same, max_gap);
    lemma_best_facts(shorter, longer, 1, min_same, max_gap);
}

proof fn lemma_strict_runs(
    shorter: Seq<u64>,
    longer: Seq<u64>,
    n: int,
    p: int,
    min_same: u32,
)
    requires
        0 <= p < n,
        !frame_match(shorter[p], longer[p], min_same),
    ensures
        run_at(shorter, longer, 0, n, min_same, 0).1 <= n - p - 1,
        run_at(shorter, longer, 0, n, min_same, 0).2 <= (if p >= n - p - 1 {
            p
        } else {
            n - p - 1
        }),
    decreases n,
{
    if n == p + 1 {
        lemma_run_prefix_bound(shorter, longer, p, min_same);
    } else {
        lemma_strict_runs(shorter, longer, n - 1, p, min_same);
    }
}

proof fn lemma_run_prefix_bound(shorter: Seq<u64>, longer: Seq<u64>, n: int, min_same: u32)
    requires
        0 <= n,
    ensures
        run_at(shorter, longer, 0, n, min_same, 0).1 <= n,
        run_at(shorter, longer, 0, n, min_same, 0).2 <= n,
    decreases n,
{
    if n > 0 {
        lemma_run_prefix_bound(shorter, longer, n - 1, min_same);
    }
}

/// Without gap tolerance a non-matching frame ends every run: when two
/// sequences of the same length are compared strictly and frame `p` does
/// not match, the longest run fits before or after it.
pub proof fn lemma_strict_mode_splits_runs(
    shorter: Seq<u64>,
    longer: Seq<u64>,
    p: int,
    min_same: u32,
)
    requires
        shorter.len() >= 1,
        shorter.len() == longer.len(),
        0 <= p < shorter.len(),
        !frame_match(shorter[p], longer[p], min_same),
    ensures
        window_compare(shorter, longer, min_same, 0) is Some,
        best_run(window_compare(shorter, longer, min_same, 0)) <= (if p >= shorter.len() - p - 1 {
            p
        } else {
            shorter.len() - p - 1
        }),
{
    let n = shorter.len() as int;
    lemma_strict_runs(shorter, longer, n, p, min_same);
    lemma_best_facts(shorter, longer, 1, min_same, 0);
}

proof fn lemma_count_monotone(
    shorter: Seq<u64>,
    longer: Seq<u64>,
    offset: int,
    n: int,
    lo: u32,
    hi: u32,
)
    requires
        lo <= hi,
    ensures
        count_matches(shorter, longer, offset, n, hi) <= count_matches(
            shorter,
            longer,
            offset,
            n,
            lo,
        ),
    decreases n,
{
    if n > 0 {
        lemma_count_monotone(shorter, longer, offset, n - 1, lo, hi);
    }
}

/// Lowering the per-frame threshold never lowers the similarity: with fewer
/// bits required to agree, the best offset matches at least as many frames.
pub proof fn lemma_lower_threshold_never_decreases_matches(
    shorter: Seq<u64>,
    longer: Seq<u64>,
    lo: u32,
    hi: u32,
    max_gap: nat,
)
    requires
        lo <= hi,
        window_compare(shorter, longer, hi, max_gap) is Some,
    ensures
        window_compare(shorter, longer, lo, max_gap) is Some,
        best_matches(window_compare(shorter, longer, hi, max_gap)) <= best_matches(window_compare(
            shorter,
            longer,
            lo,
            max_gap,
        )),
{
    let n = shorter.len() as int;
    let k = offsets(shorter, longer);
    lemma_best_facts(shorter, longer, k, hi, max_gap);
    lemma_best_facts(shorter, longer, k, lo, max_gap);
    let bh = best_upto(shorter, longer, k, hi, max_gap);
    let o = bh.1 as int;
    lemma_run_facts(shorter, longer, o, n, hi, max_gap);
    lemma_run_facts(shorter, longer, o, n, lo, max_gap);
    lemma_count_monotone(shorter, longer, o, n, lo, hi);
}

/// A looser per-frame threshold never rejects what a stricter one accepted,
/// when at most a single-frame run is required.
pub proof fn lemma_arrays_match_monotone(
    shorter: Seq<u64>,
    longer: Seq<u64>,
    lo: u32,
    hi: u32,
    min_matches: nat,
    min_consecutive: nat,
    max_gap: nat,
)
    requires
        lo <= hi,
        min_consecutive <= 1,
        passes(window_compare(shorter, longer, hi, max_gap), min_matches, min_consecutive),
    ensures
        passes(window_compare(shorter, longer, lo, max_gap), min_matches, min_consecutive),
{
    let n = shorter.len() as int;
    let k = offsets(shorter, longer);
    lemma_lower_threshold_never_decreases_matches(shorter, longer, lo, hi, max_gap);
    lemma_best_facts(shorter, longer, k, hi, max_gap);
    lemma_best_facts(shorter, longer, k, lo, max_gap);
    let bh = best_upto(shorter, longer, k, hi, max_gap);
    let bl = best_upto(shorter, longer, k, lo, max_gap);
    lemma_run_facts(shorter, longer, bh.1 as int, n, hi, max_gap);
    lemma_run_facts(shorter, longer, bl.1 as int, n, lo, max_gap);
}

} // verus!
