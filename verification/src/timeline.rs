//! The I-frame timeline scan: every pair of videos with a timeline of two
//! or more frame hashes is compared by sliding the shorter timeline over
//! the longer one; a pair is reported when enough frames match.

use crate::comparison::{arrays_match, passes, window_compare, MatchResult};
use vstd::prelude::*;

verus! {

/// One scanned file as the timeline scan sees it.
pub struct TimelineItem {
    pub is_image: bool,
    /// The pHashes of its I-frames, in time order.
    pub hashes: Vec<u64>,
}

/// The thresholds of the timeline scan.
#[derive(Clone, Copy, Debug)]
pub struct TimelineRules {
    pub min_consecutive: usize,
    pub min_same_bits: u32,
    pub max_gap: usize,
}

/// A pair found by the scan: the files with the longer and the shorter
/// timeline, and how they matched.
#[derive(Clone, Copy, Debug)]
pub struct TimelineMatch {
    pub longer: usize,
    pub shorter: usize,
    pub result: MatchResult,
}

/// Whether a file takes part in the scan.
pub open spec fn in_timeline_scan(it: TimelineItem) -> bool {
    !it.is_image && it.hashes@.len() >= 2
}

/// The positions of the files that take part, in order.
pub open spec fn timeline_candidates(items: Seq<TimelineItem>) -> Seq<usize>
    decreases items.len(),
{
    if items.len() == 0 {
        Seq::empty()
    } else {
        let r = timeline_candidates(items.drop_last());
        if in_timeline_scan(items.last()) {
            r.push((items.len() - 1) as usize)
        } else {
            r
        }
    }
}

/// The pair `(a, b)` ordered as (shorter, longer); on equal lengths `a`
/// counts as the shorter.
pub open spec fn oriented(items: Seq<TimelineItem>, a: usize, b: usize) -> (usize, usize) {
    if items[a as int].hashes@.len() <= items[b as int].hashes@.len() {
        (a, b)
    } else {
        (b, a)
    }
}

/// What comparing files `a` and `b` reports: (longer, shorter, matches,
/// offset, run) when the match passes, where `min_matches[n]` is the least
/// number of matching frames a timeline of `n` frames needs.
pub open spec fn pair_found(
    items: Seq<TimelineItem>,
    min_matches: Seq<usize>,
    rules: TimelineRules,
    a: usize,
    b: usize,
) -> Option<(usize, usize, nat, nat, nat)> {
    let (s, l) = oriented(items, a, b);
    let short = items[s as int].hashes@;
    let long = items[l as int].hashes@;
    let r = window_compare(short, long, rules.min_same_bits, rules.max_gap as nat);
    if passes(r, min_matches[short.len() as int] as nat, rules.min_consecutive as nat) {
        match r {
            Some((m, off, run)) => Some((l, s, m, off, run)),
            None => None,
        }
    } else {
        None
    }
}

/// The pairs reported from candidate pair `(i, j)` on, in scan order.
pub open spec fn found_from(
    items: Seq<TimelineItem>,
    min_matches: Seq<usize>,
    rules: TimelineRules,
    c: Seq<usize>,
    i: int,
    j: int,
) -> Seq<(usize, usize, nat, nat, nat)>
    decreases c.len() - i, c.len() - j,
{
    if i < 0 || i + 1 >= c.len() {
        Seq::empty()
    } else if j >= c.len() {
        found_from(items, min_matches, rules, c, i + 1, i + 2)
    } else if j <= i {
        found_from(items, min_matches, rules, c, i, i + 1)
    } else {
        let rest = found_from(items, min_matches, rules, c, i, j + 1);
        match pair_found(items, min_matches, rules, c[i], c[j]) {
            Some(f) => seq![f] + rest,
            None => rest,
        }
    }
}

/// The view of a reported pair.
pub open spec fn match_view(m: TimelineMatch) -> (usize, usize, nat, nat, nat) {
    (m.longer, m.shorter, m.result.matches as nat, m.result.offset as nat, m.result.consecutive_run as nat)
}

fn candidates_exec(items: &Vec<TimelineItem>) -> (c: Vec<usize>)
    ensures
        c@ == timeline_candidates(items@),
        forall|k: int| 0 <= k < c@.len() ==> c@[k] < items@.len(),
{
    let mut c: Vec<usize> = Vec::new();
    let mut i: usize = 0;
    while i < items.len()
        invariant
            i <= items@.len(),
            c@ == timeline_candidates(items@.take(i as int)),
            forall|k: int| 0 <= k < c@.len() ==> c@[k] < i,
        decreases items@.len() - i,
    {
        proof {
            assert(items@.take(i + 1).drop_last() =~= items@.take(i as int));
            assert(items@.take(i + 1).last() == items@[i as int]);
        }
        if !items[i].is_image && items[i].hashes.len() >= 2 {
            c.push(i);
        }
        i = i + 1;
    }
    proof {
        assert(items@.take(items@.len() as int) =~= items@);
    }
    c
}

/// Compares every pair of candidate timelines once, in scan order, and
/// returns the pairs that match (longer first). `min_matches[n]` is the
/// least number of matching frames required of a shorter timeline of `n`
/// frames.
pub fn timeline_pairs(items: &Vec<TimelineItem>, min_matches: &Vec<usize>, rules: TimelineRules) -> (found: Vec<
    TimelineMatch,
>)
    requires
        forall|k: int| 0 <= k < items@.len() ==> (#[trigger] items@[k]).hashes@.len() < min_matches@.len(),
    ensures
        found@.map_values(|m: TimelineMatch| match_view(m)) == found_from(
            items@,
            min_matches@,
            rules,
            timeline_candidates(items@),
            0,
            1,
        ),
        forall|k: int|
            0 <= k < found@.len() ==> (#[trigger] found@[k]).shorter < items@.len() && found@[k].longer < items@.len()
                && found@[k].result.frames == items@[found@[k].shorter as int].hashes@.len(),
{
    let c = candidates_exec(items);
    let ghost cs = c@;
    let ghost all = found_from(items@, min_matches@, rules, cs, 0, 1);
    let mut out: Vec<TimelineMatch> = Vec::new();
    let n = c.len();
    let mut i: usize = 0;
    while i < n
        invariant
            n == cs.len(),
            cs == c@,
            forall|k: int| 0 <= k < cs.len() ==> cs[k] < items@.len(),
            forall|k: int| 0 <= k < items@.len() ==> (#[trigger] items@[k]).hashes@.len() < min_matches@.len(),
            i <= n,
            out@.map_values(|m: TimelineMatch| match_view(m)) + found_from(
                items@,
                min_matches@,
                rules,
                cs,
                i as int,
                i + 1,
            ) == all,
            forall|k: int|
                0 <= k < out@.len() ==> (#[trigger] out@[k]).shorter < items@.len() && out@[k].longer < items@.len()
                    && out@[k].result.frames == items@[out@[k].shorter as int].hashes@.len(),
        decreases n - i,
    {
        let mut j: usize = i + 1;
        while j < n
            invariant
                n == cs.len(),
                cs == c@,
                forall|k: int| 0 <= k < cs.len() ==> cs[k] < items@.len(),
                forall|k: int| 0 <= k < items@.len() ==> (#[trigger] items@[k]).hashes@.len() < min_matches@.len(),
                i + 1 <= j <= n,
                out@.map_values(|m: TimelineMatch| match_view(m)) + found_from(
                    items@,
                    min_matches@,
                    rules,
                    cs,
                    i as int,
                    j as int,
                ) == all,
                forall|k: int|
                    0 <= k < out@.len() ==> (#[trigger] out@[k]).shorter < items@.len() && out@[k].longer < items@.len()
                    && out@[k].result.frames == items@[out@[k].shorter as int].hashes@.len(),
            decreases n - j,
        {
            let a = c[i];
            let b = c[j];
            let (s, l) = if items[a].hashes.len() <= items[b].hashes.len() {
                (a, b)
            } else {
                (b, a)
            };
            proof {
                assert(items@[s as int].hashes@.len() < min_matches@.len());
            }
            let short = &items[s].hashes;
            let long = &items[l].hashes;
            let r = arrays_match(
                short.as_slice(),
                long.as_slice(),
                min_matches[short.len()],
                rules.min_consecutive,
                rules.min_same_bits,
                rules.max_gap,
            );
            let ghost before = out@.map_values(|m: TimelineMatch| match_view(m));
            let ghost rest = found_from(items@, min_matches@, rules, cs, i as int, j + 1);
            match r {
                Some(res) => {
                    let m = TimelineMatch { longer: l, shorter: s, result: res };
                    out.push(m);
                    proof {
                        assert(out@.map_values(|m: TimelineMatch| match_view(m)) =~= before.push(match_view(m)));
                        assert(before.push(match_view(m)) + rest =~= before + (seq![match_view(m)] + rest));
                    }
                },
                None => {},
            }
            j = j + 1;
        }
        i = i + 1;
    }
    proof {
        assert(found_from(items@, min_matches@, rules, cs, i as int, i + 1) =~= Seq::empty());
        assert(out@.map_values(|m: TimelineMatch| match_view(m)) + Seq::empty() =~= out@.map_values(
            |m: TimelineMatch| match_view(m),
        ));
    }
    out
}

proof fn lemma_found_pairs_oriented(
    items: Seq<TimelineItem>,
    min_matches: Seq<usize>,
    rules: TimelineRules,
    c: Seq<usize>,
    i: int,
    j: int,
)
    requires
        forall|k: int| 0 <= k < c.len() ==> c[k] < items.len(),
        forall|p: int, q: int| 0 <= p < q < c.len() ==> c[p] < c[q],
    ensures
        forall|k: int|
            0 <= k < found_from(items, min_matches, rules, c, i, j).len() ==> {
                let f = #[trigger] found_from(items, min_matches, rules, c, i, j)[k];
                &&& f.0 != f.1
                &&& items[f.1 as int].hashes@.len() <= items[f.0 as int].hashes@.len()
            },
    decreases c.len() - i, c.len() - j,
{
    if i < 0 || i + 1 >= c.len() {
    } else if j >= c.len() {
        lemma_found_pairs_oriented(items, min_matches, rules, c, i + 1, i + 2);
        assert(found_from(items, min_matches, rules, c, i, j) == found_from(
            items,
            min_matches,
            rules,
            c,
            i + 1,
            i + 2,
        ));
    } else if j <= i {
        lemma_found_pairs_oriented(items, min_matches, rules, c, i, i + 1);
        assert(found_from(items, min_matches, rules, c, i, j) == found_from(
            items,
            min_matches,
            rules,
            c,
            i,
            i + 1,
        ));
    } else {
        lemma_found_pairs_oriented(items, min_matches, rules, c, i, j + 1);
        let rest = found_from(items, min_matches, rules, c, i, j + 1);
        let all = found_from(items, min_matches, rules, c, i, j);
        match pair_found(items, min_matches, rules, c[i], c[j]) {
            Some(f) => {
                assert(c[i] < c[j]);
                let (sh, lo) = oriented(items, c[i], c[j]);
                assert(f.0 == lo && f.1 == sh);
                assert(all[0] == f);
                assert forall|k: int| 0 <= k < all.len() implies {
                    let g = #[trigger] all[k];
                    &&& g.0 != g.1
                    &&& items[g.1 as int].hashes@.len() <= items[g.0 as int].hashes@.len()
                } by {
                    if k > 0 {
                        assert(all[k] == rest[k - 1]);
                    }
                }
            },
            None => {
                assert(all == rest);
            },
        }
    }
}

/// The candidates are in increasing position order.
proof fn lemma_candidates_increasing(items: Seq<TimelineItem>)
    requires
        items.len() <= usize::MAX,
    ensures
        forall|k: int| 0 <= k < timeline_candidates(items).len() ==> #[trigger] timeline_candidates(items)[k] < items.len(),
        forall|p: int, q: int|
            #![trigger timeline_candidates(items)[p], timeline_candidates(items)[q]]
            0 <= p < q < timeline_candidates(items).len() ==> timeline_candidates(items)[p]
                < timeline_candidates(items)[q],
    decreases items.len(),
{
    if items.len() > 0 {
        lemma_candidates_increasing(items.drop_last());
        let r = timeline_candidates(items.drop_last());
        let c = timeline_candidates(items);
        assert forall|k: int| 0 <= k < c.len() implies #[trigger] c[k] < items.len() by {
            if k < r.len() {
                assert(c[k] == r[k]);
            }
        }
        if in_timeline_scan(items.last()) {
            assert(c == r.push((items.len() - 1) as usize));
            assert forall|p: int, q: int| 0 <= p < q < c.len() implies c[p] < c[q] by {
                assert(c[p] == r[p]);
                assert(r[p] < items.drop_last().len());
                if q < r.len() {
                    assert(c[q] == r[q]);
                    assert(r[p] < r[q]);
                } else {
                    assert(c[q] == (items.len() - 1) as usize);
                }
            }
        }
    }
}

/// Every pair the timeline scan reports names two different files, the
/// first with a timeline at least as long as the second's.
pub proof fn lemma_timeline_pairs_oriented(
    items: Seq<TimelineItem>,
    min_matches: Seq<usize>,
    rules: TimelineRules,
)
    requires
        items.len() <= usize::MAX,
    ensures
        forall|k: int|
            0 <= k < found_from(items, min_matches, rules, timeline_candidates(items), 0, 1).len() ==> {
                let f = #[trigger] found_from(items, min_matches, rules, timeline_candidates(items), 0, 1)[k];
                &&& f.0 != f.1
                &&& items[f.1 as int].hashes@.len() <= items[f.0 as int].hashes@.len()
            },
{
    lemma_candidates_increasing(items);
    lemma_found_pairs_oriented(items, min_matches, rules, timeline_candidates(items), 0, 1);
}

proof fn lemma_found_from_complete(
    items: Seq<TimelineItem>,
    min_matches: Seq<usize>,
    rules: TimelineRules,
    c: Seq<usize>,
    i: int,
    j: int,
    p: int,
    q: int,
)
    requires
        0 <= i,
        0 <= p < q < c.len(),
        p > i || (p == i && q >= j),
        pair_found(items, min_matches, rules, c[p], c[q]) is Some,
    ensures
        found_from(items, min_matches, rules, c, i, j).contains(
            pair_found(items, min_matches, rules, c[p], c[q])->0,
        ),
    decreases c.len() - i, c.len() - j,
{
    let f = pair_found(items, min_matches, rules, c[p], c[q])->0;
    if i + 1 >= c.len() {
    } else if j >= c.len() {
        lemma_found_from_complete(items, min_matches, rules, c, i + 1, i + 2, p, q);
    } else if j <= i {
        lemma_found_from_complete(items, min_matches, rules, c, i, i + 1, p, q);
    } else {
        let rest = found_from(items, min_matches, rules, c, i, j + 1);
        let all = found_from(items, min_matches, rules, c, i, j);
        if p == i && q == j {
            assert(all == seq![f] + rest);
            assert(all[0] == f);
        } else {
            lemma_found_from_complete(items, min_matches, rules, c, i, j + 1, p, q);
            let k = choose|k: int| 0 <= k < rest.len() && rest[k] == f;
            match pair_found(items, min_matches, rules, c[i], c[j]) {
                Some(g) => {
                    assert(all == seq![g] + rest);
                    assert(all[k + 1] == f);
                },
                None => {
                    assert(all == rest);
                },
            }
        }
    }
}

/// The timeline scan misses no match: for any two candidate videos, earlier
/// and later in scan order, whose comparison (shorter timeline slid over the
/// longer one) passes the thresholds, the scan reports that pair, longer
/// file first, with the result of that comparison.
pub proof fn lemma_timeline_pairs_complete(
    items: Seq<TimelineItem>,
    min_matches: Seq<usize>,
    rules: TimelineRules,
    p: int,
    q: int,
)
    requires
        0 <= p < q < timeline_candidates(items).len(),
    ensures
        ({
            let c = timeline_candidates(items);
            let (s, l) = oriented(items, c[p], c[q]);
            let r = window_compare(
                items[s as int].hashes@,
                items[l as int].hashes@,
                rules.min_same_bits,
                rules.max_gap as nat,
            );
            match r {
                Some((m, off, run)) => m >= min_matches[items[s as int].hashes@.len() as int]
                    && run >= rules.min_consecutive ==> found_from(
                    items,
                    min_matches,
                    rules,
                    c,
                    0,
                    1,
                ).contains((l, s, m, off, run)),
                None => true,
            }
        }),
{
    let c = timeline_candidates(items);
    let (s, l) = oriented(items, c[p], c[q]);
    let r = window_compare(
        items[s as int].hashes@,
        items[l as int].hashes@,
        rules.min_same_bits,
        rules.max_gap as nat,
    );
    if passes(r, min_matches[items[s as int].hashes@.len() as int] as nat, rules.min_consecutive as nat) {
        lemma_found_from_complete(items, min_matches, rules, c, 0, 1, p, q);
    }
}

proof fn lemma_found_from_sound(
    items: Seq<TimelineItem>,
    min_matches: Seq<usize>,
    rules: TimelineRules,
    c: Seq<usize>,
    i: int,
    j: int,
)
    requires
        0 <= i,
    ensures
        forall|k: int|
            0 <= k < found_from(items, min_matches, rules, c, i, j).len() ==> exists|p: int, q: int|
                0 <= p < q < c.len() && pair_found(items, min_matches, rules, c[p], c[q]) == Some(
                    #[trigger] found_from(items, min_matches, rules, c, i, j)[k],
                ),
    decreases c.len() - i, c.len() - j,
{
    if i + 1 >= c.len() {
        assert(found_from(items, min_matches, rules, c, i, j).len() == 0);
    } else if j >= c.len() {
        lemma_found_from_sound(items, min_matches, rules, c, i + 1, i + 2);
        assert(found_from(items, min_matches, rules, c, i, j) == found_from(
            items,
            min_matches,
            rules,
            c,
            i + 1,
            i + 2,
        ));
    } else if j <= i {
        lemma_found_from_sound(items, min_matches, rules, c, i, i + 1);
        assert(found_from(items, min_matches, rules, c, i, j) == found_from(
            items,
            min_matches,
            rules,
            c,
            i,
            i + 1,
        ));
    } else {
        lemma_found_from_sound(items, min_matches, rules, c, i, j + 1);
        let rest = found_from(items, min_matches, rules, c, i, j + 1);
        let all = found_from(items, min_matches, rules, c, i, j);
        match pair_found(items, min_matches, rules, c[i], c[j]) {
            Some(g) => {
                assert(all == seq![g] + rest);
                assert forall|k: int| 0 <= k < all.len() implies exists|p: int, q: int|
                    0 <= p < q < c.len() && pair_found(items, min_matches, rules, c[p], c[q]) == Some(
                        #[trigger] all[k],
                    ) by {
                    if k == 0 {
                        assert(pair_found(items, min_matches, rules, c[i], c[j]) == Some(all[0]));
                    } else {
                        assert(all[k] == rest[k - 1]);
                    }
                }
            },
            None => {
                assert(all == rest);
            },
        }
    }
}

/// The timeline scan reports nothing but matches: every pair it reports is
/// the passing comparison of two candidate videos, earlier and later in
/// scan order.
pub proof fn lemma_timeline_pairs_sound(items: Seq<TimelineItem>, min_matches: Seq<usize>, rules: TimelineRules)
    ensures
        forall|k: int|
            0 <= k < found_from(items, min_matches, rules, timeline_candidates(items), 0, 1).len()
                ==> exists|p: int, q: int|
                0 <= p < q < timeline_candidates(items).len() && pair_found(
                    items,
                    min_matches,
                    rules,
                    timeline_candidates(items)[p],
                    timeline_candidates(items)[q],
                ) == Some(#[trigger] found_from(items, min_matches, rules, timeline_candidates(items), 0, 1)[k]),
{
    lemma_found_from_sound(items, min_matches, rules, timeline_candidates(items), 0, 1);
}

} // verus!
