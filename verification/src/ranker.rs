//! Picks the file to keep from a group of duplicates, and marks the best
//! file of the group on each quality axis.
//!
//! Each criterion is "higher value wins".  On a tie the next criterion runs
//! only against the tied subset; walking stops as soon as the subset is down
//! to one file, and the best of the last criterion applied wins when the
//! criteria run out.  Scores are integers: for values the caller measures
//! in floating point (duration, frame rate), an order-preserving integer
//! stands for each, so that two files tie exactly when their values are
//! equal.

use crate::selection::{contains_str, str_contains};
use vstd::prelude::*;

verus! {

/// The quality measures of one file of a duplicate group.
#[derive(Debug, Clone, Copy)]
pub struct QualityScores {
    /// Whether the file is an image.
    pub is_image: bool,
    /// Duration (order-preserving integer).
    pub duration: i64,
    /// Size in bytes (smaller is better).
    pub size_bytes: u64,
    /// Frame rate (order-preserving integer).
    pub fps: i64,
    pub video_bitrate: i64,
    pub audio_sample_rate: i64,
    pub audio_bitrate: i64,
    pub hdr_rank: i64,
    /// Width times height.
    pub frame_area: u64,
}

/// A quality axis.
#[derive(Debug, Clone, Copy, PartialEq, Eq, Structural)]
pub enum Axis {
    Duration,
    SizeSmallest,
    Fps,
    VideoBitrate,
    AudioSampleRate,
    AudioBitrate,
    HdrRank,
    FrameArea,
}

/// The score of a file on an axis; higher is better.
pub open spec fn axis_score(q: QualityScores, a: Axis) -> int {
    match a {
        Axis::Duration => q.duration as int,
        Axis::SizeSmallest => -(q.size_bytes as int),
        Axis::Fps => q.fps as int,
        Axis::VideoBitrate => q.video_bitrate as int,
        Axis::AudioSampleRate => q.audio_sample_rate as int,
        Axis::AudioBitrate => q.audio_bitrate as int,
        Axis::HdrRank => q.hdr_rank as int,
        Axis::FrameArea => q.frame_area as int,
    }
}

fn score(q: &QualityScores, a: Axis) -> (r: i128)
    ensures
        r == axis_score(*q, a),
{
    match a {
        Axis::Duration => q.duration as i128,
        Axis::SizeSmallest => -(q.size_bytes as i128),
        Axis::Fps => q.fps as i128,
        Axis::VideoBitrate => q.video_bitrate as i128,
        Axis::AudioSampleRate => q.audio_sample_rate as i128,
        Axis::AudioBitrate => q.audio_bitrate as i128,
        Axis::HdrRank => q.hdr_rank as i128,
        Axis::FrameArea => q.frame_area as i128,
    }
}

/// A ranked quality signal.
#[derive(Debug, Clone, Copy)]
pub struct Criterion {
    pub name: &'static str,
    pub axis: Axis,
    /// Skipped when all remaining candidates are images.
    pub video_only: bool,
}

impl Criterion {
    pub fn new(name: &'static str, axis: Axis, video_only: bool) -> (r: Self)
        ensures
            r.name == name,
            r.axis == axis,
            r.video_only == video_only,
    {
        Criterion { name, axis, video_only }
    }
}

/// The default criteria, by priority: longest duration, smallest size,
/// highest frame rate, video bit rate, audio sample rate, audio bit rate,
/// HDR format rank (all for video only), then largest frame area.
pub open spec fn default_axes() -> Seq<(Axis, bool)> {
    seq![
        (Axis::Duration, true),
        (Axis::SizeSmallest, false),
        (Axis::Fps, true),
        (Axis::VideoBitrate, true),
        (Axis::AudioSampleRate, true),
        (Axis::AudioBitrate, true),
        (Axis::HdrRank, true),
        (Axis::FrameArea, false),
    ]
}

/// The default ordered criterion list.
pub fn default_criteria() -> (r: Vec<Criterion>)
    ensures
        r@.len() == 8,
        forall|k: int| 0 <= k < 8 ==> (r@[k].axis, r@[k].video_only) == default_axes()[k],
{
    let mut v: Vec<Criterion> = Vec::new();
    v.push(Criterion::new("duration", Axis::Duration, true));
    v.push(Criterion::new("size_smallest", Axis::SizeSmallest, false));
    v.push(Criterion::new("fps", Axis::Fps, true));
    v.push(Criterion::new("video_bitrate", Axis::VideoBitrate, true));
    v.push(Criterion::new("audio_sample_rate", Axis::AudioSampleRate, true));
    v.push(Criterion::new("audio_bitrate", Axis::AudioBitrate, true));
    v.push(Criterion::new("hdr_rank", Axis::HdrRank, true));
    v.push(Criterion::new("frame_area", Axis::FrameArea, false));
    v
}

// ─── pick_keeper ─────────────────────────────────────────────────────────────

/// Whether all the candidates are images.
pub open spec fn all_images(items: Seq<QualityScores>, cands: Seq<usize>) -> bool {
    forall|j: int| 0 <= j < cands.len() ==> #[trigger] items[cands[j] as int].is_image
}

/// The candidates whose score on `a` is `v`, in order.
pub open spec fn ties(items: Seq<QualityScores>, cands: Seq<usize>, a: Axis, v: int) -> Seq<usize>
    decreases cands.len(),
{
    if cands.len() == 0 {
        cands
    } else {
        let rest = ties(items, cands.drop_last(), a, v);
        if axis_score(items[cands.last() as int], a) == v {
            rest.push(cands.last())
        } else {
            rest
        }
    }
}

/// The best candidate on `a`; among equal bests, the last.
pub open spec fn best_of(items: Seq<QualityScores>, cands: Seq<usize>, a: Axis) -> usize
    decreases cands.len(),
{
    if cands.len() <= 1 {
        cands[0]
    } else {
        let b = best_of(items, cands.drop_last(), a);
        if axis_score(items[cands.last() as int], a) >= axis_score(items[b as int], a) {
            cands.last()
        } else {
            b
        }
    }
}

/// The walk over the criteria from criterion `k` on, with the candidates
/// still in the running, the current keeper and the last criterion applied.
pub open spec fn keeper_from(
    items: Seq<QualityScores>,
    crits: Seq<Criterion>,
    k: int,
    cands: Seq<usize>,
    keep: usize,
    last: Option<Axis>,
) -> usize
    decreases crits.len() - k,
{
    if k < 0 || k >= crits.len() {
        keep
    } else if crits[k].video_only && all_images(items, cands) {
        keeper_from(items, crits, k + 1, cands, keep, last)
    } else {
        match last {
            Some(la) => {
                let nc = ties(items, cands, la, axis_score(items[keep as int], la));
                if nc.len() <= 1 {
                    keep
                } else {
                    keeper_from(
                        items,
                        crits,
                        k + 1,
                        nc,
                        best_of(items, nc, crits[k].axis),
                        Some(crits[k].axis),
                    )
                }
            },
            None => keeper_from(
                items,
                crits,
                k + 1,
                cands,
                best_of(items, cands, crits[k].axis),
                Some(crits[k].axis),
            ),
        }
    }
}

/// All the indices of a group, in order.
pub open spec fn all_indices(n: nat) -> Seq<usize> {
    Seq::new(n, |i: int| i as usize)
}

/// The index of the file to keep; none for an empty group.
pub open spec fn keeper(items: Seq<QualityScores>, crits: Seq<Criterion>) -> Option<usize> {
    if items.len() == 0 {
        None
    } else {
        Some(keeper_from(items, crits, 0, all_indices(items.len()), 0, None))
    }
}

/// Whether every candidate indexes into the group.
pub open spec fn valid_cands(n: nat, cands: Seq<usize>) -> bool {
    forall|j: int| 0 <= j < cands.len() ==> #[trigger] cands[j] < n
}

proof fn lemma_best_of_in(items: Seq<QualityScores>, cands: Seq<usize>, a: Axis)
    requires
        cands.len() >= 1,
    ensures
        cands.contains(best_of(items, cands, a)),
    decreases cands.len(),
{
    if cands.len() > 1 {
        lemma_best_of_in(items, cands.drop_last(), a);
        let b = best_of(items, cands.drop_last(), a);
        let j = choose|j: int| 0 <= j < cands.drop_last().len() && cands.drop_last()[j] == b;
        assert(cands[j] == b);
    } else {
        assert(cands[0] == best_of(items, cands, a));
    }
}

proof fn lemma_ties_facts(items: Seq<QualityScores>, cands: Seq<usize>, a: Axis, v: int, n: nat)
    requires
        valid_cands(n, cands),
    ensures
        valid_cands(n, ties(items, cands, a, v)),
        forall|j: int|
            0 <= j < ties(items, cands, a, v).len() ==> axis_score(
                items[ties(items, cands, a, v)[j] as int],
                a,
            ) == v,
        forall|j: int|
            0 <= j < ties(items, cands, a, v).len() ==> cands.contains(
                #[trigger] ties(items, cands, a, v)[j],
            ),
        forall|i: int|
            0 <= i < cands.len() && axis_score(items[cands[i] as int], a) == v ==> ties(
                items,
                cands,
                a,
                v,
            ).contains(cands[i]),
    decreases cands.len(),
{
    if cands.len() > 0 {
        let d = cands.drop_last();
        lemma_ties_facts(items, d, a, v, n);
        let rest = ties(items, d, a, v);
        let t = ties(items, cands, a, v);
        assert forall|j: int| 0 <= j < t.len() implies cands.contains(#[trigger] t[j]) by {
            if j < rest.len() {
                assert(t[j] == rest[j]);
                let m = choose|m: int| 0 <= m < d.len() && d[m] == rest[j];
                assert(cands[m] == d[m]);
            } else {
                assert(t[j] == cands.last());
                assert(cands[cands.len() - 1] == cands.last());
            }
        }
        assert forall|i: int|
            0 <= i < cands.len() && axis_score(items[cands[i] as int], a) == v implies t.contains(
            cands[i],
        ) by {
            if i < cands.len() - 1 {
                assert(d[i] == cands[i]);
                assert(rest.contains(d[i]));
                let m = choose|m: int| 0 <= m < rest.len() && rest[m] == d[i];
                assert(t[m] == rest[m]);
            } else {
                assert(t[t.len() - 1] == cands[i]);
            }
        }
    }
}

fn all_images_exec(items: &Vec<QualityScores>, cands: &Vec<usize>) -> (r: bool)
    requires
        valid_cands(items@.len(), cands@),
    ensures
        r == all_images(items@, cands@),
{
    let mut j: usize = 0;
    while j < cands.len()
        invariant
            j <= cands@.len(),
            valid_cands(items@.len(), cands@),
            forall|m: int| 0 <= m < j ==> #[trigger] items@[cands@[m] as int].is_image,
        decreases cands@.len() - j,
    {
        if !items[cands[j]].is_image {
            return false;
        }
        j = j + 1;
    }
    true
}

fn ties_exec(items: &Vec<QualityScores>, cands: &Vec<usize>, a: Axis, v: i128) -> (r: Vec<usize>)
    requires
        valid_cands(items@.len(), cands@),
    ensures
        r@ == ties(items@, cands@, a, v as int),
{
    let mut out: Vec<usize> = Vec::new();
    let mut j: usize = 0;
    while j < cands.len()
        invariant
            j <= cands@.len(),
            valid_cands(items@.len(), cands@),
            out@ == ties(items@, cands@.take(j as int), a, v as int),
        decreases cands@.len() - j,
    {
        proof {
            assert(cands@.take(j + 1).drop_last() =~= cands@.take(j as int));
        }
        if score(&items[cands[j]], a) == v {
            out.push(cands[j]);
        }
        j = j + 1;
    }
    proof {
        assert(cands@.take(cands@.len() as int) =~= cands@);
    }
    out
}

fn best_exec(items: &Vec<QualityScores>, cands: &Vec<usize>, a: Axis) -> (r: usize)
    requires
        cands@.len() >= 1,
        valid_cands(items@.len(), cands@),
    ensures
        r == best_of(items@, cands@, a),
{
    let mut best: usize = cands[0];
    let mut j: usize = 1;
    proof {
        assert(cands@.take(1).len() == 1);
        assert(cands@.take(1)[0] == cands@[0]);
    }
    while j < cands.len()
        invariant
            1 <= j <= cands@.len(),
            valid_cands(items@.len(), cands@),
            best == best_of(items@, cands@.take(j as int), a),
            best < items@.len(),
        decreases cands@.len() - j,
    {
        proof {
            assert(cands@.take(j + 1).drop_last() =~= cands@.take(j as int));
        }
        let c = cands[j];
        if score(&items[c], a) >= score(&items[best], a) {
            best = c;
        }
        j = j + 1;
    }
    proof {
        assert(cands@.take(cands@.len() as int) =~= cands@);
    }
    best
}

/// Returns the index of the file that should be kept from `items`: walk the
/// criteria in priority order, narrow to the files that tied with the
/// keeper on the previous criterion, take the best on the current one
/// (the last among equal bests), and stop once one file is left.
pub fn pick_keeper(items: &Vec<QualityScores>, criteria: &Vec<Criterion>) -> (r: Option<usize>)
    ensures
        r == keeper(items@, criteria@),
        r is Some ==> r->0 < items@.len(),
        r is None <==> items@.len() == 0,
{
    let n = items.len();
    if n == 0 {
        return None;
    }
    let mut cands: Vec<usize> = Vec::new();
    let mut i: usize = 0;
    while i < n
        invariant
            i <= n == items@.len(),
            cands@ == all_indices(i as nat),
        decreases n - i,
    {
        cands.push(i);
        proof {
            assert(cands@ =~= all_indices((i + 1) as nat));
        }
        i = i + 1;
    }
    let mut keep: usize = 0;
    let mut last: Option<Axis> = None;
    let mut k: usize = 0;
    proof {
        assert(cands@[0] == 0);
    }
    while k < criteria.len()
        invariant
            n == items@.len() > 0,
            k <= criteria@.len(),
            valid_cands(n as nat, cands@),
            keep < n,
            cands@.contains(keep),
            keeper(items@, criteria@) == Some(
                keeper_from(items@, criteria@, k as int, cands@, keep, last),
            ),
        decreases criteria@.len() - k,
    {
        let c = criteria[k];
        if c.video_only && all_images_exec(items, &cands) {
            k = k + 1;
            continue;
        }
        match last {
            Some(la) => {
                let v = score(&items[keep], la);
                let nc = ties_exec(items, &cands, la, v);
                proof {
                    lemma_ties_facts(items@, cands@, la, v as int, n as nat);
                    let m = choose|m: int| 0 <= m < cands@.len() && cands@[m] == keep;
                    assert(nc@.contains(cands@[m]));
                }
                if nc.len() <= 1 {
                    return Some(keep);
                }
                cands = nc;
            },
            None => {},
        }
        proof {
            lemma_best_of_in(items@, cands@, c.axis);
        }
        keep = best_exec(items, &cands, c.axis);
        last = Some(c.axis);
        k = k + 1;
    }
    Some(keep)
}

/// The first criterion, from `k` on, that applies to the whole group.
pub open spec fn first_applied(items: Seq<QualityScores>, crits: Seq<Criterion>, k: int) -> int
    decreases crits.len() - k,
{
    if k < 0 || k >= crits.len() {
        -1
    } else if crits[k].video_only && all_images(items, all_indices(items.len())) {
        first_applied(items, crits, k + 1)
    } else {
        k
    }
}

proof fn lemma_best_of_top(items: Seq<QualityScores>, cands: Seq<usize>, a: Axis)
    requires
        cands.len() >= 1,
    ensures
        forall|j: int|
            0 <= j < cands.len() ==> axis_score(items[cands[j] as int], a) <= axis_score(
                items[best_of(items, cands, a) as int],
                a,
            ),
    decreases cands.len(),
{
    if cands.len() > 1 {
        lemma_best_of_top(items, cands.drop_last(), a);
        assert forall|j: int| 0 <= j < cands.len() - 1 implies cands[j] == cands.drop_last()[j] by {}
    }
}

/// Whether every candidate scores highest on `a` in the whole group.
pub open spec fn all_top(items: Seq<QualityScores>, cands: Seq<usize>, a: Axis) -> bool {
    forall|j: int| 0 <= j < cands.len() ==> is_top(items, #[trigger] cands[j] as int, a)
}

proof fn lemma_keeper_from_top(
    items: Seq<QualityScores>,
    crits: Seq<Criterion>,
    k: int,
    cands: Seq<usize>,
    keep: usize,
    la: Axis,
    a0: Axis,
)
    requires
        0 <= k,
        valid_cands(items.len(), cands),
        cands.contains(keep),
        (la == a0 && is_top(items, keep as int, a0)) || all_top(items, cands, a0),
    ensures
        is_top(items, keeper_from(items, crits, k, cands, keep, Some(la)) as int, a0),
    decreases crits.len() - k,
{
    if k < crits.len() {
        if crits[k].video_only && all_images(items, cands) {
            lemma_keeper_from_top(items, crits, k + 1, cands, keep, la, a0);
        } else {
            let v = axis_score(items[keep as int], la);
            let nc = ties(items, cands, la, v);
            lemma_ties_facts(items, cands, la, v, items.len());
            let m = choose|m: int| 0 <= m < cands.len() && cands[m] == keep;
            assert(nc.contains(cands[m]));
            if nc.len() > 1 {
                let a = crits[k].axis;
                lemma_best_of_in(items, nc, a);
                assert(all_top(items, nc, a0)) by {
                    assert forall|j: int| 0 <= j < nc.len() implies is_top(
                        items,
                        #[trigger] nc[j] as int,
                        a0,
                    ) by {
                        assert(cands.contains(nc[j]));
                        let t = choose|t: int| 0 <= t < cands.len() && cands[t] == nc[j];
                        if !all_top(items, cands, a0) {
                            assert(axis_score(items[nc[j] as int], la) == v);
                        } else {
                            assert(is_top(items, cands[t] as int, a0));
                        }
                    }
                }
                lemma_keeper_from_top(items, crits, k + 1, nc, best_of(items, nc, a), a, a0);
            } else if all_top(items, cands, a0) {
                assert(is_top(items, cands[m] as int, a0));
            }
        }
    } else if all_top(items, cands, a0) {
        let m = choose|m: int| 0 <= m < cands.len() && cands[m] == keep;
        assert(is_top(items, cands[m] as int, a0));
    }
}

proof fn lemma_keeper_skip(items: Seq<QualityScores>, crits: Seq<Criterion>, k: int)
    requires
        items.len() > 0,
        0 <= k <= first_applied(items, crits, k),
    ensures
        keeper_from(items, crits, k, all_indices(items.len()), 0, None) == keeper_from(
            items,
            crits,
            first_applied(items, crits, k),
            all_indices(items.len()),
            0,
            None,
        ),
    decreases crits.len() - k,
{
    if k < crits.len() && crits[k].video_only && all_images(items, all_indices(items.len())) {
        lemma_first_applied_range(items, crits, k + 1);
        lemma_keeper_skip(items, crits, k + 1);
    }
}

/// The file kept scores highest, among all files of the group, on the first
/// criterion that applies to the group: later criteria only break ties.
pub proof fn lemma_keeper_is_best_on_first_criterion(
    items: Seq<QualityScores>,
    crits: Seq<Criterion>,
)
    requires
        0 < items.len() <= usize::MAX,
        first_applied(items, crits, 0) >= 0,
    ensures
        keeper(items, crits) is Some,
        keeper(items, crits)->0 < items.len(),
        is_top(
            items,
            keeper(items, crits)->0 as int,
            crits[first_applied(items, crits, 0)].axis,
        ),
{
    let n = items.len();
    let all = all_indices(n);
    let k0 = first_applied(items, crits, 0);
    let a0 = crits[k0].axis;
    lemma_first_applied_range(items, crits, 0);
    lemma_keeper_skip(items, crits, 0);
    assert(valid_cands(n, all));
    lemma_best_of_in(items, all, a0);
    lemma_best_of_top(items, all, a0);
    let b = best_of(items, all, a0);
    assert(is_top(items, b as int, a0)) by {
        assert forall|j: int| 0 <= j < n implies axis_score(items[j], a0) <= axis_score(
            items[b as int],
            a0,
        ) by {
            assert(all[j] == j as usize);
        }
    }
    assert(keeper_from(items, crits, k0, all, 0, None) == keeper_from(
        items,
        crits,
        k0 + 1,
        all,
        b,
        Some(a0),
    ));
    lemma_keeper_from_top(items, crits, k0 + 1, all, b, a0, a0);
    assert(all.contains(0usize)) by {
        assert(all[0] == 0usize);
    }
    lemma_keeper_from_valid(items, crits, k0 + 1, all, b, Some(a0));
}

proof fn lemma_first_applied_range(items: Seq<QualityScores>, crits: Seq<Criterion>, k: int)
    requires
        0 <= k,
    ensures
        first_applied(items, crits, k) == -1 || (k <= first_applied(items, crits, k) < crits.len()
            && !(crits[first_applied(items, crits, k)].video_only && all_images(
            items,
            all_indices(items.len()),
        ))),
    decreases crits.len() - k,
{
    if k < crits.len() && crits[k].video_only && all_images(items, all_indices(items.len())) {
        lemma_first_applied_range(items, crits, k + 1);
    }
}

/// The walk keeps an index into the group.
proof fn lemma_keeper_from_valid(
    items: Seq<QualityScores>,
    crits: Seq<Criterion>,
    k: int,
    cands: Seq<usize>,
    keep: usize,
    last: Option<Axis>,
)
    requires
        0 <= k,
        valid_cands(items.len(), cands),
        cands.contains(keep),
    ensures
        keeper_from(items, crits, k, cands, keep, last) < items.len(),
    decreases crits.len() - k,
{
    let m = choose|m: int| 0 <= m < cands.len() && cands[m] == keep;
    assert(cands[m] < items.len());
    if k < crits.len() {
        if crits[k].video_only && all_images(items, cands) {
            lemma_keeper_from_valid(items, crits, k + 1, cands, keep, last);
        } else {
            let a = crits[k].axis;
            match last {
                Some(la) => {
                    let v = axis_score(items[keep as int], la);
                    let nc = ties(items, cands, la, v);
                    lemma_ties_facts(items, cands, la, v, items.len());
                    assert(nc.contains(cands[m]));
                    if nc.len() > 1 {
                        lemma_best_of_in(items, nc, a);
                        lemma_keeper_from_valid(items, crits, k + 1, nc, best_of(items, nc, a), Some(a));
                    }
                },
                None => {
                    lemma_best_of_in(items, cands, a);
                    lemma_keeper_from_valid(items, crits, k + 1, cands, best_of(items, cands, a), Some(a));
                },
            }
        }
    }
}

/// Every score follows its measure: a larger duration, frame rate, video
/// bit rate, audio sample rate, audio bit rate, HDR rank or frame area never
/// scores lower, and a larger size never scores higher.
pub proof fn lemma_scores_follow_measures(p: QualityScores, q: QualityScores)
    ensures
        p.duration <= q.duration ==> axis_score(p, Axis::Duration) <= axis_score(q, Axis::Duration),
        p.size_bytes <= q.size_bytes ==> axis_score(q, Axis::SizeSmallest) <= axis_score(
            p,
            Axis::SizeSmallest,
        ),
        p.fps <= q.fps ==> axis_score(p, Axis::Fps) <= axis_score(q, Axis::Fps),
        p.video_bitrate <= q.video_bitrate ==> axis_score(p, Axis::VideoBitrate) <= axis_score(
            q,
            Axis::VideoBitrate,
        ),
        p.audio_sample_rate <= q.audio_sample_rate ==> axis_score(p, Axis::AudioSampleRate)
            <= axis_score(q, Axis::AudioSampleRate),
        p.audio_bitrate <= q.audio_bitrate ==> axis_score(p, Axis::AudioBitrate) <= axis_score(
            q,
            Axis::AudioBitrate,
        ),
        p.hdr_rank <= q.hdr_rank ==> axis_score(p, Axis::HdrRank) <= axis_score(q, Axis::HdrRank),
        p.frame_area <= q.frame_area ==> axis_score(p, Axis::FrameArea) <= axis_score(
            q,
            Axis::FrameArea,
        ),
{
}

proof fn lemma_ties_all(items: Seq<QualityScores>, cands: Seq<usize>, a: Axis, v: int)
    requires
        forall|j: int| 0 <= j < cands.len() ==> axis_score(items[#[trigger] cands[j] as int], a) == v,
    ensures
        ties(items, cands, a, v) == cands,
    decreases cands.len(),
{
    if cands.len() > 0 {
        assert forall|j: int| 0 <= j < cands.drop_last().len() implies axis_score(
            items[#[trigger] cands.drop_last()[j] as int],
            a,
        ) == v by {
            assert(cands.drop_last()[j] == cands[j]);
        }
        lemma_ties_all(items, cands.drop_last(), a, v);
        assert(axis_score(items[cands[cands.len() - 1] as int], a) == v);
        assert(cands.drop_last().push(cands.last()) =~= cands);
    }
}

/// Under the default criteria, among videos that tie on duration, size and
/// frame rate the file kept has the highest video bit rate.
pub proof fn lemma_default_keeper_highest_video_bitrate(items: Seq<QualityScores>, crits: Seq<Criterion>)
    requires
        0 < items.len() <= usize::MAX,
        crits.len() == 8,
        forall|k: int| 0 <= k < 8 ==> (#[trigger] crits[k].axis, crits[k].video_only) == default_axes()[k],
        exists|i: int| 0 <= i < items.len() && !(#[trigger] items[i].is_image),
        forall|i: int, j: int|
            0 <= i < items.len() && 0 <= j < items.len() ==> #[trigger] items[i].duration == #[trigger] items[j].duration
                && items[i].size_bytes == items[j].size_bytes && items[i].fps == items[j].fps,
    ensures
        keeper(items, crits) is Some,
        keeper(items, crits)->0 < items.len(),
        forall|j: int|
            0 <= j < items.len() ==> (#[trigger] items[j]).video_bitrate <= items[keeper(
                items,
                crits,
            )->0 as int].video_bitrate,
{
    let n = items.len();
    let all = all_indices(n);
    assert(valid_cands(n, all));
    assert(!all_images(items, all)) by {
        let i = choose|i: int| 0 <= i < items.len() && !(#[trigger] items[i].is_image);
        assert(all[i] == i as usize);
    }
    assert(crits[0].axis == Axis::Duration && crits[0].video_only);
    assert(crits[1].axis == Axis::SizeSmallest && !crits[1].video_only);
    assert(crits[2].axis == Axis::Fps && crits[2].video_only);
    assert(crits[3].axis == Axis::VideoBitrate && crits[3].video_only);
    assert forall|j: int| 0 <= j < n implies #[trigger] all[j] == j as usize by {}
    let k0 = best_of(items, all, Axis::Duration);
    lemma_best_of_in(items, all, Axis::Duration);
    assert(keeper_from(items, crits, 0, all, 0, None) == keeper_from(
        items,
        crits,
        1,
        all,
        k0,
        Some(Axis::Duration),
    ));
    let m0 = choose|m: int| 0 <= m < all.len() && all[m] == k0;
    lemma_ties_all(items, all, Axis::Duration, axis_score(items[k0 as int], Axis::Duration));
    if n == 1 {
        assert(keeper_from(items, crits, 1, all, k0, Some(Axis::Duration)) == k0);
        assert(k0 == 0);
    } else {
        let k1 = best_of(items, all, Axis::SizeSmallest);
        lemma_best_of_in(items, all, Axis::SizeSmallest);
        assert(keeper_from(items, crits, 1, all, k0, Some(Axis::Duration)) == keeper_from(
            items,
            crits,
            2,
            all,
            k1,
            Some(Axis::SizeSmallest),
        ));
        let m1 = choose|m: int| 0 <= m < all.len() && all[m] == k1;
        assert forall|j: int| 0 <= j < all.len() implies axis_score(
            items[#[trigger] all[j] as int],
            Axis::SizeSmallest,
        ) == axis_score(items[k1 as int], Axis::SizeSmallest) by {
            assert(items[j].duration == items[m1].duration);
        }
        lemma_ties_all(items, all, Axis::SizeSmallest, axis_score(items[k1 as int], Axis::SizeSmallest));
        let k2 = best_of(items, all, Axis::Fps);
        lemma_best_of_in(items, all, Axis::Fps);
        assert(keeper_from(items, crits, 2, all, k1, Some(Axis::SizeSmallest)) == keeper_from(
            items,
            crits,
            3,
            all,
            k2,
            Some(Axis::Fps),
        ));
        let m2 = choose|m: int| 0 <= m < all.len() && all[m] == k2;
        assert forall|j: int| 0 <= j < all.len() implies axis_score(
            items[#[trigger] all[j] as int],
            Axis::Fps,
        ) == axis_score(items[k2 as int], Axis::Fps) by {
            assert(items[j].duration == items[m2].duration);
        }
        lemma_ties_all(items, all, Axis::Fps, axis_score(items[k2 as int], Axis::Fps));
        let k3 = best_of(items, all, Axis::VideoBitrate);
        lemma_best_of_in(items, all, Axis::VideoBitrate);
        assert(keeper_from(items, crits, 3, all, k2, Some(Axis::Fps)) == keeper_from(
            items,
            crits,
            4,
            all,
            k3,
            Some(Axis::VideoBitrate),
        ));
        lemma_best_of_top(items, all, Axis::VideoBitrate);
        assert(is_top(items, k3 as int, Axis::VideoBitrate)) by {
            assert forall|j: int| 0 <= j < n implies axis_score(items[j], Axis::VideoBitrate)
                <= axis_score(items[k3 as int], Axis::VideoBitrate) by {
                assert(all[j] == j as usize);
            }
        }
        lemma_keeper_from_top(items, crits, 4, all, k3, Axis::VideoBitrate, Axis::VideoBitrate);
        lemma_keeper_from_valid(items, crits, 4, all, k3, Some(Axis::VideoBitrate));
    }
    let kp = keeper(items, crits)->0;
    assert forall|j: int| 0 <= j < n implies items[j].video_bitrate <= items[kp as int].video_bitrate by {
        if n > 1 {
            assert(axis_score(items[j], Axis::VideoBitrate) <= axis_score(items[kp as int], Axis::VideoBitrate));
        }
    }
}

// ─── Best flags ──────────────────────────────────────────────────────────────

/// The quality axes on which a file of a group is (one of) the best.
#[derive(Debug, Clone, Copy, Default)]
pub struct BestFlags {
    pub is_best_duration: bool,
    pub is_best_size: bool,
    pub is_best_fps: bool,
    pub is_best_bitrate: bool,
    pub is_best_audio_sample_rate: bool,
    pub is_best_audio_bitrate: bool,
    pub is_best_hdr_format: bool,
    pub is_best_frame_size: bool,
}

/// Whether file `i` scores highest on `a` in the group (ties included).
pub open spec fn is_top(items: Seq<QualityScores>, i: int, a: Axis) -> bool {
    forall|j: int| 0 <= j < items.len() ==> axis_score(items[j], a) <= axis_score(items[i], a)
}

/// Whether every file of the group is an image.
pub open spec fn group_all_images(items: Seq<QualityScores>) -> bool {
    forall|j: int| 0 <= j < items.len() ==> #[trigger] items[j].is_image
}

/// The flags of file `i`: best on each axis, the video axes only when the
/// group is not all images.
pub open spec fn flags_of(items: Seq<QualityScores>, i: int) -> BestFlags {
    let video = !group_all_images(items);
    BestFlags {
        is_best_duration: video && is_top(items, i, Axis::Duration),
        is_best_size: is_top(items, i, Axis::SizeSmallest),
        is_best_fps: video && is_top(items, i, Axis::Fps),
        is_best_bitrate: video && is_top(items, i, Axis::VideoBitrate),
        is_best_audio_sample_rate: video && is_top(items, i, Axis::AudioSampleRate),
        is_best_audio_bitrate: video && is_top(items, i, Axis::AudioBitrate),
        is_best_hdr_format: video && is_top(items, i, Axis::HdrRank),
        is_best_frame_size: is_top(items, i, Axis::FrameArea),
    }
}

/// A file is flagged best on an axis exactly when no file of the group has
/// a longer duration, higher frame rate, video bit rate, audio sample rate,
/// audio bit rate, HDR rank or frame area, or a smaller size; the
/// video-only axes are never flagged in a group of images.
pub proof fn lemma_best_flags_by_measure(items: Seq<QualityScores>, i: int)
    requires
        0 <= i < items.len(),
    ensures
        flags_of(items, i).is_best_duration == (!group_all_images(items) && forall|j: int| 0 <= j < items.len() ==> (#[trigger] items[j]).duration <= items[i].duration),
        flags_of(items, i).is_best_size == (forall|j: int| 0 <= j < items.len() ==> items[i].size_bytes <= (#[trigger] items[j]).size_bytes),
        flags_of(items, i).is_best_fps == (!group_all_images(items) && forall|j: int| 0 <= j < items.len() ==> (#[trigger] items[j]).fps <= items[i].fps),
        flags_of(items, i).is_best_bitrate == (!group_all_images(items) && forall|j: int| 0 <= j < items.len() ==> (#[trigger] items[j]).video_bitrate <= items[i].video_bitrate),
        flags_of(items, i).is_best_audio_sample_rate == (!group_all_images(items) && forall|j: int| 0 <= j < items.len() ==> (#[trigger] items[j]).audio_sample_rate <= items[i].audio_sample_rate),
        flags_of(items, i).is_best_audio_bitrate == (!group_all_images(items) && forall|j: int| 0 <= j < items.len() ==> (#[trigger] items[j]).audio_bitrate <= items[i].audio_bitrate),
        flags_of(items, i).is_best_hdr_format == (!group_all_images(items) && forall|j: int| 0 <= j < items.len() ==> (#[trigger] items[j]).hdr_rank <= items[i].hdr_rank),
        flags_of(items, i).is_best_frame_size == (forall|j: int| 0 <= j < items.len() ==> (#[trigger] items[j]).frame_area <= items[i].frame_area),
{
}

/// The highest score on `a` in a non-empty group.
fn axis_max(items: &Vec<QualityScores>, a: Axis) -> (m: i128)
    requires
        items@.len() > 0,
    ensures
        forall|j: int| 0 <= j < items@.len() ==> axis_score(items@[j], a) <= m,
        exists|j: int| 0 <= j < items@.len() && axis_score(items@[j], a) == m,
{
    let mut m = score(&items[0], a);
    let mut j: usize = 1;
    while j < items.len()
        invariant
            1 <= j <= items@.len(),
            forall|t: int| 0 <= t < j ==> axis_score(items@[t], a) <= m,
            exists|t: int| 0 <= t < j && axis_score(items@[t], a) == m,
        decreases items@.len() - j,
    {
        let s = score(&items[j], a);
        if s > m {
            m = s;
        }
        j = j + 1;
    }
    m
}

fn top_flag(items: &Vec<QualityScores>, i: usize, a: Axis, m: i128) -> (r: bool)
    requires
        i < items@.len(),
        forall|j: int| 0 <= j < items@.len() ==> axis_score(items@[j], a) <= m,
        exists|j: int| 0 <= j < items@.len() && axis_score(items@[j], a) == m,
    ensures
        r == is_top(items@, i as int, a),
{
    let r = score(&items[i], a) == m;
    proof {
        if !r {
            let j = choose|j: int| 0 <= j < items@.len() && axis_score(items@[j], a) == m;
            assert(axis_score(items@[j], a) > axis_score(items@[i as int], a));
        }
    }
    r
}

/// The best flags of every file of a duplicate group: on each quality axis
/// all files that share the winning value are marked; the video axes are
/// left unmarked when the group is all images.
pub fn compute_best_flags(group: &Vec<QualityScores>) -> (r: Vec<BestFlags>)
    ensures
        r@.len() == group@.len(),
        forall|i: int| 0 <= i < group@.len() ==> #[trigger] r@[i] == flags_of(group@, i),
{
    let n = group.len();
    let mut flags: Vec<BestFlags> = Vec::new();
    if n == 0 {
        return flags;
    }
    let mut all_img = true;
    let mut j: usize = 0;
    while j < n
        invariant
            j <= n == group@.len(),
            all_img == forall|t: int| 0 <= t < j ==> #[trigger] group@[t].is_image,
        decreases n - j,
    {
        if !group[j].is_image {
            all_img = false;
        }
        j = j + 1;
    }
    let video = !all_img;
    let m_dur = axis_max(group, Axis::Duration);
    let m_size = axis_max(group, Axis::SizeSmallest);
    let m_fps = axis_max(group, Axis::Fps);
    let m_vbr = axis_max(group, Axis::VideoBitrate);
    let m_asr = axis_max(group, Axis::AudioSampleRate);
    let m_abr = axis_max(group, Axis::AudioBitrate);
    let m_hdr = axis_max(group, Axis::HdrRank);
    let m_area = axis_max(group, Axis::FrameArea);
    let mut i: usize = 0;
    while i < n
        invariant
            i <= n == group@.len(),
            flags@.len() == i,
            video == !group_all_images(group@),
            forall|j: int| 0 <= j < group@.len() ==> axis_score(group@[j], Axis::Duration) <= m_dur,
            exists|j: int| 0 <= j < group@.len() && axis_score(group@[j], Axis::Duration) == m_dur,
            forall|j: int|
                0 <= j < group@.len() ==> axis_score(group@[j], Axis::SizeSmallest) <= m_size,
            exists|j: int|
                0 <= j < group@.len() && axis_score(group@[j], Axis::SizeSmallest) == m_size,
            forall|j: int| 0 <= j < group@.len() ==> axis_score(group@[j], Axis::Fps) <= m_fps,
            exists|j: int| 0 <= j < group@.len() && axis_score(group@[j], Axis::Fps) == m_fps,
            forall|j: int|
                0 <= j < group@.len() ==> axis_score(group@[j], Axis::VideoBitrate) <= m_vbr,
            exists|j: int|
                0 <= j < group@.len() && axis_score(group@[j], Axis::VideoBitrate) == m_vbr,
            forall|j: int|
                0 <= j < group@.len() ==> axis_score(group@[j], Axis::AudioSampleRate) <= m_asr,
            exists|j: int|
                0 <= j < group@.len() && axis_score(group@[j], Axis::AudioSampleRate) == m_asr,
            forall|j: int|
                0 <= j < group@.len() ==> axis_score(group@[j], Axis::AudioBitrate) <= m_abr,
            exists|j: int|
                0 <= j < group@.len() && axis_score(group@[j], Axis::AudioBitrate) == m_abr,
            forall|j: int| 0 <= j < group@.len() ==> axis_score(group@[j], Axis::HdrRank) <= m_hdr,
            exists|j: int| 0 <= j < group@.len() && axis_score(group@[j], Axis::HdrRank) == m_hdr,
            forall|j: int|
                0 <= j < group@.len() ==> axis_score(group@[j], Axis::FrameArea) <= m_area,
            exists|j: int|
                0 <= j < group@.len() && axis_score(group@[j], Axis::FrameArea) == m_area,
            forall|t: int| 0 <= t < i ==> #[trigger] flags@[t] == flags_of(group@, t),
        decreases n - i,
    {
        let f = BestFlags {
            is_best_duration: video && top_flag(group, i, Axis::Duration, m_dur),
            is_best_size: top_flag(group, i, Axis::SizeSmallest, m_size),
            is_best_fps: video && top_flag(group, i, Axis::Fps, m_fps),
            is_best_bitrate: video && top_flag(group, i, Axis::VideoBitrate, m_vbr),
            is_best_audio_sample_rate: video && top_flag(group, i, Axis::AudioSampleRate, m_asr),
            is_best_audio_bitrate: video && top_flag(group, i, Axis::AudioBitrate, m_abr),
            is_best_hdr_format: video && top_flag(group, i, Axis::HdrRank, m_hdr),
            is_best_frame_size: top_flag(group, i, Axis::FrameArea, m_area),
        };
        flags.push(f);
        i = i + 1;
    }
    flags
}

/// The rank of an HDR format name: Dolby Vision 4, HDR10+ 3, HDR10 2,
/// HLG 1, anything else (or none) 0, the first name found in it counting.
pub open spec fn hdr_rank_of(hdr_format: Option<Seq<char>>) -> u8 {
    match hdr_format {
        Some(f) => if contains_str(f, "Dolby Vision"@) {
            4
        } else if contains_str(f, "HDR10+"@) {
            3
        } else if contains_str(f, "HDR10"@) {
            2
        } else if contains_str(f, "HLG"@) {
            1
        } else {
            0
        },
        None => 0,
    }
}

/// The rank of the HDR format of a file's first video stream.
pub fn hdr_format_rank(hdr_format: Option<&str>) -> (r: u8)
    ensures
        r == hdr_rank_of(
            match hdr_format {
                Some(f) => Some(f@),
                None => None,
            },
        ),
{
    match hdr_format {
        None => 0,
        Some(f) => {
            if str_contains(f, "Dolby Vision") {
                4
            } else if str_contains(f, "HDR10+") {
                3
            } else if str_contains(f, "HDR10") {
                2
            } else if str_contains(f, "HLG") {
                1
            } else {
                0
            }
        },
    }
}

} // verus!
