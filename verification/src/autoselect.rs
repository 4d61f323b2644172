//! Automatic selection of the files to remove from duplicate clusters: keep
//! the best-quality file, keep the largest file, or, in clusters whose
//! files are all equal, keep the first.

use crate::ranker::{keeper, pick_keeper, Axis, Criterion, QualityScores};
use crate::selection::strings_view;
use crate::text::{chars_of, eq_str};
use vstd::prelude::*;

verus! {

// ─── Criteria from the user's order ──────────────────────────────────────────

/// The criterion a quality name stands for: its axis and whether it only
/// counts for videos.
pub open spec fn criterion_of(name: Seq<char>) -> Option<(Axis, bool)> {
    if name == "Duration"@ {
        Some((Axis::Duration, true))
    } else if name == "Resolution"@ {
        Some((Axis::FrameArea, false))
    } else if name == "FPS"@ {
        Some((Axis::Fps, true))
    } else if name == "Bitrate"@ {
        Some((Axis::VideoBitrate, true))
    } else if name == "Audio Bitrate"@ {
        Some((Axis::AudioBitrate, true))
    } else if name == "Size"@ {
        Some((Axis::SizeSmallest, false))
    } else {
        None
    }
}

/// All quality names, in their default order.
pub open spec fn all_criteria_names() -> Seq<Seq<char>> {
    seq!["Duration"@, "Resolution"@, "FPS"@, "Bitrate"@, "Audio Bitrate"@, "Size"@]
}

/// The known names of the user's order, each at its first occurrence.
pub open spec fn chosen_names(order: Seq<Seq<char>>) -> Seq<Seq<char>>
    decreases order.len(),
{
    if order.len() == 0 {
        Seq::empty()
    } else {
        let r = chosen_names(order.drop_last());
        if criterion_of(order.last()) is Some && !r.contains(order.last()) {
            r.push(order.last())
        } else {
            r
        }
    }
}

/// The names of `all` that are not in `chosen`, in order.
pub open spec fn missing_names(all: Seq<Seq<char>>, chosen: Seq<Seq<char>>) -> Seq<Seq<char>>
    decreases all.len(),
{
    if all.len() == 0 {
        Seq::empty()
    } else {
        let r = missing_names(all.drop_last(), chosen);
        if chosen.contains(all.last()) {
            r
        } else {
            r.push(all.last())
        }
    }
}

/// The names the criteria are built from: the user's order, then every
/// name it leaves out as a final tie-breaker.
pub open spec fn criteria_names(order: Seq<Seq<char>>) -> Seq<Seq<char>> {
    chosen_names(order) + missing_names(all_criteria_names(), chosen_names(order))
}

/// The criteria of a list of names, in order.
pub open spec fn criteria_match(crits: Seq<Criterion>, names: Seq<Seq<char>>) -> bool {
    &&& crits.len() == names.len()
    &&& forall|k: int|
        0 <= k < crits.len() ==> criterion_of(#[trigger] names[k]) == Some(
            (crits[k].axis, crits[k].video_only),
        )
}

fn criterion_for(name: &Vec<char>) -> (r: Option<Criterion>)
    ensures
        match r {
            Some(c) => criterion_of(name@) == Some((c.axis, c.video_only)),
            None => criterion_of(name@) is None,
        },
{
    if eq_str(name, "Duration") {
        Some(Criterion::new("duration", Axis::Duration, true))
    } else if eq_str(name, "Resolution") {
        Some(Criterion::new("frame_area", Axis::FrameArea, false))
    } else if eq_str(name, "FPS") {
        Some(Criterion::new("fps", Axis::Fps, true))
    } else if eq_str(name, "Bitrate") {
        Some(Criterion::new("video_bitrate", Axis::VideoBitrate, true))
    } else if eq_str(name, "Audio Bitrate") {
        Some(Criterion::new("audio_bitrate", Axis::AudioBitrate, true))
    } else if eq_str(name, "Size") {
        Some(Criterion::new("size_smallest", Axis::SizeSmallest, false))
    } else {
        None
    }
}

fn contains_chars(list: &Vec<Vec<char>>, name: &Vec<char>) -> (r: bool)
    ensures
        r == list@.map_values(|v: Vec<char>| v@).contains(name@),
{
    let ghost views = list@.map_values(|v: Vec<char>| v@);
    let mut i: usize = 0;
    while i < list.len()
        invariant
            i <= list@.len(),
            views == list@.map_values(|v: Vec<char>| v@),
            forall|k: int| 0 <= k < i ==> views[k] != name@,
        decreases list@.len() - i,
    {
        if crate::text::chars_equal(&list[i], name) {
            assert(views[i as int] == name@);
            return true;
        }
        i = i + 1;
    }
    false
}

/// The ranking criteria for a user's order of quality names: the known
/// names in that order (repeats ignored), then the names it leaves out.
pub fn build_criteria_from_order(order: &Vec<String>) -> (r: Vec<Criterion>)
    ensures
        criteria_match(r@, criteria_names(strings_view(order@))),
{
    let ghost ord = strings_view(order@);
    let mut seen: Vec<Vec<char>> = Vec::new();
    let mut crits: Vec<Criterion> = Vec::new();
    let mut i: usize = 0;
    while i < order.len()
        invariant
            i <= order@.len(),
            ord == strings_view(order@),
            seen@.map_values(|v: Vec<char>| v@) == chosen_names(ord.take(i as int)),
            criteria_match(crits@, chosen_names(ord.take(i as int))),
        decreases order@.len() - i,
    {
        proof {
            assert(ord.take(i + 1).drop_last() =~= ord.take(i as int));
            assert(ord.take(i + 1).last() == order@[i as int]@);
        }
        let name = chars_of(order[i].as_str());
        let already = contains_chars(&seen, &name);
        if !already {
            match criterion_for(&name) {
                Some(c) => {
                    let ghost before = seen@.map_values(|v: Vec<char>| v@);
                    seen.push(name);
                    crits.push(c);
                    proof {
                        assert(seen@.map_values(|v: Vec<char>| v@) =~= before.push(order@[i as int]@));
                    }
                },
                None => {},
            }
        }
        i = i + 1;
    }
    proof {
        assert(ord.take(order@.len() as int) =~= ord);
    }
    let ghost chosen = chosen_names(ord);
    let ghost base = crits@.len();
    let all: [&str; 6] = ["Duration", "Resolution", "FPS", "Bitrate", "Audio Bitrate", "Size"];
    let mut j: usize = 0;
    while j < 6
        invariant
            j <= 6,
            chosen == chosen_names(ord),
            seen@.map_values(|v: Vec<char>| v@) == chosen,
            all@ == seq!["Duration", "Resolution", "FPS", "Bitrate", "Audio Bitrate", "Size"],
            criteria_match(crits@, chosen + missing_names(all_criteria_names().take(j as int), chosen)),
        decreases 6 - j,
    {
        proof {
            assert(all_criteria_names().take(j + 1).drop_last() =~= all_criteria_names().take(j as int));
            assert(all_criteria_names().take(j + 1).last() == all@[j as int]@);
        }
        let name = chars_of(all[j]);
        if !contains_chars(&seen, &name) {
            match criterion_for(&name) {
                Some(c) => {
                    crits.push(c);
                    proof {
                        let prev = chosen + missing_names(all_criteria_names().take(j as int), chosen);
                        let next = chosen + missing_names(all_criteria_names().take(j + 1), chosen);
                        assert(next =~= prev.push(all@[j as int]@));
                    }
                },
                None => {
                    proof {
                        assert(false);
                    }
                },
            }
        } else {
            proof {
                let prev = chosen + missing_names(all_criteria_names().take(j as int), chosen);
                let next = chosen + missing_names(all_criteria_names().take(j + 1), chosen);
                assert(next =~= prev);
            }
        }
        j = j + 1;
    }
    proof {
        assert(all_criteria_names().take(6) =~= all_criteria_names());
    }
    crits
}

// ─── Auto-select ─────────────────────────────────────────────────────────────

/// One duplicate cluster as the auto-select actions see it.
pub struct AutoCluster {
    pub ids: Vec<String>,
    /// The quality measures of each file, in the order of `ids`.
    pub scores: Vec<QualityScores>,
    /// Whether the cluster's best similarity counts as a 100% match.
    pub fully_equal: bool,
}

/// The ids other than `keep`, in order.
pub open spec fn ids_other_than(ids: Seq<String>, keep: Seq<char>) -> Seq<Seq<char>>
    decreases ids.len(),
{
    if ids.len() == 0 {
        Seq::empty()
    } else {
        let r = ids_other_than(ids.drop_last(), keep);
        if ids.last()@ == keep {
            r
        } else {
            r.push(ids.last()@)
        }
    }
}

/// What the best-quality action removes from a cluster of two or more
/// files: every file whose id differs from the keeper's.
pub open spec fn best_quality_removals(c: AutoCluster, crits: Seq<Criterion>) -> Seq<Seq<char>> {
    if c.ids@.len() < 2 {
        Seq::empty()
    } else {
        match keeper(c.scores@, crits) {
            Some(k) => ids_other_than(c.ids@, c.ids@[k as int]@),
            None => Seq::empty(),
        }
    }
}

/// Among the first `m` files, the last of the largest.
pub open spec fn largest_index(scores: Seq<QualityScores>, m: int) -> int
    decreases m,
{
    if m <= 1 {
        0
    } else {
        let b = largest_index(scores, m - 1);
        if scores[m - 1].size_bytes >= scores[b].size_bytes {
            m - 1
        } else {
            b
        }
    }
}

/// What the keep-largest action removes from a cluster of two or more
/// files: every file whose id differs from the largest file's.
pub open spec fn largest_removals(c: AutoCluster) -> Seq<Seq<char>> {
    if c.ids@.len() < 2 {
        Seq::empty()
    } else {
        ids_other_than(c.ids@, c.ids@[largest_index(c.scores@, c.ids@.len() as int)]@)
    }
}

/// What the all-equal action removes from a cluster: all files but the
/// first, when the cluster is a 100% match.
pub open spec fn equal_removals(c: AutoCluster) -> Seq<Seq<char>> {
    if c.fully_equal && c.ids@.len() >= 1 {
        strings_view(c.ids@.skip(1))
    } else {
        Seq::empty()
    }
}

/// The clusters' removals, one cluster after another.
pub open spec fn concat_removals(
    clusters: Seq<AutoCluster>,
    removals: spec_fn(AutoCluster) -> Seq<Seq<char>>,
) -> Seq<Seq<char>>
    decreases clusters.len(),
{
    if clusters.len() == 0 {
        Seq::empty()
    } else {
        concat_removals(clusters.drop_last(), removals) + removals(clusters.last())
    }
}

/// Each cluster has one quality record per file.
pub open spec fn clusters_wf(clusters: Seq<AutoCluster>) -> bool {
    forall|k: int| 0 <= k < clusters.len() ==> (#[trigger] clusters[k]).ids@.len() == clusters[k].scores@.len()
}

fn push_others(out: &mut Vec<String>, ids: &Vec<String>, keep: &String)
    ensures
        strings_view(final(out)@) == strings_view(old(out)@) + ids_other_than(ids@, keep@),
{
    let ghost base = strings_view(out@);
    let mut i: usize = 0;
    while i < ids.len()
        invariant
            i <= ids@.len(),
            strings_view(out@) == base + ids_other_than(ids@.take(i as int), keep@),
        decreases ids@.len() - i,
    {
        proof {
            assert(ids@.take(i + 1).drop_last() =~= ids@.take(i as int));
            assert(ids@.take(i + 1).last() == ids@[i as int]);
        }
        if ids[i] != *keep {
            let ghost before = strings_view(out@);
            out.push(ids[i].clone());
            proof {
                assert(strings_view(out@) =~= before.push(ids@[i as int]@));
            }
        }
        i = i + 1;
    }
    proof {
        assert(ids@.take(ids@.len() as int) =~= ids@);
    }
}

/// "Best quality (keep)": in every cluster of two or more files, selects
/// all files but the one the ranker keeps under the given criteria.
pub fn select_keep_best(clusters: &Vec<AutoCluster>, criteria: &Vec<Criterion>) -> (to_remove: Vec<String>)
    requires
        clusters_wf(clusters@),
    ensures
        strings_view(to_remove@) == concat_removals(
            clusters@,
            |c: AutoCluster| best_quality_removals(c, criteria@),
        ),
{
    let ghost f = |c: AutoCluster| best_quality_removals(c, criteria@);
    let mut out: Vec<String> = Vec::new();
    let mut k: usize = 0;
    while k < clusters.len()
        invariant
            k <= clusters@.len(),
            clusters_wf(clusters@),
            f == (|c: AutoCluster| best_quality_removals(c, criteria@)),
            strings_view(out@) == concat_removals(clusters@.take(k as int), f),
        decreases clusters@.len() - k,
    {
        proof {
            assert(clusters@.take(k + 1).drop_last() =~= clusters@.take(k as int));
            assert(clusters@.take(k + 1).last() == clusters@[k as int]);
            assert(clusters@[k as int].ids@.len() == clusters@[k as int].scores@.len());
        }
        let c = &clusters[k];
        let ghost base = strings_view(out@);
        if c.ids.len() >= 2 {
            match pick_keeper(&c.scores, criteria) {
                Some(keep) => {
                    push_others(&mut out, &c.ids, &c.ids[keep]);
                },
                None => {
                    assert(base =~= base + Seq::<Seq<char>>::empty());
                },
            }
        } else {
            assert(base =~= base + Seq::<Seq<char>>::empty());
        }
        k = k + 1;
    }
    proof {
        assert(clusters@.take(clusters@.len() as int) =~= clusters@);
    }
    out
}

/// "Smallest files": in every cluster of two or more files, selects all
/// files but the largest (the last of the largest, on a tie).
pub fn select_keep_largest(clusters: &Vec<AutoCluster>) -> (to_remove: Vec<String>)
    requires
        clusters_wf(clusters@),
    ensures
        strings_view(to_remove@) == concat_removals(clusters@, |c: AutoCluster| largest_removals(c)),
{
    let ghost f = |c: AutoCluster| largest_removals(c);
    let mut out: Vec<String> = Vec::new();
    let mut k: usize = 0;
    while k < clusters.len()
        invariant
            k <= clusters@.len(),
            clusters_wf(clusters@),
            f == (|c: AutoCluster| largest_removals(c)),
            strings_view(out@) == concat_removals(clusters@.take(k as int), f),
        decreases clusters@.len() - k,
    {
        proof {
            assert(clusters@.take(k + 1).drop_last() =~= clusters@.take(k as int));
            assert(clusters@.take(k + 1).last() == clusters@[k as int]);
            assert(clusters@[k as int].ids@.len() == clusters@[k as int].scores@.len());
        }
        let c = &clusters[k];
        let ghost base = strings_view(out@);
        let n = c.ids.len();
        if n >= 2 {
            let mut best: usize = 0;
            let mut m: usize = 1;
            while m < n
                invariant
                    1 <= m <= n,
                    n == c.scores@.len(),
                    best < m,
                    best as int == largest_index(c.scores@, m as int),
                decreases n - m,
            {
                if c.scores[m].size_bytes >= c.scores[best].size_bytes {
                    best = m;
                }
                m = m + 1;
            }
            push_others(&mut out, &c.ids, &c.ids[best]);
        } else {
            assert(base =~= base + Seq::<Seq<char>>::empty());
        }
        k = k + 1;
    }
    proof {
        assert(clusters@.take(clusters@.len() as int) =~= clusters@);
    }
    out
}

/// "100% equal": in every cluster that is a full match, selects all files
/// but the first.
pub fn select_fully_equal(clusters: &Vec<AutoCluster>) -> (to_remove: Vec<String>)
    ensures
        strings_view(to_remove@) == concat_removals(clusters@, |c: AutoCluster| equal_removals(c)),
{
    let ghost f = |c: AutoCluster| equal_removals(c);
    let mut out: Vec<String> = Vec::new();
    let mut k: usize = 0;
    while k < clusters.len()
        invariant
            k <= clusters@.len(),
            f == (|c: AutoCluster| equal_removals(c)),
            strings_view(out@) == concat_removals(clusters@.take(k as int), f),
        decreases clusters@.len() - k,
    {
        proof {
            assert(clusters@.take(k + 1).drop_last() =~= clusters@.take(k as int));
            assert(clusters@.take(k + 1).last() == clusters@[k as int]);
        }
        let c = &clusters[k];
        let ghost base = strings_view(out@);
        if c.fully_equal && c.ids.len() >= 1 {
            let mut i: usize = 1;
            proof {
                assert(strings_view(c.ids@.subrange(1, 1)) =~= Seq::<Seq<char>>::empty());
                assert(base =~= base + Seq::<Seq<char>>::empty());
            }
            while i < c.ids.len()
                invariant
                    1 <= i <= c.ids@.len(),
                    strings_view(out@) == base + strings_view(c.ids@.subrange(1, i as int)),
                decreases c.ids@.len() - i,
            {
                let ghost before = strings_view(out@);
                out.push(c.ids[i].clone());
                proof {
                    assert(strings_view(c.ids@.subrange(1, i + 1)) =~= strings_view(
                        c.ids@.subrange(1, i as int),
                    ).push(c.ids@[i as int]@));
                    assert(strings_view(out@) =~= before.push(c.ids@[i as int]@));
                    assert(strings_view(out@) =~= base + strings_view(c.ids@.subrange(1, i + 1)));
                }
                i = i + 1;
            }
            proof {
                assert(c.ids@.subrange(1, c.ids@.len() as int) =~= c.ids@.skip(1));
            }
        } else {
            assert(base =~= base + Seq::<Seq<char>>::empty());
        }
        k = k + 1;
    }
    proof {
        assert(clusters@.take(clusters@.len() as int) =~= clusters@);
    }
    out
}

/// The file kept in a cluster is never among the files selected there:
/// no selected id equals the keeper's.
pub proof fn lemma_keeper_never_selected(ids: Seq<String>, keep: Seq<char>)
    ensures
        !ids_other_than(ids, keep).contains(keep),
    decreases ids.len(),
{
    if ids.len() > 0 {
        lemma_keeper_never_selected(ids.drop_last(), keep);
        let r = ids_other_than(ids.drop_last(), keep);
        if ids.last()@ != keep {
            assert forall|k: int| 0 <= k < r.push(ids.last()@).len() implies r.push(ids.last()@)[k]
                != keep by {
                if k < r.len() {
                    assert(r.push(ids.last()@)[k] == r[k]);
                }
            }
        }
    }
}

proof fn lemma_largest_index(scores: Seq<QualityScores>, m: int)
    requires
        1 <= m <= scores.len(),
    ensures
        0 <= largest_index(scores, m) < m,
        forall|j: int|
            0 <= j < m ==> (#[trigger] scores[j]).size_bytes <= scores[largest_index(scores, m)].size_bytes,
    decreases m,
{
    if m > 1 {
        lemma_largest_index(scores, m - 1);
    }
}

/// Keep-largest keeps a largest file: in a cluster of two or more files it
/// selects every file other than one whose size no file of the cluster
/// exceeds, and never that file itself.
pub proof fn lemma_keep_largest_keeps_a_largest(c: AutoCluster)
    requires
        c.ids@.len() >= 2,
        c.ids@.len() == c.scores@.len(),
    ensures
        exists|k: int|
            0 <= k < c.ids@.len() && (forall|j: int|
                0 <= j < c.scores@.len() ==> (#[trigger] c.scores@[j]).size_bytes <= c.scores@[k].size_bytes)
                && largest_removals(c) == ids_other_than(c.ids@, c.ids@[k]@)
                && !largest_removals(c).contains(c.ids@[k]@),
{
    let n = c.ids@.len() as int;
    lemma_largest_index(c.scores@, n);
    let k = largest_index(c.scores@, n);
    lemma_keeper_never_selected(c.ids@, c.ids@[k]@);
    assert(largest_removals(c) == ids_other_than(c.ids@, c.ids@[k]@));
}

} // verus!
