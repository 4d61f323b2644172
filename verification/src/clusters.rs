//! Grouping duplicate pairs into clusters, and choosing which members of
//! each cluster to delete.
//!
//! Files are numbered `0..n`; a pair `(a, b)` says that files `a` and `b`
//! were found to be duplicates. Two files belong to the same cluster when a
//! chain of pairs connects them.

use vstd::prelude::*;

verus! {

/// Whether files `i` and `j` are connected by a chain of the given pairs:
/// the smallest equivalence relation that relates the two files of every
/// pair, built up one pair at a time.
pub open spec fn linked(pairs: Seq<(usize, usize)>, i: int, j: int) -> bool
    decreases pairs.len(),
{
    if pairs.len() == 0 {
        i == j
    } else {
        let rest = pairs.drop_last();
        let a = pairs.last().0 as int;
        let b = pairs.last().1 as int;
        ||| linked(rest, i, j)
        ||| (linked(rest, i, a) && linked(rest, b, j))
        ||| (linked(rest, i, b) && linked(rest, a, j))
    }
}

/// The cluster label of file `x` after the pairs have been merged one at a
/// time: merging `(a, b)` moves every file labelled like `b` to the label of
/// `a`.
pub open spec fn cluster_of(pairs: Seq<(usize, usize)>, x: int) -> int
    decreases pairs.len(),
{
    if pairs.len() == 0 {
        x
    } else {
        let rest = pairs.drop_last();
        let c = cluster_of(rest, x);
        if c == cluster_of(rest, pairs.last().1 as int) {
            cluster_of(rest, pairs.last().0 as int)
        } else {
            c
        }
    }
}

/// Every pair names files below `n`.
pub open spec fn pairs_within(pairs: Seq<(usize, usize)>, n: nat) -> bool {
    forall|k: int| 0 <= k < pairs.len() ==> (#[trigger] pairs[k]).0 < n && pairs[k].1 < n
}

/// Two files carry the same cluster label exactly when a chain of pairs
/// connects them.
pub proof fn lemma_cluster_iff_linked(pairs: Seq<(usize, usize)>, i: int, j: int)
    ensures
        (cluster_of(pairs, i) == cluster_of(pairs, j)) == linked(pairs, i, j),
    decreases pairs.len(),
{
    if pairs.len() > 0 {
        let rest = pairs.drop_last();
        let a = pairs.last().0 as int;
        let b = pairs.last().1 as int;
        lemma_cluster_iff_linked(rest, i, j);
        lemma_cluster_iff_linked(rest, i, a);
        lemma_cluster_iff_linked(rest, i, b);
        lemma_cluster_iff_linked(rest, a, j);
        lemma_cluster_iff_linked(rest, b, j);
        lemma_cluster_iff_linked(rest, a, b);
    }
}

/// The two files of every pair end up in the same cluster.
pub proof fn lemma_pair_members_linked(pairs: Seq<(usize, usize)>, k: int)
    requires
        0 <= k < pairs.len(),
    ensures
        linked(pairs, pairs[k].0 as int, pairs[k].1 as int),
{
    let a = pairs[k].0 as int;
    let b = pairs[k].1 as int;
    let prefix = pairs.take(k + 1);
    assert(prefix.drop_last() =~= pairs.take(k));
    assert(prefix.last() == pairs[k]);
    lemma_cluster_iff_linked(pairs.take(k), a, a);
    lemma_cluster_iff_linked(pairs.take(k), b, b);
    assert(linked(prefix, a, b));
    lemma_linked_grows(pairs, k + 1, a, b);
}

/// Adding pairs never separates files that were already connected.
proof fn lemma_linked_grows(pairs: Seq<(usize, usize)>, m: int, i: int, j: int)
    requires
        0 <= m <= pairs.len(),
        linked(pairs.take(m), i, j),
    ensures
        linked(pairs, i, j),
    decreases pairs.len() - m,
{
    if m < pairs.len() {
        assert(pairs.take(m + 1).drop_last() =~= pairs.take(m));
        assert(linked(pairs.take(m + 1), i, j));
        lemma_linked_grows(pairs, m + 1, i, j);
    } else {
        assert(pairs.take(m) =~= pairs);
    }
}

/// Labels every file `0..n` with its cluster: two files get the same label
/// exactly when a chain of pairs connects them.
pub fn cluster_labels(n: usize, pairs: &Vec<(usize, usize)>) -> (labels: Vec<usize>)
    requires
        pairs_within(pairs@, n as nat),
    ensures
        labels@.len() == n,
        forall|x: int| 0 <= x < n ==> #[trigger] labels@[x] as int == cluster_of(pairs@, x),
        forall|x: int| 0 <= x < n ==> #[trigger] labels@[x] < n,
        forall|i: int, j: int|
            0 <= i < n && 0 <= j < n ==> (labels@[i] == labels@[j]) == #[trigger] linked(
                pairs@,
                i,
                j,
            ),
{
    let mut labels: Vec<usize> = Vec::new();
    let mut x: usize = 0;
    while x < n
        invariant
            x <= n,
            labels@.len() == x,
            forall|y: int| 0 <= y < x ==> #[trigger] labels@[y] as int == y,
        decreases n - x,
    {
        labels.push(x);
        x = x + 1;
    }
    let mut k: usize = 0;
    while k < pairs.len()
        invariant
            k <= pairs@.len(),
            pairs_within(pairs@, n as nat),
            labels@.len() == n,
            forall|y: int| 0 <= y < n ==> #[trigger] labels@[y] as int == cluster_of(pairs@.take(k as int), y),
            forall|y: int| 0 <= y < n ==> #[trigger] labels@[y] < n,
        decreases pairs@.len() - k,
    {
        let (a, b) = pairs[k];
        proof {
            assert(pairs@[k as int].0 < n && pairs@[k as int].1 < n);
        }
        let ra = labels[a];
        let rb = labels[b];
        let ghost old_labels = labels@;
        let mut y: usize = 0;
        while y < n
            invariant
                y <= n,
                labels@.len() == n,
                old_labels.len() == n,
                ra < n,
                forall|z: int| 0 <= z < y ==> #[trigger] labels@[z] == (if old_labels[z] == rb { ra } else { old_labels[z] }),
                forall|z: int| y <= z < n ==> #[trigger] labels@[z] == old_labels[z],
            decreases n - y,
        {
            if labels[y] == rb {
                labels.set(y, ra);
            }
            y = y + 1;
        }
        proof {
            let prev = pairs@.take(k as int);
            let next = pairs@.take(k + 1);
            assert(next.drop_last() =~= prev);
            assert(next.last() == pairs@[k as int]);
            assert forall|z: int| 0 <= z < n implies #[trigger] labels@[z] as int == cluster_of(next, z) by {
                assert(old_labels[z] as int == cluster_of(prev, z));
            }
            assert forall|z: int| 0 <= z < n implies #[trigger] labels@[z] < n by {
                assert(old_labels[z] < n);
            }
        }
        k = k + 1;
    }
    proof {
        assert(pairs@.take(pairs@.len() as int) =~= pairs@);
        assert forall|i: int, j: int| 0 <= i < n && 0 <= j < n implies (labels@[i] == labels@[j])
            == #[trigger] linked(pairs@, i, j) by {
            lemma_cluster_iff_linked(pairs@, i, j);
        }
    }
    labels
}

/// Which file of a cluster the `mark` command keeps.
#[derive(Clone, Copy, Debug, PartialEq, Eq, Structural)]
pub enum DeletionStrategy {
    /// Keep the highest-quality file (judged by its pixel count).
    LowestQuality,
    /// Keep the largest file.
    SmallestFile,
    /// Keep the longest file.
    ShortestDuration,
    /// Keep the file with the most pixels.
    WorstResolution,
    /// Only touch clusters whose every pair is an exact match; keep the file
    /// with the most pixels.
    HundredPercentOnly,
}

/// What the choice of a keeper reads of one file.
#[derive(Clone, Copy, Debug)]
pub struct MarkCandidate {
    pub size_bytes: u64,
    /// Orders the files by duration: a longer file has a larger value.
    pub duration_order: u64,
    pub width: Option<u32>,
    pub height: Option<u32>,
}

pub open spec fn pixel_count(f: MarkCandidate) -> int {
    let w: int = match f.width {
        Some(w) => w as int,
        None => 0,
    };
    let h: int = match f.height {
        Some(h) => h as int,
        None => 0,
    };
    w * h
}

/// The value a strategy maximises when it picks the file to keep.
pub open spec fn keep_key(strategy: DeletionStrategy, f: MarkCandidate) -> int {
    match strategy {
        DeletionStrategy::SmallestFile => f.size_bytes as int,
        DeletionStrategy::ShortestDuration => f.duration_order as int,
        _ => pixel_count(f),
    }
}

pub fn keep_key_exec(strategy: DeletionStrategy, f: &MarkCandidate) -> (k: u64)
    ensures
        k == keep_key(strategy, *f),
{
    match strategy {
        DeletionStrategy::SmallestFile => f.size_bytes,
        DeletionStrategy::ShortestDuration => f.duration_order,
        _ => {
            let w: u64 = match f.width {
                Some(w) => w as u64,
                None => 0,
            };
            let h: u64 = match f.height {
                Some(h) => h as u64,
                None => 0,
            };
            assert(w * h <= u64::MAX) by (nonlinear_arith)
                requires
                    w <= u32::MAX,
                    h <= u32::MAX,
            ;
            w * h
        },
    }
}

pub open spec fn same_cluster(pairs: Seq<(usize, usize)>, i: int, j: int) -> bool {
    cluster_of(pairs, i) == cluster_of(pairs, j)
}

/// File `i` shares its cluster with at least one other file.
pub open spec fn in_group(pairs: Seq<(usize, usize)>, n: nat, i: int) -> bool {
    exists|j: int| 0 <= j < n && j != i && #[trigger] same_cluster(pairs, i, j)
}

/// File `i`'s cluster holds a pair that is not an exact match, and the
/// strategy only touches exact clusters.
pub open spec fn group_skipped(
    pairs: Seq<(usize, usize)>,
    exact: Seq<bool>,
    strategy: DeletionStrategy,
    i: int,
) -> bool {
    &&& strategy == DeletionStrategy::HundredPercentOnly
    &&& exists|k: int|
        0 <= k < pairs.len() && !exact[k] && #[trigger] same_cluster(pairs, pairs[k].0 as int, i)
}

/// File `i` is the one its cluster keeps: no file of the cluster has a
/// larger key, and none with an equal key comes before it.
pub open spec fn is_keeper(
    pairs: Seq<(usize, usize)>,
    files: Seq<MarkCandidate>,
    strategy: DeletionStrategy,
    i: int,
) -> bool {
    forall|j: int|
        0 <= j < files.len() && #[trigger] same_cluster(pairs, i, j) ==> keep_key(strategy, files[j])
            < keep_key(strategy, files[i]) || (keep_key(strategy, files[j]) == keep_key(
            strategy,
            files[i],
        ) && i <= j)
}

/// File `i` is to be deleted.
pub open spec fn marked_for_deletion(
    pairs: Seq<(usize, usize)>,
    exact: Seq<bool>,
    files: Seq<MarkCandidate>,
    strategy: DeletionStrategy,
    i: int,
) -> bool {
    &&& in_group(pairs, files.len(), i)
    &&& !group_skipped(pairs, exact, strategy, i)
    &&& !is_keeper(pairs, files, strategy, i)
}

/// The files to delete, in ascending order: in every cluster of two or
/// more files that the strategy touches, all files but the keeper.
/// `exact[k]` tells whether pair `k` is an exact match.
pub fn plan_deletions(
    pairs: &Vec<(usize, usize)>,
    exact: &Vec<bool>,
    files: &Vec<MarkCandidate>,
    strategy: DeletionStrategy,
) -> (doomed: Vec<usize>)
    requires
        pairs_within(pairs@, files@.len()),
        exact@.len() == pairs@.len(),
    ensures
        forall|i: int|
            0 <= i < files@.len() ==> (doomed@.contains(i as usize) <==> marked_for_deletion(
                pairs@,
                exact@,
                files@,
                strategy,
                i,
            )),
        forall|p: int| 0 <= p < doomed@.len() ==> doomed@[p] < files@.len(),
        forall|p: int, q: int| 0 <= p < q < doomed@.len() ==> doomed@[p] < doomed@[q],
{
    let n = files.len();
    let labels = cluster_labels(n, pairs);
    let mut keys: Vec<u64> = Vec::new();
    let mut x: usize = 0;
    while x < n
        invariant
            x <= n == files@.len(),
            keys@.len() == x,
            forall|y: int| 0 <= y < x ==> #[trigger] keys@[y] == keep_key(strategy, files@[y]),
        decreases n - x,
    {
        keys.push(keep_key_exec(strategy, &files[x]));
        x = x + 1;
    }
    let mut bad: Vec<bool> = Vec::new();
    let mut x: usize = 0;
    while x < n
        invariant
            x <= n,
            bad@.len() == x,
            forall|y: int| 0 <= y < x ==> !(#[trigger] bad@[y]),
        decreases n - x,
    {
        bad.push(false);
        x = x + 1;
    }
    let mut k: usize = 0;
    while k < pairs.len()
        invariant
            k <= pairs@.len() == exact@.len(),
            n == files@.len(),
            pairs_within(pairs@, n as nat),
            labels@.len() == n,
            bad@.len() == n,
            forall|y: int| 0 <= y < n ==> #[trigger] labels@[y] < n,
            forall|l: int|
                0 <= l < n ==> (#[trigger] bad@[l] <==> exists|m: int|
                    0 <= m < k && !exact@[m] && labels@[pairs@[m].0 as int] == l),
        decreases pairs@.len() - k,
    {
        proof {
            assert(pairs@[k as int].0 < n);
        }
        if !exact[k] {
            let l = labels[pairs[k].0];
            bad.set(l, true);
        }
        proof {
            assert forall|l: int| 0 <= l < n implies (#[trigger] bad@[l] <==> exists|m: int|
                0 <= m < k + 1 && !exact@[m] && labels@[pairs@[m].0 as int] == l) by {
                if !exact@[k as int] && labels@[pairs@[k as int].0 as int] == l {
                    assert(0 <= k < k + 1 && !exact@[k as int]);
                }
            }
        }
        k = k + 1;
    }
    let hundred = matches!(strategy, DeletionStrategy::HundredPercentOnly);
    let mut doomed: Vec<usize> = Vec::new();
    let mut i: usize = 0;
    while i < n
        invariant
            i <= n == files@.len(),
            pairs_within(pairs@, n as nat),
            exact@.len() == pairs@.len(),
            labels@.len() == n,
            keys@.len() == n,
            bad@.len() == n,
            hundred == (strategy == DeletionStrategy::HundredPercentOnly),
            forall|y: int| 0 <= y < n ==> #[trigger] labels@[y] as int == cluster_of(pairs@, y),
            forall|y: int| 0 <= y < n ==> #[trigger] labels@[y] < n,
            forall|y: int| 0 <= y < n ==> #[trigger] keys@[y] == keep_key(strategy, files@[y]),
            forall|l: int|
                0 <= l < n ==> (#[trigger] bad@[l] <==> exists|m: int|
                    0 <= m < pairs@.len() && !exact@[m] && labels@[pairs@[m].0 as int] == l),
            forall|p: int| 0 <= p < doomed@.len() ==> doomed@[p] < i,
            forall|p: int, q: int| 0 <= p < q < doomed@.len() ==> doomed@[p] < doomed@[q],
            forall|y: int|
                0 <= y < n ==> (doomed@.contains(y as usize) <==> (y < i && marked_for_deletion(
                    pairs@,
                    exact@,
                    files@,
                    strategy,
                    y,
                ))),
        decreases n - i,
    {
        let li = labels[i];
        let ki = keys[i];
        let mut partner = false;
        let mut keeper = true;
        let mut j: usize = 0;
        while j < n
            invariant
                j <= n,
                i < n,
                labels@.len() == n,
                keys@.len() == n,
                li == labels@[i as int],
                ki == keys@[i as int],
                partner == exists|m: int| 0 <= m < j && m != i && labels@[m] == li,
                keeper == forall|m: int|
                    0 <= m < j && labels@[m] == li ==> keys@[m] < ki || (keys@[m] == ki && i <= m),
            decreases n - j,
        {
            if labels[j] == li {
                if j != i {
                    partner = true;
                }
                if keys[j] > ki || (keys[j] == ki && j < i) {
                    keeper = false;
                }
            }
            j = j + 1;
        }
        let skipped = hundred && bad[li];
        proof {
            let ps = pairs@;
            assert(in_group(ps, n as nat, i as int) == partner) by {
                if partner {
                    let m = choose|m: int| 0 <= m < n && m != i && labels@[m] == li;
                    assert(same_cluster(ps, i as int, m));
                }
                if in_group(ps, n as nat, i as int) {
                    let m = choose|m: int| 0 <= m < n && m != i && #[trigger] same_cluster(ps, i as int, m);
                    assert(labels@[m] == li);
                }
            }
            assert(is_keeper(ps, files@, strategy, i as int) == keeper) by {
                if keeper {
                    assert forall|m: int| 0 <= m < files@.len() && #[trigger] same_cluster(ps, i as int, m)
                        implies keep_key(strategy, files@[m]) < keep_key(strategy, files@[i as int]) || (
                    keep_key(strategy, files@[m]) == keep_key(strategy, files@[i as int]) && i <= m) by {
                        assert(labels@[m] == li);
                        assert(keys@[m] == keep_key(strategy, files@[m]));
                    }
                }
                if is_keeper(ps, files@, strategy, i as int) {
                    assert forall|m: int| 0 <= m < n && labels@[m] == li implies keys@[m] < ki || (keys@[m]
                        == ki && i <= m) by {
                        assert(same_cluster(ps, i as int, m));
                    }
                }
            }
            assert(group_skipped(ps, exact@, strategy, i as int) == skipped) by {
                if skipped {
                    let m = choose|m: int|
                        0 <= m < ps.len() && !exact@[m] && labels@[ps[m].0 as int] == li;
                    assert(ps[m].0 < n);
                    assert(same_cluster(ps, ps[m].0 as int, i as int));
                }
                if group_skipped(ps, exact@, strategy, i as int) {
                    let m = choose|m: int|
                        0 <= m < ps.len() && !exact@[m] && #[trigger] same_cluster(ps, ps[m].0 as int, i as int);
                    assert(ps[m].0 < n);
                    assert(labels@[ps[m].0 as int] == li);
                    assert(bad@[li as int]);
                }
            }
        }
        let ghost before = doomed@;
        if partner && !skipped && !keeper {
            doomed.push(i);
        }
        proof {
            assert forall|y: int| 0 <= y < n implies (doomed@.contains(y as usize) <==> (y < i + 1
                && marked_for_deletion(pairs@, exact@, files@, strategy, y))) by {
                if doomed@.contains(y as usize) {
                    let p = choose|p: int| 0 <= p < doomed@.len() && doomed@[p] == y as usize;
                    if p < before.len() {
                        assert(before[p] == y as usize);
                        assert(before.contains(y as usize));
                    }
                }
                if y < i && marked_for_deletion(pairs@, exact@, files@, strategy, y) {
                    assert(before.contains(y as usize));
                    let p = choose|p: int| 0 <= p < before.len() && before[p] == y as usize;
                    assert(doomed@[p] == y as usize);
                }
                if y == i && marked_for_deletion(pairs@, exact@, files@, strategy, y) {
                    assert(doomed@[doomed@.len() - 1] == y as usize);
                }
            }
        }
        i = i + 1;
    }
    doomed
}

/// Among files `0..m` of `i`'s cluster, the one with the largest key (the
/// first such), or -1 when none lies below `m`.
spec fn best_below(
    pairs: Seq<(usize, usize)>,
    files: Seq<MarkCandidate>,
    strategy: DeletionStrategy,
    i: int,
    m: int,
) -> int
    decreases m,
{
    if m <= 0 {
        -1
    } else {
        let b = best_below(pairs, files, strategy, i, m - 1);
        if !same_cluster(pairs, i, m - 1) {
            b
        } else if b < 0 || keep_key(strategy, files[m - 1]) > keep_key(strategy, files[b]) {
            m - 1
        } else {
            b
        }
    }
}

proof fn lemma_best_below(
    pairs: Seq<(usize, usize)>,
    files: Seq<MarkCandidate>,
    strategy: DeletionStrategy,
    i: int,
    m: int,
)
    requires
        0 <= m <= files.len(),
    ensures
        ({
            let b = best_below(pairs, files, strategy, i, m);
            &&& forall|j: int| 0 <= j < m && #[trigger] same_cluster(pairs, i, j) ==> b >= 0
            &&& b >= 0 ==> {
                &&& b < m
                &&& same_cluster(pairs, i, b)
                &&& forall|j: int|
                    0 <= j < m && #[trigger] same_cluster(pairs, i, j) ==> keep_key(strategy, files[j])
                        < keep_key(strategy, files[b]) || (keep_key(strategy, files[j]) == keep_key(
                        strategy,
                        files[b],
                    ) && b <= j)
            }
        }),
    decreases m,
{
    if m > 0 {
        lemma_best_below(pairs, files, strategy, i, m - 1);
        let prev = best_below(pairs, files, strategy, i, m - 1);
        let b = best_below(pairs, files, strategy, i, m);
        if b >= 0 {
            assert forall|j: int| 0 <= j < m && #[trigger] same_cluster(pairs, i, j) implies keep_key(
                strategy,
                files[j],
            ) < keep_key(strategy, files[b]) || (keep_key(strategy, files[j]) == keep_key(
                strategy,
                files[b],
            ) && b <= j) by {
                if j < m - 1 {
                    assert(prev >= 0);
                }
            }
        }
    }
}

/// Deleting never empties a cluster: every cluster keeps at least one of
/// its files.
pub proof fn lemma_every_cluster_keeps_a_file(
    pairs: Seq<(usize, usize)>,
    exact: Seq<bool>,
    files: Seq<MarkCandidate>,
    strategy: DeletionStrategy,
    i: int,
)
    requires
        0 <= i < files.len(),
    ensures
        exists|j: int|
            0 <= j < files.len() && same_cluster(pairs, i, j) && !marked_for_deletion(
                pairs,
                exact,
                files,
                strategy,
                j,
            ),
{
    let n = files.len() as int;
    lemma_best_below(pairs, files, strategy, i, n);
    let b = best_below(pairs, files, strategy, i, n);
    assert(same_cluster(pairs, i, i));
    assert forall|j: int| 0 <= j < files.len() && #[trigger] same_cluster(pairs, b, j) implies keep_key(
        strategy,
        files[j],
    ) < keep_key(strategy, files[b]) || (keep_key(strategy, files[j]) == keep_key(strategy, files[b])
        && b <= j) by {
        assert(same_cluster(pairs, i, j));
    }
    assert(is_keeper(pairs, files, strategy, b));
}

/// In a cluster that the strategy processes, exactly one file survives:
/// two surviving files of such a cluster are the same file.
pub proof fn lemma_processed_cluster_keeps_one(
    pairs: Seq<(usize, usize)>,
    exact: Seq<bool>,
    files: Seq<MarkCandidate>,
    strategy: DeletionStrategy,
    i: int,
    j: int,
)
    requires
        0 <= i < files.len(),
        0 <= j < files.len(),
        same_cluster(pairs, i, j),
        in_group(pairs, files.len(), i),
        !group_skipped(pairs, exact, strategy, i),
        !marked_for_deletion(pairs, exact, files, strategy, i),
        !marked_for_deletion(pairs, exact, files, strategy, j),
    ensures
        i == j,
{
    if i != j {
        assert(same_cluster(pairs, j, i));
        assert(in_group(pairs, files.len(), j));
        if group_skipped(pairs, exact, strategy, j) {
            let k = choose|k: int|
                0 <= k < pairs.len() && !exact[k] && #[trigger] same_cluster(pairs, pairs[k].0 as int, j);
            assert(same_cluster(pairs, pairs[k].0 as int, i));
        }
        assert(is_keeper(pairs, files, strategy, i));
        assert(is_keeper(pairs, files, strategy, j));
    }
}

// ─── Clusters of pairs ───────────────────────────────────────────────────────

/// One cluster of the results view: its label, the pairs inside it and the
/// files those pairs name, each in increasing order.
pub struct ClusterGroup {
    pub label: usize,
    pub pairs: Vec<usize>,
    pub files: Vec<usize>,
}

/// The pairs among the first `m` whose files carry label `l`.
pub open spec fn pairs_labelled(pairs: Seq<(usize, usize)>, l: int, m: int) -> Seq<usize>
    decreases m,
{
    if m <= 0 {
        Seq::empty()
    } else {
        let r = pairs_labelled(pairs, l, m - 1);
        if cluster_of(pairs, pairs[m - 1].0 as int) == l {
            r.push((m - 1) as usize)
        } else {
            r
        }
    }
}

/// File `x` is named by some pair.
pub open spec fn in_some_pair(pairs: Seq<(usize, usize)>, x: int) -> bool {
    exists|k: int| 0 <= k < pairs.len() && ((#[trigger] pairs[k]).0 == x || pairs[k].1 == x)
}

/// The files among `0..m` with label `l` that some pair names.
pub open spec fn files_labelled(pairs: Seq<(usize, usize)>, l: int, m: int) -> Seq<usize>
    decreases m,
{
    if m <= 0 {
        Seq::empty()
    } else {
        let r = files_labelled(pairs, l, m - 1);
        if cluster_of(pairs, m - 1) == l && in_some_pair(pairs, m - 1) {
            r.push((m - 1) as usize)
        } else {
            r
        }
    }
}

/// The groups describe the clusters of the pairs: one group per cluster
/// that holds a pair, with all its pairs and the files they name.
pub open spec fn groups_describe(groups: Seq<ClusterGroup>, pairs: Seq<(usize, usize)>, n: nat) -> bool {
    &&& forall|g: int|
        0 <= g < groups.len() ==> {
            let grp = #[trigger] groups[g];
            &&& grp.pairs@ == pairs_labelled(pairs, grp.label as int, pairs.len() as int)
            &&& grp.files@ == files_labelled(pairs, grp.label as int, n as int)
            &&& grp.pairs@.len() > 0
        }
    &&& forall|g: int, h: int| 0 <= g < h < groups.len() ==> groups[g].label != groups[h].label
    &&& forall|k: int| 0 <= k < pairs.len() ==> has_group(groups, cluster_of(pairs, (#[trigger] pairs[k]).0 as int))
}

/// Some group carries label `l`.
pub open spec fn has_group(groups: Seq<ClusterGroup>, l: int) -> bool {
    exists|g: int| 0 <= g < groups.len() && groups[g].label as int == l
}

fn labelled_pairs_exec(pairs: &Vec<(usize, usize)>, labels: &Vec<usize>, l: usize) -> (r: Vec<usize>)
    requires
        pairs_within(pairs@, labels@.len() as nat),
        forall|x: int| 0 <= x < labels@.len() ==> #[trigger] labels@[x] as int == cluster_of(pairs@, x),
    ensures
        r@ == pairs_labelled(pairs@, l as int, pairs@.len() as int),
{
    let mut r: Vec<usize> = Vec::new();
    let mut k: usize = 0;
    while k < pairs.len()
        invariant
            k <= pairs@.len(),
            pairs_within(pairs@, labels@.len() as nat),
            forall|x: int| 0 <= x < labels@.len() ==> #[trigger] labels@[x] as int == cluster_of(pairs@, x),
            r@ == pairs_labelled(pairs@, l as int, k as int),
        decreases pairs@.len() - k,
    {
        proof {
            assert(pairs@[k as int].0 < labels@.len());
        }
        if labels[pairs[k].0] == l {
            r.push(k);
        }
        k = k + 1;
    }
    r
}

fn labelled_files_exec(pairs: &Vec<(usize, usize)>, labels: &Vec<usize>, named: &Vec<bool>, l: usize) -> (r:
    Vec<usize>)
    requires
        named@.len() == labels@.len(),
        forall|x: int| 0 <= x < labels@.len() ==> #[trigger] labels@[x] as int == cluster_of(pairs@, x),
        forall|x: int| 0 <= x < named@.len() ==> #[trigger] named@[x] == in_some_pair(pairs@, x),
    ensures
        r@ == files_labelled(pairs@, l as int, labels@.len() as int),
{
    let mut r: Vec<usize> = Vec::new();
    let mut x: usize = 0;
    while x < labels.len()
        invariant
            x <= labels@.len(),
            named@.len() == labels@.len(),
            forall|y: int| 0 <= y < labels@.len() ==> #[trigger] labels@[y] as int == cluster_of(pairs@, y),
            forall|y: int| 0 <= y < named@.len() ==> #[trigger] named@[y] == in_some_pair(pairs@, y),
            r@ == files_labelled(pairs@, l as int, x as int),
        decreases labels@.len() - x,
    {
        if labels[x] == l && named[x] {
            r.push(x);
        }
        x = x + 1;
    }
    r
}

/// Groups the pairs into clusters (files `0..n`), each listing its pairs
/// and the files they name; clusters come in the order of their first
/// pair.
pub fn cluster_groups(n: usize, pairs: &Vec<(usize, usize)>) -> (groups: Vec<ClusterGroup>)
    requires
        pairs_within(pairs@, n as nat),
    ensures
        groups_describe(groups@, pairs@, n as nat),
{
    let labels = cluster_labels(n, pairs);
    let mut named: Vec<bool> = Vec::new();
    let mut x: usize = 0;
    while x < n
        invariant
            x <= n,
            named@.len() == x,
            forall|y: int| 0 <= y < x ==> !#[trigger] named@[y],
        decreases n - x,
    {
        named.push(false);
        x = x + 1;
    }
    let mut k: usize = 0;
    while k < pairs.len()
        invariant
            k <= pairs@.len(),
            pairs_within(pairs@, n as nat),
            named@.len() == n,
            forall|y: int|
                0 <= y < n ==> (#[trigger] named@[y] <==> exists|q: int|
                    0 <= q < k && (pairs@[q].0 == y || pairs@[q].1 == y)),
        decreases pairs@.len() - k,
    {
        let (a, b) = pairs[k];
        proof {
            assert(pairs@[k as int].0 < n && pairs@[k as int].1 < n);
        }
        named.set(a, true);
        named.set(b, true);
        proof {
            assert forall|y: int| 0 <= y < n implies (#[trigger] named@[y] <==> exists|q: int|
                0 <= q < k + 1 && (pairs@[q].0 == y || pairs@[q].1 == y)) by {
                if y == a || y == b {
                    assert(0 <= k < k + 1 && (pairs@[k as int].0 == y || pairs@[k as int].1 == y));
                }
            }
        }
        k = k + 1;
    }
    proof {
        assert forall|y: int| 0 <= y < named@.len() implies #[trigger] named@[y] == in_some_pair(pairs@, y) by {
            if in_some_pair(pairs@, y) {
                let q = choose|q: int| 0 <= q < pairs@.len() && ((#[trigger] pairs@[q]).0 == y || pairs@[q].1 == y);
                assert(0 <= q < pairs@.len() && (pairs@[q].0 == y || pairs@[q].1 == y));
            }
        }
    }
    let mut groups: Vec<ClusterGroup> = Vec::new();
    let mut k: usize = 0;
    while k < pairs.len()
        invariant
            k <= pairs@.len(),
            pairs_within(pairs@, n as nat),
            labels@.len() == n,
            named@.len() == n,
            forall|y: int| 0 <= y < n ==> #[trigger] labels@[y] as int == cluster_of(pairs@, y),
            forall|y: int| 0 <= y < named@.len() ==> #[trigger] named@[y] == in_some_pair(pairs@, y),
            forall|g: int|
                0 <= g < groups@.len() ==> {
                    let grp = #[trigger] groups@[g];
                    &&& grp.pairs@ == pairs_labelled(pairs@, grp.label as int, pairs@.len() as int)
                    &&& grp.files@ == files_labelled(pairs@, grp.label as int, n as int)
                    &&& grp.pairs@.len() > 0
                },
            forall|g: int, h: int| 0 <= g < h < groups@.len() ==> groups@[g].label != groups@[h].label,
            forall|q: int| 0 <= q < k ==> has_group(groups@, cluster_of(pairs@, (#[trigger] pairs@[q]).0 as int)),
        decreases pairs@.len() - k,
    {
        proof {
            assert(pairs@[k as int].0 < n);
        }
        let l = labels[pairs[k].0];
        let mut g: usize = 0;
        let mut found = false;
        while g < groups.len()
            invariant_except_break
                !found,
            invariant
                g <= groups@.len(),
                forall|h: int| 0 <= h < g ==> groups@[h].label != l,
            ensures
                !found ==> forall|h: int| 0 <= h < groups@.len() ==> groups@[h].label != l,
                found ==> g < groups@.len() && groups@[g as int].label == l,
            decreases groups@.len() - g,
        {
            if groups[g].label == l {
                found = true;
                break;
            }
            g = g + 1;
        }
        if !found {
            let ps = labelled_pairs_exec(pairs, &labels, l);
            let fs = labelled_files_exec(pairs, &labels, &named, l);
            proof {
                lemma_pairs_labelled_has(pairs@, l as int, pairs@.len() as int, k as int);
            }
            let ghost before = groups@;
            groups.push(ClusterGroup { label: l, pairs: ps, files: fs });
            proof {
                assert forall|q: int| 0 <= q < k + 1 implies has_group(groups@, cluster_of(pairs@, (#[trigger] pairs@[q]).0 as int)) by {
                    if q < k {
                        assert(has_group(before, cluster_of(pairs@, pairs@[q].0 as int)));
                        let g0 = choose|g: int| 0 <= g < before.len() && before[g].label as int == cluster_of(pairs@, pairs@[q].0 as int);
                        assert(groups@[g0] == before[g0]);
                    } else {
                        assert(groups@[before.len() as int].label == l);
                    }
                }
            }
        } else {
            proof {
                assert forall|q: int| 0 <= q < k + 1 implies has_group(groups@, cluster_of(pairs@, (#[trigger] pairs@[q]).0 as int)) by {
                    if q == k {
                        assert(groups@[g as int].label == l);
                    }
                }
            }
        }
        k = k + 1;
    }
    groups
}

proof fn lemma_pairs_labelled_has(pairs: Seq<(usize, usize)>, l: int, m: int, k: int)
    requires
        0 <= k < m,
        cluster_of(pairs, pairs[k].0 as int) == l,
    ensures
        pairs_labelled(pairs, l, m).len() > 0,
    decreases m,
{
    if k < m - 1 {
        lemma_pairs_labelled_has(pairs, l, m - 1, k);
    }
}

} // verus!
