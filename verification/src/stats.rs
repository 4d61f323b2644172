//! Figures of the statistics view: how many duplicate groups and files
//! there are, how much they take, and how much removing the duplicates
//! would free.

use crate::db::MatchMethod;
use vstd::prelude::*;

verus! {

/// The sum of a list of sizes.
pub open spec fn size_sum(s: Seq<u64>) -> int
    decreases s.len(),
{
    if s.len() == 0 {
        0
    } else {
        size_sum(s.drop_last()) + s.last()
    }
}

/// The largest of a list of sizes (0 for none).
pub open spec fn size_max(s: Seq<u64>) -> int
    decreases s.len(),
{
    if s.len() == 0 {
        0
    } else {
        let m = size_max(s.drop_last());
        if s.last() > m {
            s.last() as int
        } else {
            m
        }
    }
}

/// The file sizes of one duplicate cluster.
pub struct StatsCluster {
    pub sizes: Vec<u64>,
}

pub open spec fn files_total(cs: Seq<StatsCluster>) -> int
    decreases cs.len(),
{
    if cs.len() == 0 {
        0
    } else {
        files_total(cs.drop_last()) + cs.last().sizes@.len()
    }
}

pub open spec fn bytes_total(cs: Seq<StatsCluster>) -> int
    decreases cs.len(),
{
    if cs.len() == 0 {
        0
    } else {
        bytes_total(cs.drop_last()) + size_sum(cs.last().sizes@)
    }
}

/// What removing all but the largest file of every cluster would free.
pub open spec fn wasted_total(cs: Seq<StatsCluster>) -> int
    decreases cs.len(),
{
    if cs.len() == 0 {
        0
    } else {
        wasted_total(cs.drop_last()) + size_sum(cs.last().sizes@) - size_max(cs.last().sizes@)
    }
}

/// The figures of the statistics view.
pub struct DuplicateStats {
    pub group_count: usize,
    pub file_count: usize,
    pub total_bytes: u64,
    pub reclaimable_bytes: u64,
}

proof fn lemma_size_sum_bounds(s: Seq<u64>, k: int)
    requires
        0 <= k <= s.len(),
    ensures
        0 <= size_sum(s.take(k)) <= size_sum(s),
        0 <= size_max(s) <= size_sum(s),
        size_max(s.take(k)) <= size_max(s),
    decreases s.len() - k,
{
    if k < s.len() {
        lemma_size_sum_bounds(s, k + 1);
        assert(s.take(k + 1).drop_last() =~= s.take(k));
        lemma_sum_ge_max(s.take(k));
    } else {
        assert(s.take(k) =~= s);
        lemma_sum_ge_max(s);
    }
}

proof fn lemma_sum_ge_max(s: Seq<u64>)
    ensures
        0 <= size_max(s) <= size_sum(s),
    decreases s.len(),
{
    if s.len() > 0 {
        lemma_sum_ge_max(s.drop_last());
    }
}

proof fn lemma_totals_grow(cs: Seq<StatsCluster>, k: int)
    requires
        0 <= k <= cs.len(),
    ensures
        0 <= bytes_total(cs.take(k)) <= bytes_total(cs),
        0 <= files_total(cs.take(k)) <= files_total(cs),
        0 <= wasted_total(cs.take(k)) <= bytes_total(cs.take(k)),
    decreases cs.len() - k,
{
    if k < cs.len() {
        lemma_totals_grow(cs, k + 1);
        let p = cs.take(k + 1);
        assert(p.drop_last() =~= cs.take(k));
        lemma_sum_ge_max(p.last().sizes@);
        lemma_wasted_bounds(cs.take(k));
    } else {
        assert(cs.take(k) =~= cs);
        lemma_wasted_bounds(cs);
    }
}

proof fn lemma_wasted_bounds(cs: Seq<StatsCluster>)
    ensures
        0 <= wasted_total(cs) <= bytes_total(cs),
        files_total(cs) >= 0,
    decreases cs.len(),
{
    if cs.len() > 0 {
        lemma_wasted_bounds(cs.drop_last());
        lemma_sum_ge_max(cs.last().sizes@);
    }
}

/// Removing duplicates never frees more than the duplicates take.
pub proof fn lemma_reclaimable_within_total(cs: Seq<StatsCluster>)
    ensures
        0 <= wasted_total(cs) <= bytes_total(cs),
{
    lemma_wasted_bounds(cs);
}

/// The statistics of the given clusters: their number, their files, the
/// bytes those take, and the bytes freed by keeping only the largest file
/// of each cluster.
pub fn duplicate_stats(clusters: &Vec<StatsCluster>) -> (r: DuplicateStats)
    requires
        bytes_total(clusters@) <= u64::MAX,
        files_total(clusters@) <= usize::MAX,
    ensures
        r.group_count == clusters@.len(),
        r.file_count == files_total(clusters@),
        r.total_bytes == bytes_total(clusters@),
        r.reclaimable_bytes == wasted_total(clusters@),
{
    let mut files: usize = 0;
    let mut total: u64 = 0;
    let mut wasted: u64 = 0;
    let mut k: usize = 0;
    while k < clusters.len()
        invariant
            k <= clusters@.len(),
            bytes_total(clusters@) <= u64::MAX,
            files_total(clusters@) <= usize::MAX,
            files == files_total(clusters@.take(k as int)),
            total == bytes_total(clusters@.take(k as int)),
            wasted == wasted_total(clusters@.take(k as int)),
        decreases clusters@.len() - k,
    {
        let ghost p = clusters@.take(k + 1);
        proof {
            assert(p.drop_last() =~= clusters@.take(k as int));
            assert(p.last() == clusters@[k as int]);
            lemma_totals_grow(clusters@, k + 1);
        }
        let sizes = &clusters[k].sizes;
        let mut sum: u64 = 0;
        let mut max: u64 = 0;
        let mut i: usize = 0;
        while i < sizes.len()
            invariant
                i <= sizes@.len(),
                total + size_sum(sizes@) <= u64::MAX,
                sum == size_sum(sizes@.take(i as int)),
                max == size_max(sizes@.take(i as int)),
            decreases sizes@.len() - i,
        {
            proof {
                assert(sizes@.take(i + 1).drop_last() =~= sizes@.take(i as int));
                lemma_size_sum_bounds(sizes@, i + 1);
            }
            sum = sum + sizes[i];
            if sizes[i] > max {
                max = sizes[i];
            }
            i = i + 1;
        }
        proof {
            assert(sizes@.take(sizes@.len() as int) =~= sizes@);
            lemma_sum_ge_max(sizes@);
        }
        files = files + sizes.len();
        total = total + sum;
        wasted = wasted + (sum - max);
        k = k + 1;
    }
    proof {
        assert(clusters@.take(clusters@.len() as int) =~= clusters@);
    }
    DuplicateStats { group_count: clusters.len(), file_count: files, total_bytes: total, reclaimable_bytes: wasted }
}

// ─── Breakdown by method ─────────────────────────────────────────────────────

/// The methods of a cluster's pairs and the bytes its files take.
pub struct BreakdownCluster {
    pub methods: Vec<MatchMethod>,
    pub bytes: u64,
}

/// How many of the methods are `m`.
pub open spec fn count_of(methods: Seq<MatchMethod>, m: MatchMethod) -> int
    decreases methods.len(),
{
    if methods.len() == 0 {
        0
    } else {
        count_of(methods.drop_last(), m) + if methods.last() == m {
            1int
        } else {
            0int
        }
    }
}

/// The pairs found by method `m` over all clusters.
pub open spec fn method_pairs(cs: Seq<BreakdownCluster>, m: MatchMethod) -> int
    decreases cs.len(),
{
    if cs.len() == 0 {
        0
    } else {
        method_pairs(cs.drop_last(), m) + count_of(cs.last().methods@, m)
    }
}

/// For each pair found by `m`, the bytes of its cluster, summed.
pub open spec fn method_bytes(cs: Seq<BreakdownCluster>, m: MatchMethod) -> int
    decreases cs.len(),
{
    if cs.len() == 0 {
        0
    } else {
        method_bytes(cs.drop_last(), m) + count_of(cs.last().methods@, m) * cs.last().bytes
    }
}

/// One line of the breakdown.
pub struct MethodRow {
    pub method: MatchMethod,
    pub pairs: usize,
    pub bytes: u64,
}

pub open spec fn all_methods() -> Seq<MatchMethod> {
    seq![
        MatchMethod::FrameSimilarity,
        MatchMethod::IframeTimeline,
        MatchMethod::AudioFingerprint,
        MatchMethod::Mpeg7Signature,
        MatchMethod::SsimVerified,
        MatchMethod::TemporalAverageHash,
    ]
}

/// The breakdown's totals fit the integers that hold them.
pub open spec fn breakdown_fits(cs: Seq<BreakdownCluster>) -> bool {
    forall|m: MatchMethod| method_pairs(cs, m) <= usize::MAX && #[trigger] method_bytes(cs, m) <= u64::MAX
}

proof fn lemma_count_step(methods: Seq<MatchMethod>, i: int, m: MatchMethod)
    requires
        0 <= i < methods.len(),
    ensures
        count_of(methods.take(i + 1), m) == count_of(methods.take(i), m) + if methods[i] == m {
            1int
        } else {
            0int
        },
        0 <= count_of(methods.take(i), m) <= count_of(methods, m),
    decreases methods.len() - i,
{
    assert(methods.take(i + 1).drop_last() =~= methods.take(i));
    if i + 1 < methods.len() {
        lemma_count_step(methods, i + 1, m);
    } else {
        assert(methods.take(i + 1) =~= methods);
    }
    lemma_count_nonneg(methods.take(i), m);
}

proof fn lemma_count_nonneg(methods: Seq<MatchMethod>, m: MatchMethod)
    ensures
        count_of(methods, m) >= 0,
    decreases methods.len(),
{
    if methods.len() > 0 {
        lemma_count_nonneg(methods.drop_last(), m);
    }
}

proof fn lemma_method_totals_grow(cs: Seq<BreakdownCluster>, k: int, m: MatchMethod)
    requires
        0 <= k <= cs.len(),
    ensures
        0 <= method_pairs(cs.take(k), m) <= method_pairs(cs, m),
        0 <= method_bytes(cs.take(k), m) <= method_bytes(cs, m),
    decreases cs.len() - k,
{
    if k < cs.len() {
        lemma_method_totals_grow(cs, k + 1, m);
        assert(cs.take(k + 1).drop_last() =~= cs.take(k));
        lemma_count_nonneg(cs[k].methods@, m);
        assert(count_of(cs[k].methods@, m) * cs[k].bytes >= 0) by (nonlinear_arith)
            requires
                count_of(cs[k].methods@, m) >= 0,
        ;
        lemma_method_totals_nonneg(cs.take(k), m);
    } else {
        assert(cs.take(k) =~= cs);
        lemma_method_totals_nonneg(cs, m);
    }
}

proof fn lemma_method_totals_nonneg(cs: Seq<BreakdownCluster>, m: MatchMethod)
    ensures
        method_pairs(cs, m) >= 0,
        method_bytes(cs, m) >= 0,
    decreases cs.len(),
{
    if cs.len() > 0 {
        lemma_method_totals_nonneg(cs.drop_last(), m);
        lemma_count_nonneg(cs.last().methods@, m);
        assert(count_of(cs.last().methods@, m) * cs.last().bytes >= 0) by (nonlinear_arith)
            requires
                count_of(cs.last().methods@, m) >= 0,
        ;
    }
}

/// The pairs and bytes of one method over all clusters.
fn tally(clusters: &Vec<BreakdownCluster>, m: MatchMethod) -> (r: (usize, u64))
    requires
        method_pairs(clusters@, m) <= usize::MAX,
        method_bytes(clusters@, m) <= u64::MAX,
    ensures
        r.0 == method_pairs(clusters@, m),
        r.1 == method_bytes(clusters@, m),
{
    let mut pairs: usize = 0;
    let mut bytes: u64 = 0;
    let mut k: usize = 0;
    while k < clusters.len()
        invariant
            k <= clusters@.len(),
            method_pairs(clusters@, m) <= usize::MAX,
            method_bytes(clusters@, m) <= u64::MAX,
            pairs == method_pairs(clusters@.take(k as int), m),
            bytes == method_bytes(clusters@.take(k as int), m),
        decreases clusters@.len() - k,
    {
        let ghost p = clusters@.take(k + 1);
        proof {
            assert(p.drop_last() =~= clusters@.take(k as int));
            assert(p.last() == clusters@[k as int]);
            lemma_method_totals_grow(clusters@, k + 1, m);
        }
        let c = &clusters[k];
        let ghost pairs0 = pairs as int;
        let ghost bytes0 = bytes as int;
        let mut i: usize = 0;
        while i < c.methods.len()
            invariant
                i <= c.methods@.len(),
                pairs == pairs0 + count_of(c.methods@.take(i as int), m),
                bytes == bytes0 + count_of(c.methods@.take(i as int), m) * c.bytes,
                pairs0 + count_of(c.methods@, m) <= usize::MAX,
                bytes0 + count_of(c.methods@, m) * c.bytes <= u64::MAX,
                pairs0 >= 0,
                bytes0 >= 0,
            decreases c.methods@.len() - i,
        {
            proof {
                lemma_count_step(c.methods@, i as int, m);
                lemma_count_step_bytes(c.methods@, i as int, m, c.bytes);
                let x = count_of(c.methods@.take(i as int), m);
                let b = c.bytes;
                assert((x + 1) * b == x * b + b) by (nonlinear_arith);
            }
            if c.methods[i] == m {
                pairs = pairs + 1;
                bytes = bytes + c.bytes;
            }
            i = i + 1;
        }
        proof {
            assert(c.methods@.take(c.methods@.len() as int) =~= c.methods@);
        }
        k = k + 1;
    }
    proof {
        assert(clusters@.take(clusters@.len() as int) =~= clusters@);
    }
    (pairs, bytes)
}

proof fn lemma_count_step_bytes(methods: Seq<MatchMethod>, i: int, m: MatchMethod, b: u64)
    requires
        0 <= i < methods.len(),
    ensures
        count_of(methods.take(i + 1), m) * b <= count_of(methods, m) * b,
        count_of(methods.take(i + 1), m) <= count_of(methods, m),
{
    lemma_count_step(methods, i, m);
    if i + 1 < methods.len() {
        lemma_count_step(methods, i + 1, m);
    } else {
        assert(methods.take(i + 1) =~= methods);
    }
    let x = count_of(methods.take(i + 1), m);
    let y = count_of(methods, m);
    assert(x * b <= y * b) by (nonlinear_arith)
        requires
            x <= y,
    ;
}

/// The position of a method in [`all_methods`].
pub open spec fn method_index(m: MatchMethod) -> int {
    match m {
        MatchMethod::FrameSimilarity => 0,
        MatchMethod::IframeTimeline => 1,
        MatchMethod::AudioFingerprint => 2,
        MatchMethod::Mpeg7Signature => 3,
        MatchMethod::SsimVerified => 4,
        MatchMethod::TemporalAverageHash => 5,
    }
}

/// A row holds its method's totals, and the method found some pair.
pub open spec fn row_ok(cs: Seq<BreakdownCluster>, r: MethodRow) -> bool {
    &&& r.pairs == method_pairs(cs, r.method)
    &&& r.bytes == method_bytes(cs, r.method)
    &&& r.pairs > 0
}

pub open spec fn has_method(rows: Seq<MethodRow>, m: MatchMethod) -> bool {
    exists|k: int| 0 <= k < rows.len() && (#[trigger] rows[k]).method == m
}

pub open spec fn rows_sorted(rows: Seq<MethodRow>) -> bool {
    forall|j: int, k: int| 0 <= j < k < rows.len() ==> rows[j].pairs >= rows[k].pairs
}

pub open spec fn rows_distinct(rows: Seq<MethodRow>) -> bool {
    forall|j: int, k: int| 0 <= j < k < rows.len() ==> rows[j].method != rows[k].method
}

/// Inserts `row` after every row with at least as many pairs.
fn insert_sorted(rows: &mut Vec<MethodRow>, row: MethodRow)
    requires
        rows_sorted(old(rows)@),
        rows_distinct(old(rows)@),
        !has_method(old(rows)@, row.method),
    ensures
        rows_sorted(final(rows)@),
        rows_distinct(final(rows)@),
        forall|m: MatchMethod| has_method(final(rows)@, m) == (has_method(old(rows)@, m) || m == row.method),
        forall|k: int| 0 <= k < final(rows)@.len() ==> #[trigger] final(rows)@[k] == row || old(rows)@.contains(final(rows)@[k]),
{
    let mut p: usize = 0;
    while p < rows.len() && rows[p].pairs >= row.pairs
        invariant
            p <= rows@.len(),
            forall|q: int| 0 <= q < p ==> rows@[q].pairs >= row.pairs,
        decreases rows@.len() - p,
    {
        p = p + 1;
    }
    let ghost old_rows = rows@;
    proof {
        assert forall|q: int| p <= q < old_rows.len() implies old_rows[q].pairs < row.pairs by {
            assert(old_rows[p as int].pairs < row.pairs);
            if q > p {
                assert(old_rows[p as int].pairs >= old_rows[q].pairs);
            }
        }
    }
    let ghost mv = row.method;
    rows.insert(p, row);
    proof {
        let nr = rows@;
        assert forall|j: int| 0 <= j < nr.len() implies nr[j] == (if j < p {
            old_rows[j]
        } else if j == p {
            row
        } else {
            old_rows[j - 1]
        }) by {}
        assert forall|j: int, k: int| 0 <= j < k < nr.len() implies nr[j].pairs >= nr[k].pairs
            && nr[j].method != nr[k].method by {
            if j != p && k != p {
                let oj = if j < p { j } else { j - 1 };
                let ok = if k < p { k } else { k - 1 };
                assert(nr[j] == old_rows[oj] && nr[k] == old_rows[ok]);
            } else if j == p {
                assert(nr[k] == old_rows[k - 1]);
                assert(!(old_rows[k - 1].method == mv));
            } else {
                assert(nr[j] == old_rows[j]);
                assert(!(old_rows[j].method == mv));
            }
        }
        assert forall|m: MatchMethod| has_method(nr, m) == (has_method(old_rows, m) || m == mv) by {
            if has_method(nr, m) {
                let k = choose|k: int| 0 <= k < nr.len() && (#[trigger] nr[k]).method == m;
                if k < p {
                    assert(old_rows[k].method == m);
                } else if k > p {
                    assert(old_rows[k - 1].method == m);
                }
            }
            if has_method(old_rows, m) {
                let k = choose|k: int| 0 <= k < old_rows.len() && (#[trigger] old_rows[k]).method == m;
                if k < p {
                    assert(nr[k].method == m);
                } else {
                    assert(nr[k + 1].method == m);
                }
            }
            if m == mv {
                assert(nr[p as int].method == m);
            }
        }
        assert forall|k: int| 0 <= k < nr.len() implies #[trigger] nr[k] == row || old_rows.contains(nr[k]) by {
            if k < p {
                assert(old_rows[k] == nr[k]);
            } else if k > p {
                assert(old_rows[k - 1] == nr[k]);
            }
        }
    }
}

/// The breakdown of the pairs by the method that found them: one row for
/// each method that found any pair, with its number of pairs and the bytes
/// of the clusters those pairs lie in, most pairs first.
pub fn method_breakdown(clusters: &Vec<BreakdownCluster>) -> (rows: Vec<MethodRow>)
    requires
        breakdown_fits(clusters@),
    ensures
        forall|k: int| 0 <= k < rows@.len() ==> row_ok(clusters@, #[trigger] rows@[k]),
        forall|m: MatchMethod| has_method(rows@, m) <==> method_pairs(clusters@, m) > 0,
        rows_distinct(rows@),
        rows_sorted(rows@),
{
    let methods = [
        MatchMethod::FrameSimilarity,
        MatchMethod::IframeTimeline,
        MatchMethod::AudioFingerprint,
        MatchMethod::Mpeg7Signature,
        MatchMethod::SsimVerified,
        MatchMethod::TemporalAverageHash,
    ];
    let mut rows: Vec<MethodRow> = Vec::new();
    let mut t: usize = 0;
    while t < 6
        invariant
            t <= 6,
            methods@ == all_methods(),
            breakdown_fits(clusters@),
            forall|k: int| 0 <= k < rows@.len() ==> row_ok(clusters@, #[trigger] rows@[k]),
            forall|m: MatchMethod|
                has_method(rows@, m) <==> (method_index(m) < t && method_pairs(clusters@, m) > 0),
            rows_distinct(rows@),
            rows_sorted(rows@),
        decreases 6 - t,
    {
        let m = methods[t];
        proof {
            assert(method_index(m) == t);
            assert(method_bytes(clusters@, m) <= u64::MAX);
        }
        let (pairs, bytes) = tally(clusters, m);
        if pairs > 0 {
            let ghost before = rows@;
            let row = MethodRow { method: m, pairs, bytes };
            insert_sorted(&mut rows, row);
            proof {
                assert forall|k: int| 0 <= k < rows@.len() implies row_ok(clusters@, #[trigger] rows@[k]) by {
                    if rows@[k] != row {
                        let j = choose|j: int| 0 <= j < before.len() && before[j] == rows@[k];
                        assert(row_ok(clusters@, before[j]));
                    }
                }
            }
        }
        t = t + 1;
    }
    rows
}

} // verus!
