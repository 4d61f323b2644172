//! State kept by the user interface: the live scan log, capped at
//! `MAX_LOG` entries, and the order of the results list.

use vstd::prelude::*;

verus! {

/// The most entries the live log keeps.
pub const MAX_LOG: usize = 500;

/// The severity of a log entry.
#[derive(Debug, Clone, Copy, PartialEq, Eq, Structural)]
pub enum LogLevel {
    Info,
    Warn,
    Error,
}

/// One entry of the live log panel.
#[derive(Debug, Clone)]
pub struct LogEntry {
    pub level: LogLevel,
    pub message: String,
}

/// Sort order of the results list.
#[derive(Debug, Clone, Copy, PartialEq, Eq, Structural)]
pub enum ResultSort {
    SimilarityDesc,
    SimilarityAsc,
    SizeDesc,
}

impl Default for ResultSort {
    fn default() -> (r: Self)
        ensures
            r == ResultSort::SimilarityDesc,
    {
        ResultSort::SimilarityDesc
    }
}

/// The live log of a scan: the newest entries, oldest first.
pub struct ScanLog {
    pub entries: Vec<LogEntry>,
}

/// The log after adding `e`: when it is full the oldest entry makes room.
pub open spec fn log_after(entries: Seq<LogEntry>, e: LogEntry) -> Seq<LogEntry> {
    if entries.len() >= MAX_LOG {
        entries.drop_first().push(e)
    } else {
        entries.push(e)
    }
}

impl ScanLog {
    /// An empty log.
    pub fn new() -> (r: Self)
        ensures
            r.entries@.len() == 0,
    {
        ScanLog { entries: Vec::new() }
    }

    /// Appends an entry, dropping the oldest one when the log is full.
    pub fn push_log(&mut self, level: LogLevel, message: String)
        ensures
            final(self).entries@ == log_after(old(self).entries@, LogEntry { level, message }),
    {
        if self.entries.len() >= MAX_LOG {
            self.entries.remove(0);
            proof {
                assert(self.entries@ =~= old(self).entries@.drop_first());
            }
        }
        self.entries.push(LogEntry { level, message });
    }

    /// Empties the log.
    pub fn reset(&mut self)
        ensures
            final(self).entries@.len() == 0,
    {
        self.entries.clear();
    }
}

/// The log never holds more than `MAX_LOG` entries, the newest entry is
/// always the last, and the entries before it keep their order.
pub proof fn lemma_log_capped(entries: Seq<LogEntry>, e: LogEntry)
    requires
        entries.len() <= MAX_LOG,
    ensures
        log_after(entries, e).len() <= MAX_LOG,
        log_after(entries, e).last() == e,
        log_after(entries, e).drop_last() == (if entries.len() == MAX_LOG {
            entries.drop_first()
        } else {
            entries
        }),
{
    assert(log_after(entries, e).drop_last() =~= (if entries.len() == MAX_LOG {
        entries.drop_first()
    } else {
        entries
    }));
}

/// Which entries the log view shows.
#[derive(Debug, Clone, Copy, PartialEq, Eq, Structural)]
pub enum LevelFilter {
    All,
    Info,
    Warn,
    Error,
}

pub open spec fn level_shown(filter: LevelFilter, level: LogLevel) -> bool {
    match filter {
        LevelFilter::All => true,
        LevelFilter::Info => level == LogLevel::Info,
        LevelFilter::Warn => level == LogLevel::Warn,
        LevelFilter::Error => level == LogLevel::Error,
    }
}

/// The positions of the entries the filter shows, in order.
pub open spec fn shown_entries(entries: Seq<LogEntry>, filter: LevelFilter) -> Seq<usize>
    decreases entries.len(),
{
    if entries.len() == 0 {
        Seq::empty()
    } else {
        let r = shown_entries(entries.drop_last(), filter);
        if level_shown(filter, entries.last().level) {
            r.push((entries.len() - 1) as usize)
        } else {
            r
        }
    }
}

impl ScanLog {
    /// The positions of the entries shown under a level filter, oldest
    /// first.
    pub fn filtered(&self, filter: LevelFilter) -> (r: Vec<usize>)
        ensures
            r@ == shown_entries(self.entries@, filter),
    {
        let mut r: Vec<usize> = Vec::new();
        let mut i: usize = 0;
        while i < self.entries.len()
            invariant
                i <= self.entries@.len(),
                r@ == shown_entries(self.entries@.take(i as int), filter),
            decreases self.entries@.len() - i,
        {
            proof {
                assert(self.entries@.take(i + 1).drop_last() =~= self.entries@.take(i as int));
                assert(self.entries@.take(i + 1).last() == self.entries@[i as int]);
            }
            let shown = match filter {
                LevelFilter::All => true,
                LevelFilter::Info => self.entries[i].level == LogLevel::Info,
                LevelFilter::Warn => self.entries[i].level == LogLevel::Warn,
                LevelFilter::Error => self.entries[i].level == LogLevel::Error,
            };
            if shown {
                r.push(i);
            }
            i = i + 1;
        }
        proof {
            assert(self.entries@.take(self.entries@.len() as int) =~= self.entries@);
        }
        r
    }
}

// ─── Result clusters ─────────────────────────────────────────────────────────

/// One duplicate edge of a result cluster. `similarity_bits` holds the
/// bits of the (non-negative) similarity, which order as the values do.
pub struct ResultEdge {
    pub file_a: String,
    pub file_b: String,
    pub similarity_bits: u32,
}

/// One cluster of the results list.
pub struct ResultCluster {
    pub files: Vec<String>,
    pub edges: Vec<ResultEdge>,
    /// The largest similarity of the edges (0 when none), as bits.
    pub max_similarity_bits: u32,
}

pub open spec fn ids_without(ids: Seq<String>, id: Seq<char>) -> Seq<Seq<char>>
    decreases ids.len(),
{
    if ids.len() == 0 {
        Seq::empty()
    } else {
        let r = ids_without(ids.drop_last(), id);
        if ids.last()@ == id {
            r
        } else {
            r.push(ids.last()@)
        }
    }
}

pub open spec fn edge_view(e: ResultEdge) -> (Seq<char>, Seq<char>, u32) {
    (e.file_a@, e.file_b@, e.similarity_bits)
}

pub open spec fn edges_without(edges: Seq<ResultEdge>, id: Seq<char>) -> Seq<(Seq<char>, Seq<char>, u32)>
    decreases edges.len(),
{
    if edges.len() == 0 {
        Seq::empty()
    } else {
        let r = edges_without(edges.drop_last(), id);
        let e = edges.last();
        if e.file_a@ != id && e.file_b@ != id {
            r.push(edge_view(e))
        } else {
            r
        }
    }
}

pub open spec fn max_bits(edges: Seq<(Seq<char>, Seq<char>, u32)>) -> u32
    decreases edges.len(),
{
    if edges.len() == 0 {
        0
    } else {
        let m = max_bits(edges.drop_last());
        if edges.last().2 > m {
            edges.last().2
        } else {
            m
        }
    }
}

/// A cluster as plain values: its files, its edges and its best similarity.
pub open spec fn cluster_view(c: ResultCluster) -> (Seq<Seq<char>>, Seq<(Seq<char>, Seq<char>, u32)>, u32) {
    (c.files@.map_values(|f: String| f@), c.edges@.map_values(|e: ResultEdge| edge_view(e)), c.max_similarity_bits)
}

/// The clusters after file `id` is removed from all of them: its edges go
/// too, the best similarity is recomputed, and clusters left with fewer
/// than two files disappear.
pub open spec fn after_removal(clusters: Seq<ResultCluster>, id: Seq<char>) -> Seq<
    (Seq<Seq<char>>, Seq<(Seq<char>, Seq<char>, u32)>, u32),
>
    decreases clusters.len(),
{
    if clusters.len() == 0 {
        Seq::empty()
    } else {
        let r = after_removal(clusters.drop_last(), id);
        let c = clusters.last();
        let fs = ids_without(c.files@, id);
        let es = edges_without(c.edges@, id);
        if fs.len() >= 2 {
            r.push((fs, es, max_bits(es)))
        } else {
            r
        }
    }
}

fn copy_string(s: &String) -> (r: String)
    ensures
        r@ == s@,
{
    s.clone()
}

/// Removes a file from whichever clusters hold it (see [`after_removal`]).
pub fn remove_file(clusters: &mut Vec<ResultCluster>, file_id: &str)
    ensures
        final(clusters)@.map_values(|c: ResultCluster| cluster_view(c)) == after_removal(old(clusters)@, file_id@),
{
    let ghost orig = clusters@;
    let idc = crate::text::chars_of(file_id);
    let mut out: Vec<ResultCluster> = Vec::new();
    let mut k: usize = 0;
    while k < clusters.len()
        invariant
            k <= clusters@.len(),
            clusters@ == orig,
            idc@ == file_id@,
            out@.map_values(|c: ResultCluster| cluster_view(c)) == after_removal(orig.take(k as int), file_id@),
        decreases clusters@.len() - k,
    {
        proof {
            assert(orig.take(k + 1).drop_last() =~= orig.take(k as int));
            assert(orig.take(k + 1).last() == orig[k as int]);
        }
        let c = &clusters[k];
        let mut files: Vec<String> = Vec::new();
        let mut i: usize = 0;
        while i < c.files.len()
            invariant
                i <= c.files@.len(),
                idc@ == file_id@,
                files@.map_values(|f: String| f@) == ids_without(c.files@.take(i as int), file_id@),
            decreases c.files@.len() - i,
        {
            proof {
                assert(c.files@.take(i + 1).drop_last() =~= c.files@.take(i as int));
                assert(c.files@.take(i + 1).last() == c.files@[i as int]);
            }
            if !crate::text::chars_equal(&crate::text::chars_of(c.files[i].as_str()), &idc) {
                let ghost before = files@.map_values(|f: String| f@);
                files.push(copy_string(&c.files[i]));
                proof {
                    assert(files@.map_values(|f: String| f@) =~= before.push(c.files@[i as int]@));
                }
            }
            i = i + 1;
        }
        proof {
            assert(c.files@.take(c.files@.len() as int) =~= c.files@);
        }
        let mut edges: Vec<ResultEdge> = Vec::new();
        let mut best: u32 = 0;
        let mut j: usize = 0;
        while j < c.edges.len()
            invariant
                j <= c.edges@.len(),
                idc@ == file_id@,
                edges@.map_values(|e: ResultEdge| edge_view(e)) == edges_without(c.edges@.take(j as int), file_id@),
                best == max_bits(edges_without(c.edges@.take(j as int), file_id@)),
            decreases c.edges@.len() - j,
        {
            proof {
                assert(c.edges@.take(j + 1).drop_last() =~= c.edges@.take(j as int));
                assert(c.edges@.take(j + 1).last() == c.edges@[j as int]);
            }
            let e = &c.edges[j];
            let touches = crate::text::chars_equal(&crate::text::chars_of(e.file_a.as_str()), &idc)
                || crate::text::chars_equal(&crate::text::chars_of(e.file_b.as_str()), &idc);
            if !touches {
                let ghost before = edges@.map_values(|e: ResultEdge| edge_view(e));
                edges.push(
                    ResultEdge {
                        file_a: copy_string(&e.file_a),
                        file_b: copy_string(&e.file_b),
                        similarity_bits: e.similarity_bits,
                    },
                );
                if e.similarity_bits > best {
                    best = e.similarity_bits;
                }
                proof {
                    assert(edges@.map_values(|e: ResultEdge| edge_view(e)) =~= before.push(edge_view(c.edges@[j as int])));
                    let es1 = edges_without(c.edges@.take(j + 1), file_id@);
                    assert(es1 == before.push(edge_view(c.edges@[j as int])));
                    assert(es1.drop_last() =~= before);
                }
            }
            j = j + 1;
        }
        proof {
            assert(c.edges@.take(c.edges@.len() as int) =~= c.edges@);
        }
        if files.len() >= 2 {
            let ghost before = out@.map_values(|c: ResultCluster| cluster_view(c));
            let nc = ResultCluster { files, edges, max_similarity_bits: best };
            let ghost v = cluster_view(nc);
            out.push(nc);
            proof {
                assert(out@.map_values(|c: ResultCluster| cluster_view(c)) =~= before.push(v));
            }
        }
        k = k + 1;
    }
    proof {
        assert(orig.take(orig.len() as int) =~= orig);
    }
    *clusters = out;
}

/// Some file of the cluster is among the ids.
pub open spec fn holds_any(c: ResultCluster, ids: Seq<String>) -> bool {
    exists|i: int, j: int|
        0 <= i < c.files@.len() && 0 <= j < ids.len() && #[trigger] c.files@[i]@ == #[trigger] ids[j]@
}

/// The clusters that hold none of the ids, in order.
pub open spec fn clusters_without(clusters: Seq<ResultCluster>, ids: Seq<String>) -> Seq<
    (Seq<Seq<char>>, Seq<(Seq<char>, Seq<char>, u32)>, u32),
>
    decreases clusters.len(),
{
    if clusters.len() == 0 {
        Seq::empty()
    } else {
        let r = clusters_without(clusters.drop_last(), ids);
        if holds_any(clusters.last(), ids) {
            r
        } else {
            r.push(cluster_view(clusters.last()))
        }
    }
}

fn holds_any_exec(c: &ResultCluster, ids: &Vec<String>) -> (r: bool)
    ensures
        r == holds_any(*c, ids@),
{
    let mut i: usize = 0;
    while i < c.files.len()
        invariant
            i <= c.files@.len(),
            forall|a: int, b: int|
                0 <= a < i && 0 <= b < ids@.len() ==> #[trigger] c.files@[a]@ != #[trigger] ids@[b]@,
        decreases c.files@.len() - i,
    {
        let mut j: usize = 0;
        while j < ids.len()
            invariant
                i < c.files@.len(),
                j <= ids@.len(),
                forall|a: int, b: int|
                    0 <= a < i && 0 <= b < ids@.len() ==> #[trigger] c.files@[a]@ != #[trigger] ids@[b]@,
                forall|b: int| 0 <= b < j ==> c.files@[i as int]@ != #[trigger] ids@[b]@,
            decreases ids@.len() - j,
        {
            if c.files[i] == ids[j] {
                return true;
            }
            j = j + 1;
        }
        i = i + 1;
    }
    false
}

/// Removes every cluster that holds one of the given files.
pub fn remove_cluster_containing(clusters: &mut Vec<ResultCluster>, file_ids: &Vec<String>)
    ensures
        final(clusters)@.map_values(|c: ResultCluster| cluster_view(c)) == clusters_without(old(clusters)@, file_ids@),
{
    let ghost orig = clusters@;
    let n = clusters.len();
    // Take the clusters out last first, then put back those that stay.
    let mut taken: Vec<ResultCluster> = Vec::new();
    let mut k: usize = 0;
    while k < n
        invariant
            k <= n == orig.len(),
            clusters@ == orig.take((n - k) as int),
            taken@.len() == k,
            forall|q: int| 0 <= q < k ==> taken@[q] == orig[n - 1 - q],
        decreases n - k,
    {
        let c = clusters.pop().unwrap();
        proof {
            assert(c == orig[n - 1 - k]);
            assert(clusters@ =~= orig.take((n - k - 1) as int));
        }
        taken.push(c);
        k = k + 1;
    }
    let mut out: Vec<ResultCluster> = Vec::new();
    proof {
        assert(orig.take(0) =~= Seq::<ResultCluster>::empty());
        assert(out@.map_values(|c: ResultCluster| cluster_view(c)) =~= Seq::empty());
    }
    let mut m: usize = n;
    while m > 0
        invariant
            m <= n == orig.len(),
            taken@.len() == m,
            forall|q: int| 0 <= q < m ==> taken@[q] == orig[n - 1 - q],
            out@.map_values(|c: ResultCluster| cluster_view(c)) == clusters_without(orig.take((n - m) as int), file_ids@),
        decreases m,
    {
        let c = taken.pop().unwrap();
        proof {
            assert(c == orig[n - m]);
            let t = (n - m + 1) as int;
            assert(orig.take(t).drop_last() =~= orig.take(t - 1));
            assert(orig.take(t).last() == orig[t - 1]);
        }
        m = m - 1;
        if !holds_any_exec(&c, file_ids) {
            let ghost before = out@.map_values(|c: ResultCluster| cluster_view(c));
            let ghost v = cluster_view(c);
            out.push(c);
            proof {
                assert(out@.map_values(|c: ResultCluster| cluster_view(c)) =~= before.push(v));
            }
        }
    }
    proof {
        assert(orig.take(n as int) =~= orig);
    }
    *clusters = out;
}

proof fn lemma_ids_without(ids: Seq<String>, id: Seq<char>)
    ensures
        !ids_without(ids, id).contains(id),
    decreases ids.len(),
{
    if ids.len() > 0 {
        lemma_ids_without(ids.drop_last(), id);
        let r = ids_without(ids.drop_last(), id);
        if ids.last()@ != id {
            assert forall|k: int| 0 <= k < r.push(ids.last()@).len() implies r.push(ids.last()@)[k] != id by {
                if k < r.len() {
                    assert(r.push(ids.last()@)[k] == r[k]);
                }
            }
        }
    }
}

proof fn lemma_edges_without(edges: Seq<ResultEdge>, id: Seq<char>)
    ensures
        forall|k: int|
            0 <= k < edges_without(edges, id).len() ==> (#[trigger] edges_without(edges, id)[k]).0 != id
                && edges_without(edges, id)[k].1 != id,
    decreases edges.len(),
{
    if edges.len() > 0 {
        lemma_edges_without(edges.drop_last(), id);
        let r = edges_without(edges.drop_last(), id);
        let all = edges_without(edges, id);
        assert forall|k: int| 0 <= k < all.len() implies (#[trigger] all[k]).0 != id && all[k].1 != id by {
            if k < r.len() {
                assert(all[k] == r[k]);
            }
        }
    }
}

/// After a file is removed, no cluster lists it or an edge that touches
/// it, and every cluster left has at least two files.
pub proof fn lemma_removed_file_gone(clusters: Seq<ResultCluster>, id: Seq<char>)
    ensures
        forall|c: int|
            0 <= c < after_removal(clusters, id).len() ==> {
                let cl = #[trigger] after_removal(clusters, id)[c];
                &&& !cl.0.contains(id)
                &&& cl.0.len() >= 2
                &&& forall|k: int| 0 <= k < cl.1.len() ==> (#[trigger] cl.1[k]).0 != id && cl.1[k].1 != id
            },
    decreases clusters.len(),
{
    if clusters.len() > 0 {
        lemma_removed_file_gone(clusters.drop_last(), id);
        let c = clusters.last();
        lemma_ids_without(c.files@, id);
        lemma_edges_without(c.edges@, id);
        let r = after_removal(clusters.drop_last(), id);
        let all = after_removal(clusters, id);
        assert forall|q: int| 0 <= q < all.len() implies {
            let cl = #[trigger] all[q];
            &&& !cl.0.contains(id)
            &&& cl.0.len() >= 2
            &&& forall|k: int| 0 <= k < cl.1.len() ==> (#[trigger] cl.1[k]).0 != id && cl.1[k].1 != id
        } by {
            if q < r.len() {
                assert(all[q] == r[q]);
            }
        }
    }
}

// ─── Sorting the results ─────────────────────────────────────────────────────

/// What the results order reads of a cluster: its best similarity (as the
/// bits of a non-negative `f32`) and the sizes of its files.
pub struct SortKey {
    pub similarity_bits: u32,
    pub sizes: Vec<u64>,
}

pub open spec fn total_size(sizes: Seq<u64>) -> int
    decreases sizes.len(),
{
    if sizes.len() == 0 {
        0
    } else {
        total_size(sizes.drop_last()) + sizes.last()
    }
}

/// The key a sort compares, and whether larger keys come first.
pub open spec fn sort_key(k: SortKey, sort: ResultSort) -> int {
    match sort {
        ResultSort::SizeDesc => total_size(k.sizes@),
        _ => k.similarity_bits as int,
    }
}

pub open spec fn descending(sort: ResultSort) -> bool {
    sort != ResultSort::SimilarityAsc
}

/// Cluster `i` comes before cluster `j`: by key, ties in their order.
pub open spec fn cluster_before(keys: Seq<SortKey>, sort: ResultSort, i: int, j: int) -> bool {
    let a = sort_key(keys[i], sort);
    let b = sort_key(keys[j], sort);
    if descending(sort) {
        a > b || (a == b && i < j)
    } else {
        a < b || (a == b && i < j)
    }
}

/// `order` lists every cluster once, in the sort's order.
pub open spec fn is_sorted_order(order: Seq<usize>, keys: Seq<SortKey>, sort: ResultSort) -> bool {
    &&& order.len() == keys.len()
    &&& forall|k: int| 0 <= k < order.len() ==> (#[trigger] order[k]) < keys.len()
    &&& forall|p: int, q: int| 0 <= p < q < order.len() ==> cluster_before(keys, sort, order[p] as int, order[q] as int)
}

fn total_size_exec(sizes: &Vec<u64>) -> (t: u64)
    requires
        total_size(sizes@) <= u64::MAX,
    ensures
        t == total_size(sizes@),
{
    let mut t: u64 = 0;
    let mut i: usize = 0;
    while i < sizes.len()
        invariant
            i <= sizes@.len(),
            total_size(sizes@) <= u64::MAX,
            t == total_size(sizes@.take(i as int)),
        decreases sizes@.len() - i,
    {
        proof {
            assert(sizes@.take(i + 1).drop_last() =~= sizes@.take(i as int));
            lemma_total_prefix(sizes@, i + 1);
        }
        t = t + sizes[i];
        i = i + 1;
    }
    proof {
        assert(sizes@.take(sizes@.len() as int) =~= sizes@);
    }
    t
}

proof fn lemma_total_prefix(sizes: Seq<u64>, k: int)
    requires
        0 <= k <= sizes.len(),
    ensures
        total_size(sizes.take(k)) <= total_size(sizes),
    decreases sizes.len() - k,
{
    if k < sizes.len() {
        lemma_total_prefix(sizes, k + 1);
        assert(sizes.take(k + 1).drop_last() =~= sizes.take(k));
    } else {
        assert(sizes.take(k) =~= sizes);
    }
}

/// The order in which the results list shows the clusters: a stable sort
/// by best similarity (highest or lowest first) or by the total size of
/// their files (largest first).
pub fn apply_sort(keys: &Vec<SortKey>, sort: ResultSort) -> (order: Vec<usize>)
    requires
        forall|k: int| 0 <= k < keys@.len() ==> total_size((#[trigger] keys@[k]).sizes@) <= u64::MAX,
    ensures
        is_sorted_order(order@, keys@, sort),
        forall|x: usize| (x as int) < keys@.len() ==> #[trigger] order@.contains(x),
{
    let n = keys.len();
    let mut vals: Vec<u64> = Vec::new();
    let mut k: usize = 0;
    while k < n
        invariant
            k <= n == keys@.len(),
            forall|q: int| 0 <= q < keys@.len() ==> total_size((#[trigger] keys@[q]).sizes@) <= u64::MAX,
            vals@.len() == k,
            forall|q: int| 0 <= q < k ==> #[trigger] vals@[q] as int == sort_key(keys@[q], sort),
        decreases n - k,
    {
        let v = match sort {
            ResultSort::SizeDesc => total_size_exec(&keys[k].sizes),
            _ => keys[k].similarity_bits as u64,
        };
        vals.push(v);
        k = k + 1;
    }
    let desc = match sort {
        ResultSort::SimilarityAsc => false,
        _ => true,
    };
    let mut order: Vec<usize> = Vec::new();
    let mut x: usize = 0;
    while x < n
        invariant
            x <= n == keys@.len(),
            vals@.len() == n,
            desc == descending(sort),
            forall|q: int| 0 <= q < n ==> #[trigger] vals@[q] as int == sort_key(keys@[q], sort),
            order@.len() == x,
            forall|q: int| 0 <= q < order@.len() ==> (#[trigger] order@[q]) < x,
            forall|y: usize| (y as int) < x ==> #[trigger] order@.contains(y),
            forall|p: int, q: int| 0 <= p < q < order@.len() ==> cluster_before(keys@, sort, order@[p] as int, order@[q] as int),
        decreases n - x,
    {
        let mut p: usize = 0;
        while p < order.len() && ((desc && vals[order[p]] >= vals[x]) || (!desc && vals[order[p]] <= vals[x]))
            invariant
                p <= order@.len(),
                x < n,
                vals@.len() == n,
                forall|q: int| 0 <= q < order@.len() ==> (#[trigger] order@[q]) < x,
                forall|q: int| 0 <= q < p ==> cluster_before(keys@, sort, order@[q] as int, x as int),
                desc == descending(sort),
                forall|q: int| 0 <= q < n ==> #[trigger] vals@[q] as int == sort_key(keys@[q], sort),
            decreases order@.len() - p,
        {
            p = p + 1;
        }
        let ghost old_order = order@;
        proof {
            assert forall|q: int| p <= q < old_order.len() implies cluster_before(
                keys@,
                sort,
                x as int,
                old_order[q] as int,
            ) by {
                let f = old_order[p as int] as int;
                assert(cluster_before(keys@, sort, x as int, f));
                if q > p {
                    assert(cluster_before(keys@, sort, f, old_order[q] as int));
                }
            }
        }
        order.insert(p, x);
        proof {
            let no = order@;
            assert forall|q: int| 0 <= q < no.len() implies no[q] == (if q < p {
                old_order[q]
            } else if q == p {
                x
            } else {
                old_order[q - 1]
            }) by {}
            assert forall|y: usize| (y as int) < x + 1 implies #[trigger] no.contains(y) by {
                if (y as int) < x {
                    assert(old_order.contains(y));
                    let q = choose|q: int| 0 <= q < old_order.len() && old_order[q] == y;
                    if q < p {
                        assert(no[q] == y);
                    } else {
                        assert(no[q + 1] == y);
                    }
                } else {
                    assert(no[p as int] == y);
                }
            }
        }
        x = x + 1;
    }
    order
}

// ─── Scan folders ────────────────────────────────────────────────────────────

/// Adds a folder typed into the scan view to a folder list (those to scan,
/// or those to leave out). The text is trimmed first; an empty one adds
/// nothing, and `false` comes back.
pub fn add_scan_folder(folders: &mut Vec<String>, typed: &str) -> (added: bool)
    ensures
        added == (crate::text::trimmed(typed@).len() > 0),
        final(folders)@.map_values(|f: String| f@) == (if added {
            old(folders)@.map_values(|f: String| f@).push(crate::text::trimmed(typed@))
        } else {
            old(folders)@.map_values(|f: String| f@)
        }),
{
    let t = crate::text::trim_chars(&crate::text::chars_of(typed));
    if t.len() == 0 {
        return false;
    }
    folders.push(crate::text::string_of(&t));
    proof {
        assert(folders@.map_values(|f: String| f@) =~= old(folders)@.map_values(|f: String| f@).push(
            crate::text::trimmed(typed@),
        ));
    }
    true
}

} // verus!
