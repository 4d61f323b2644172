//! Custom selection in the results view: which files of the duplicate
//! clusters get marked for removal, filtered by type, size, path patterns
//! and similarity.

use crate::scan::{lemma_split_nonempty, lemma_split_step, lemma_views_of_index, views_of};
use crate::text::{chars_of, split_on};
use vstd::prelude::*;

verus! {

// ─── Glob patterns ───────────────────────────────────────────────────────────

/// `s` occurs in `t` starting at position `k`.
pub open spec fn occurs_at(t: Seq<char>, s: Seq<char>, k: int) -> bool {
    0 <= k && k + s.len() <= t.len() && t.subrange(k, k + s.len()) == s
}

/// `s` occurs somewhere in `t`.
pub open spec fn contains_str(t: Seq<char>, s: Seq<char>) -> bool {
    exists|k: int| occurs_at(t, s, k)
}

pub open spec fn starts_with(t: Seq<char>, s: Seq<char>) -> bool {
    s.len() <= t.len() && t.take(s.len() as int) == s
}

pub open spec fn ends_with(t: Seq<char>, s: Seq<char>) -> bool {
    s.len() <= t.len() && t.skip(t.len() - s.len()) == s
}

/// The first position at or after `from` where `s` occurs in `t`.
pub open spec fn find_from(t: Seq<char>, s: Seq<char>, from: int) -> Option<int>
    decreases t.len() + 1 - from,
{
    if from < 0 || from + s.len() > t.len() {
        None
    } else if occurs_at(t, s, from) {
        Some(from)
    } else {
        find_from(t, s, from + 1)
    }
}

/// Matching the `*`-separated parts of a pattern from part `i` on, the
/// path having been consumed up to `pos`: the first part anchors at the
/// start, the last at the end, and each part between is found after the
/// previous one. Empty parts match anything.
pub open spec fn glob_parts(parts: Seq<Seq<char>>, path: Seq<char>, i: int, pos: int) -> bool
    decreases parts.len() - i,
{
    if i < 0 || i >= parts.len() {
        true
    } else if parts[i].len() == 0 {
        glob_parts(parts, path, i + 1, pos)
    } else if i == 0 {
        starts_with(path, parts[0]) && glob_parts(parts, path, 1, parts[0].len() as int)
    } else if i == parts.len() - 1 {
        ends_with(path, parts[i])
    } else {
        match find_from(path, parts[i], pos) {
            Some(k) => glob_parts(parts, path, i + 1, k + parts[i].len()),
            None => false,
        }
    }
}

/// Whether `path` matches the simple glob `pattern`: without `*` or `?` the
/// pattern need only occur in the path; otherwise its `*`-separated parts
/// are matched in order (`?` has no special meaning inside a part).
pub open spec fn glob_matches(pattern: Seq<char>, path: Seq<char>) -> bool {
    if !pattern.contains('*') && !pattern.contains('?') {
        contains_str(path, pattern)
    } else {
        glob_parts(split_on(pattern, '*'), path, 0, 0)
    }
}

proof fn lemma_find_from(t: Seq<char>, s: Seq<char>, from: int)
    requires
        0 <= from,
    ensures
        match find_from(t, s, from) {
            Some(k) => from <= k && occurs_at(t, s, k),
            None => forall|k: int| from <= k ==> !#[trigger] occurs_at(t, s, k),
        },
    decreases t.len() + 1 - from,
{
    if from + s.len() <= t.len() && !occurs_at(t, s, from) {
        lemma_find_from(t, s, from + 1);
        if find_from(t, s, from + 1) is None {
            assert forall|k: int| from <= k implies !#[trigger] occurs_at(t, s, k) by {
                if k > from {
                    assert(from + 1 <= k);
                }
            }
        }
    }
}

fn occurs_at_exec(t: &Vec<char>, s: &Vec<char>, k: usize) -> (r: bool)
    ensures
        r == occurs_at(t@, s@, k as int),
{
    if s.len() > t.len() || k > t.len() - s.len() {
        return false;
    }
    let mut m: usize = 0;
    while m < s.len()
        invariant
            m <= s@.len(),
            k + s@.len() <= t@.len(),
            t@.len() <= usize::MAX,
            forall|q: int| 0 <= q < m ==> t@[k + q] == s@[q],
        decreases s@.len() - m,
    {
        if t[k + m] != s[m] {
            assert(t@.subrange(k as int, k + s@.len())[m as int] != s@[m as int]);
            return false;
        }
        m = m + 1;
    }
    assert(t@.subrange(k as int, k + s@.len()) =~= s@);
    true
}

fn find_from_exec(t: &Vec<char>, s: &Vec<char>, from: usize) -> (r: Option<usize>)
    requires
        from <= t@.len(),
    ensures
        match r {
            Some(k) => find_from(t@, s@, from as int) == Some(k as int),
            None => find_from(t@, s@, from as int) is None,
        },
{
    if s.len() > t.len() || from > t.len() - s.len() {
        return None;
    }
    let last = t.len() - s.len();
    let mut k: usize = from;
    while k < last
        invariant
            from <= k <= last,
            last + s@.len() == t@.len(),
            find_from(t@, s@, from as int) == find_from(t@, s@, k as int),
        decreases last - k,
    {
        if occurs_at_exec(t, s, k) {
            return Some(k);
        }
        k = k + 1;
    }
    proof {
        assert(find_from(t@, s@, last + 1) is None);
    }
    if occurs_at_exec(t, s, last) {
        Some(last)
    } else {
        None
    }
}

fn starts_with_exec(t: &Vec<char>, s: &Vec<char>) -> (r: bool)
    ensures
        r == starts_with(t@, s@),
{
    let r = occurs_at_exec(t, s, 0);
    proof {
        if s@.len() <= t@.len() {
            assert(t@.take(s@.len() as int) =~= t@.subrange(0, s@.len() as int));
        }
    }
    r
}

fn ends_with_exec(t: &Vec<char>, s: &Vec<char>) -> (r: bool)
    ensures
        r == ends_with(t@, s@),
{
    if s.len() > t.len() {
        return false;
    }
    let r = occurs_at_exec(t, s, t.len() - s.len());
    proof {
        assert(t@.skip(t@.len() - s@.len()) =~= t@.subrange(t@.len() - s@.len(), t@.len() as int));
    }
    r
}

fn has_char(s: &Vec<char>, c: char) -> (r: bool)
    ensures
        r == s@.contains(c),
{
    let mut i: usize = 0;
    while i < s.len()
        invariant
            i <= s@.len(),
            forall|k: int| 0 <= k < i ==> s@[k] != c,
        decreases s@.len() - i,
    {
        if s[i] == c {
            assert(s@[i as int] == c);
            return true;
        }
        i = i + 1;
    }
    false
}

/// `s` cut at every `sep`, empty pieces included.
pub(crate) fn split_chars(s: &Vec<char>, sep: char) -> (r: Vec<Vec<char>>)
    ensures
        views_of(r@) == split_on(s@, sep),
{
    let ghost v = s@;
    let mut done: Vec<Vec<char>> = Vec::new();
    let mut current: Vec<char> = Vec::new();
    let mut i: usize = 0;
    proof {
        assert(v.take(0) =~= Seq::<char>::empty());
        assert(views_of(done@) =~= split_on(v.take(0), sep).drop_last());
    }
    while i < s.len()
        invariant
            i <= v.len(),
            v == s@,
            split_on(v.take(i as int), sep).len() >= 1,
            current@ == split_on(v.take(i as int), sep).last(),
            views_of(done@) == split_on(v.take(i as int), sep).drop_last(),
        decreases v.len() - i,
    {
        proof {
            lemma_split_step(v, i as int, sep);
            lemma_split_nonempty(v.take(i + 1), sep);
        }
        let ghost p = split_on(v.take(i as int), sep);
        if s[i] == sep {
            let ghost before = views_of(done@);
            done.push(current);
            current = Vec::new();
            proof {
                assert(p.push(Seq::empty()).drop_last() =~= p);
                assert(p.drop_last().push(p.last()) =~= p);
                assert(views_of(done@) =~= before.push(p.last()));
                assert(current@ =~= Seq::<char>::empty());
            }
        } else {
            current.push(s[i]);
            proof {
                let q = p.update(p.len() - 1, p.last().push(v[i as int]));
                assert(q.drop_last() =~= p.drop_last());
            }
        }
        i = i + 1;
    }
    proof {
        assert(v.take(v.len() as int) =~= v);
    }
    let ghost p = split_on(v, sep);
    let ghost before = views_of(done@);
    done.push(current);
    proof {
        assert(p.drop_last().push(p.last()) =~= p);
        assert(views_of(done@) =~= before.push(p.last()));
    }
    done
}

/// Whether `s` occurs in `t` (std `str::contains`).
pub(crate) fn str_contains(t: &str, s: &str) -> (r: bool)
    ensures
        r == contains_str(t@, s@),
{
    let tc = chars_of(t);
    let sc = chars_of(s);
    let found = find_from_exec(&tc, &sc, 0);
    proof {
        lemma_find_from(tc@, sc@, 0);
        if let Some(k) = found {
            assert(occurs_at(tc@, sc@, k as int));
        }
    }
    found.is_some()
}

/// Whether `path` matches the simple glob `pattern` (see [`glob_matches`]).
pub fn glob_match(pattern: &str, path: &str) -> (r: bool)
    ensures
        r == glob_matches(pattern@, path@),
{
    let p = chars_of(pattern);
    let t = chars_of(path);
    if !has_char(&p, '*') && !has_char(&p, '?') {
        let found = find_from_exec(&t, &p, 0);
        proof {
            lemma_find_from(t@, p@, 0);
            if let Some(k) = found {
                assert(occurs_at(t@, p@, k as int));
            }
        }
        return found.is_some();
    }
    let parts = split_chars(&p, '*');
    let ghost ps = views_of(parts@);
    let tlen = t.len();
    let mut pos: usize = 0;
    let mut i: usize = 0;
    while i < parts.len()
        invariant
            i <= parts@.len(),
            ps == views_of(parts@),
            ps.len() == parts@.len(),
            pos <= t@.len(),
            t@.len() == tlen,
            glob_matches(pattern@, path@) == glob_parts(ps, t@, i as int, pos as int),
            glob_matches(pattern@, path@) == glob_parts(ps, t@, 0, 0),
            t@ == path@,
        decreases parts@.len() - i,
    {
        proof {
            lemma_views_of_index(parts@, i as int);
        }
        let part = &parts[i];
        if part.len() > 0 {
            if i == 0 {
                if !starts_with_exec(&t, part) {
                    return false;
                }
                pos = part.len();
            } else if i == parts.len() - 1 {
                return ends_with_exec(&t, part);
            } else {
                match find_from_exec(&t, part, pos) {
                    Some(k) => {
                        proof {
                            lemma_find_from(t@, part@, pos as int);
                            assert(occurs_at(t@, part@, k as int));
                            assert(k + part@.len() <= t@.len());
                        }
                        pos = k + part.len();
                    },
                    None => {
                        return false;
                    },
                }
            }
        }
        i = i + 1;
    }
    true
}

// ─── Custom selection ────────────────────────────────────────────────────────

/// The parameters of a custom selection.
pub struct CustomSelectionData {
    /// Skip clusters that already have a file selected.
    pub ignore_groups_with_checked: bool,
    /// 0 = all files, 1 = videos only, 2 = images only.
    pub file_type: u8,
    /// 0 = any, 1 = exact match, 2 = except size, 3 = not identical.
    pub identical: u8,
    /// 0 = keep the first file, 1 = keep the newest, 2 = keep the oldest.
    pub datetime: u8,
    pub min_size_mb: u64,
    pub max_size_mb: u64,
    /// Glob patterns: a file's path must match all of them.
    pub path_contains: Vec<String>,
    /// Glob patterns: a file's path must match none of them.
    pub path_not_contains: Vec<String>,
    pub similarity_from: u8,
    pub similarity_to: u8,
}

impl Default for CustomSelectionData {
    fn default() -> (r: Self)
        ensures
            r.ignore_groups_with_checked,
            r.file_type == 0,
            r.identical == 0,
            r.datetime == 0,
            r.min_size_mb == 0,
            r.max_size_mb == 999_999_999,
            r.path_contains@.len() == 0,
            r.path_not_contains@.len() == 0,
            r.similarity_from == 0,
            r.similarity_to == 100,
    {
        CustomSelectionData {
            ignore_groups_with_checked: true,
            file_type: 0,
            identical: 0,
            datetime: 0,
            min_size_mb: 0,
            max_size_mb: 999_999_999,
            path_contains: Vec::new(),
            path_not_contains: Vec::new(),
            similarity_from: 0,
            similarity_to: 100,
        }
    }
}

/// What the selection reads of one file of a cluster.
pub struct SelectionFile {
    pub id: String,
    pub path: String,
    pub is_image: bool,
    pub size_bytes: u64,
    pub scanned_at: u64,
}

/// One duplicate cluster as the selection sees it.
pub struct SelectionCluster {
    pub files: Vec<SelectionFile>,
    /// Whether the cluster's highest similarity lies within the selection's
    /// similarity range.
    pub in_similarity_range: bool,
}

pub open spec fn all_match(patterns: Seq<String>, path: Seq<char>) -> bool {
    forall|k: int| 0 <= k < patterns.len() ==> glob_matches(#[trigger] patterns[k]@, path)
}

pub open spec fn none_match(patterns: Seq<String>, path: Seq<char>) -> bool {
    forall|k: int| 0 <= k < patterns.len() ==> !glob_matches(#[trigger] patterns[k]@, path)
}

/// Whether a file passes the type, size (whole MiB) and path filters.
pub open spec fn file_selected(data: CustomSelectionData, f: SelectionFile) -> bool {
    &&& !(data.file_type == 1 && f.is_image)
    &&& !(data.file_type == 2 && !f.is_image)
    &&& data.min_size_mb <= f.size_bytes / 1_048_576 <= data.max_size_mb
    &&& all_match(data.path_contains@, f.path@)
    &&& none_match(data.path_not_contains@, f.path@)
}

/// The positions of the files that pass the filters, in order.
pub open spec fn passing(data: CustomSelectionData, files: Seq<SelectionFile>) -> Seq<usize>
    decreases files.len(),
{
    if files.len() == 0 {
        Seq::empty()
    } else {
        let r = passing(data, files.drop_last());
        if file_selected(data, files.last()) {
            r.push((files.len() - 1) as usize)
        } else {
            r
        }
    }
}

/// Among the first `m` passing files, the slot of the first newest one.
pub open spec fn newest_slot(files: Seq<SelectionFile>, p: Seq<usize>, m: int) -> int
    decreases m,
{
    if m <= 1 {
        0
    } else {
        let b = newest_slot(files, p, m - 1);
        if files[p[m - 1] as int].scanned_at > files[p[b] as int].scanned_at {
            m - 1
        } else {
            b
        }
    }
}

/// Among the first `m` passing files, the slot of the first oldest one.
pub open spec fn oldest_slot(files: Seq<SelectionFile>, p: Seq<usize>, m: int) -> int
    decreases m,
{
    if m <= 1 {
        0
    } else {
        let b = oldest_slot(files, p, m - 1);
        if files[p[m - 1] as int].scanned_at < files[p[b] as int].scanned_at {
            m - 1
        } else {
            b
        }
    }
}

/// The slot, among the passing files, of the file the cluster keeps.
pub open spec fn keeper_slot(datetime: u8, files: Seq<SelectionFile>, p: Seq<usize>) -> int {
    if datetime == 1 {
        newest_slot(files, p, p.len() as int)
    } else if datetime == 2 {
        oldest_slot(files, p, p.len() as int)
    } else {
        0
    }
}

/// Some file of the cluster is already selected.
pub open spec fn cluster_checked(c: SelectionCluster, selected: Seq<String>) -> bool {
    exists|i: int, j: int|
        0 <= i < c.files@.len() && 0 <= j < selected.len() && #[trigger] c.files@[i].id@
            == #[trigger] selected[j]@
}

/// The ids of the files at the passing positions `p`, except slot `skip`.
pub open spec fn ids_skipping(files: Seq<SelectionFile>, p: Seq<usize>, skip: int) -> Seq<Seq<char>>
    decreases p.len(),
{
    if p.len() == 0 {
        Seq::empty()
    } else {
        let r = ids_skipping(files, p.drop_last(), skip);
        if p.len() - 1 == skip {
            r
        } else {
            r.push(files[p.last() as int].id@)
        }
    }
}

/// What one cluster contributes: nothing when it is skipped (already
/// checked, similarity out of range, fewer than two passing files),
/// otherwise every passing file but the keeper.
pub open spec fn cluster_removals(
    data: CustomSelectionData,
    c: SelectionCluster,
    selected: Seq<String>,
) -> Seq<Seq<char>> {
    let p = passing(data, c.files@);
    if (data.ignore_groups_with_checked && cluster_checked(c, selected)) || !c.in_similarity_range
        || p.len() < 2 {
        Seq::empty()
    } else {
        ids_skipping(c.files@, p, keeper_slot(data.datetime, c.files@, p))
    }
}

/// The ids selected for removal from the given clusters, cluster by
/// cluster.
pub open spec fn selection_result(
    data: CustomSelectionData,
    clusters: Seq<SelectionCluster>,
    selected: Seq<String>,
) -> Seq<Seq<char>>
    decreases clusters.len(),
{
    if clusters.len() == 0 {
        Seq::empty()
    } else {
        selection_result(data, clusters.drop_last(), selected) + cluster_removals(
            data,
            clusters.last(),
            selected,
        )
    }
}

pub open spec fn strings_view(v: Seq<String>) -> Seq<Seq<char>> {
    v.map_values(|s: String| s@)
}

fn matches_all(patterns: &Vec<String>, path: &str) -> (r: bool)
    ensures
        r == all_match(patterns@, path@),
{
    let mut k: usize = 0;
    while k < patterns.len()
        invariant
            k <= patterns@.len(),
            forall|q: int| 0 <= q < k ==> glob_matches(#[trigger] patterns@[q]@, path@),
        decreases patterns@.len() - k,
    {
        if !glob_match(patterns[k].as_str(), path) {
            return false;
        }
        k = k + 1;
    }
    true
}

fn matches_none(patterns: &Vec<String>, path: &str) -> (r: bool)
    ensures
        r == none_match(patterns@, path@),
{
    let mut k: usize = 0;
    while k < patterns.len()
        invariant
            k <= patterns@.len(),
            forall|q: int| 0 <= q < k ==> !glob_matches(#[trigger] patterns@[q]@, path@),
        decreases patterns@.len() - k,
    {
        if glob_match(patterns[k].as_str(), path) {
            return false;
        }
        k = k + 1;
    }
    true
}

fn file_selected_exec(data: &CustomSelectionData, f: &SelectionFile) -> (r: bool)
    ensures
        r == file_selected(*data, *f),
{
    if data.file_type == 1 && f.is_image {
        return false;
    }
    if data.file_type == 2 && !f.is_image {
        return false;
    }
    let mb = f.size_bytes / 1_048_576;
    if mb < data.min_size_mb || mb > data.max_size_mb {
        return false;
    }
    matches_all(&data.path_contains, f.path.as_str()) && matches_none(
        &data.path_not_contains,
        f.path.as_str(),
    )
}

fn passing_exec(data: &CustomSelectionData, files: &Vec<SelectionFile>) -> (p: Vec<usize>)
    ensures
        p@ == passing(*data, files@),
        forall|s: int| 0 <= s < p@.len() ==> p@[s] < files@.len(),
{
    let mut p: Vec<usize> = Vec::new();
    let mut i: usize = 0;
    while i < files.len()
        invariant
            i <= files@.len(),
            p@ == passing(*data, files@.take(i as int)),
            forall|s: int| 0 <= s < p@.len() ==> p@[s] < i,
        decreases files@.len() - i,
    {
        proof {
            assert(files@.take(i + 1).drop_last() =~= files@.take(i as int));
            assert(files@.take(i + 1).last() == files@[i as int]);
        }
        if file_selected_exec(data, &files[i]) {
            p.push(i);
        }
        i = i + 1;
    }
    proof {
        assert(files@.take(files@.len() as int) =~= files@);
    }
    p
}

fn keeper_slot_exec(datetime: u8, files: &Vec<SelectionFile>, p: &Vec<usize>) -> (k: usize)
    requires
        p@.len() >= 1,
        forall|s: int| 0 <= s < p@.len() ==> p@[s] < files@.len(),
    ensures
        k as int == keeper_slot(datetime, files@, p@),
        k < p@.len(),
{
    if datetime != 1 && datetime != 2 {
        return 0;
    }
    let mut best: usize = 0;
    let mut m: usize = 1;
    while m < p.len()
        invariant
            1 <= m <= p@.len(),
            best < m,
            forall|s: int| 0 <= s < p@.len() ==> p@[s] < files@.len(),
            datetime == 1 ==> best as int == newest_slot(files@, p@, m as int),
            datetime == 2 ==> best as int == oldest_slot(files@, p@, m as int),
        decreases p@.len() - m,
    {
        let t = files[p[m]].scanned_at;
        let tb = files[p[best]].scanned_at;
        if (datetime == 1 && t > tb) || (datetime == 2 && t < tb) {
            best = m;
        }
        m = m + 1;
    }
    best
}

fn cluster_checked_exec(c: &SelectionCluster, selected: &Vec<String>) -> (r: bool)
    ensures
        r == cluster_checked(*c, selected@),
{
    let mut i: usize = 0;
    while i < c.files.len()
        invariant
            i <= c.files@.len(),
            forall|a: int, b: int|
                0 <= a < i && 0 <= b < selected@.len() ==> #[trigger] c.files@[a].id@ != #[trigger] selected@[b]@,
        decreases c.files@.len() - i,
    {
        let mut j: usize = 0;
        while j < selected.len()
            invariant
                i < c.files@.len(),
                j <= selected@.len(),
                forall|a: int, b: int|
                    0 <= a < i && 0 <= b < selected@.len() ==> #[trigger] c.files@[a].id@ != #[trigger] selected@[b]@,
                forall|b: int| 0 <= b < j ==> c.files@[i as int].id@ != #[trigger] selected@[b]@,
            decreases selected@.len() - j,
        {
            if c.files[i].id == selected[j] {
                return true;
            }
            j = j + 1;
        }
        i = i + 1;
    }
    false
}

/// Selects files for removal: in every cluster that is not skipped, all
/// files that pass the filters except the one kept (the first, the newest
/// or the oldest, as `datetime` says). `selected` is the current selection,
/// which the result replaces.
pub fn run_custom_selection(
    data: &CustomSelectionData,
    clusters: &Vec<SelectionCluster>,
    selected: &Vec<String>,
) -> (to_remove: Vec<String>)
    ensures
        strings_view(to_remove@) == selection_result(*data, clusters@, selected@),
{
    let mut out: Vec<String> = Vec::new();
    let mut ci: usize = 0;
    while ci < clusters.len()
        invariant
            ci <= clusters@.len(),
            strings_view(out@) == selection_result(*data, clusters@.take(ci as int), selected@),
        decreases clusters@.len() - ci,
    {
        let c = &clusters[ci];
        proof {
            assert(clusters@.take(ci + 1).drop_last() =~= clusters@.take(ci as int));
            assert(clusters@.take(ci + 1).last() == clusters@[ci as int]);
        }
        let ghost base = strings_view(out@);
        let skip_checked = data.ignore_groups_with_checked && cluster_checked_exec(c, selected);
        if !skip_checked && c.in_similarity_range {
            let p = passing_exec(data, &c.files);
            if p.len() >= 2 {
                let keep = keeper_slot_exec(data.datetime, &c.files, &p);
                let mut s: usize = 0;
                while s < p.len()
                    invariant
                        s <= p@.len(),
                        keep < p@.len(),
                        forall|q: int| 0 <= q < p@.len() ==> p@[q] < c.files@.len(),
                        strings_view(out@) == base + ids_skipping(c.files@, p@.take(s as int), keep as int),
                    decreases p@.len() - s,
                {
                    proof {
                        assert(p@.take(s + 1).drop_last() =~= p@.take(s as int));
                        assert(p@.take(s + 1).last() == p@[s as int]);
                    }
                    if s != keep {
                        let ghost before = strings_view(out@);
                        out.push(c.files[p[s]].id.clone());
                        proof {
                            assert(strings_view(out@) =~= before.push(c.files@[p@[s as int] as int].id@));
                        }
                    }
                    s = s + 1;
                }
                proof {
                    assert(p@.take(p@.len() as int) =~= p@);
                }
            } else {
                proof {
                    assert(base =~= base + Seq::<Seq<char>>::empty());
                }
            }
        } else {
            proof {
                assert(base =~= base + Seq::<Seq<char>>::empty());
            }
        }
        ci = ci + 1;
    }
    proof {
        assert(clusters@.take(clusters@.len() as int) =~= clusters@);
    }
    out
}

proof fn lemma_newest_slot(files: Seq<SelectionFile>, p: Seq<usize>, m: int)
    requires
        1 <= m <= p.len(),
        forall|s: int| 0 <= s < p.len() ==> p[s] < files.len(),
    ensures
        0 <= newest_slot(files, p, m) < m,
        forall|s: int|
            0 <= s < m ==> files[#[trigger] p[s] as int].scanned_at <= files[p[newest_slot(files, p, m)] as int].scanned_at,
    decreases m,
{
    if m > 1 {
        lemma_newest_slot(files, p, m - 1);
    }
}

proof fn lemma_oldest_slot(files: Seq<SelectionFile>, p: Seq<usize>, m: int)
    requires
        1 <= m <= p.len(),
        forall|s: int| 0 <= s < p.len() ==> p[s] < files.len(),
    ensures
        0 <= oldest_slot(files, p, m) < m,
        forall|s: int|
            0 <= s < m ==> files[#[trigger] p[s] as int].scanned_at >= files[p[oldest_slot(files, p, m)] as int].scanned_at,
    decreases m,
{
    if m > 1 {
        lemma_oldest_slot(files, p, m - 1);
    }
}

proof fn lemma_passing_positions(data: CustomSelectionData, files: Seq<SelectionFile>)
    ensures
        forall|s: int| 0 <= s < passing(data, files).len() ==> #[trigger] passing(data, files)[s] < files.len(),
    decreases files.len(),
{
    if files.len() > 0 {
        let r = passing(data, files.drop_last());
        lemma_passing_positions(data, files.drop_last());
        assert forall|s: int| 0 <= s < passing(data, files).len() implies #[trigger] passing(
            data,
            files,
        )[s] < files.len() by {
            if s < r.len() {
                assert(passing(data, files)[s] == r[s]);
            }
        }
    }
}

proof fn lemma_ids_skipping_len(files: Seq<SelectionFile>, p: Seq<usize>, skip: int)
    requires
        0 <= skip < p.len(),
    ensures
        ids_skipping(files, p, skip).len() == p.len() - 1,
    decreases p.len(),
{
    if p.len() - 1 > skip {
        lemma_ids_skipping_len(files, p.drop_last(), skip);
    } else {
        lemma_ids_skipping_all(files, p.drop_last(), skip);
    }
}

proof fn lemma_ids_skipping_all(files: Seq<SelectionFile>, p: Seq<usize>, skip: int)
    requires
        skip >= p.len(),
    ensures
        ids_skipping(files, p, skip).len() == p.len(),
    decreases p.len(),
{
    if p.len() > 0 {
        lemma_ids_skipping_all(files, p.drop_last(), skip);
    }
}

/// The kept file of a cluster: with `datetime` 1 no passing file is newer,
/// with 2 none is older; and every other passing file is selected, so a
/// touched cluster loses all of its passing files but one.
pub proof fn lemma_selection_keeps_one(
    data: CustomSelectionData,
    c: SelectionCluster,
    selected: Seq<String>,
)
    requires
        passing(data, c.files@).len() >= 2,
        c.in_similarity_range,
        !(data.ignore_groups_with_checked && cluster_checked(c, selected)),
    ensures
        ({
            let p = passing(data, c.files@);
            let k = keeper_slot(data.datetime, c.files@, p);
            &&& 0 <= k < p.len()
            &&& cluster_removals(data, c, selected).len() == p.len() - 1
            &&& data.datetime == 1 ==> forall|s: int|
                0 <= s < p.len() ==> c.files@[#[trigger] p[s] as int].scanned_at <= c.files@[p[k] as int].scanned_at
            &&& data.datetime == 2 ==> forall|s: int|
                0 <= s < p.len() ==> c.files@[#[trigger] p[s] as int].scanned_at >= c.files@[p[k] as int].scanned_at
        }),
{
    let p = passing(data, c.files@);
    lemma_passing_positions(data, c.files@);
    lemma_newest_slot(c.files@, p, p.len() as int);
    lemma_oldest_slot(c.files@, p, p.len() as int);
    lemma_ids_skipping_len(c.files@, p, keeper_slot(data.datetime, c.files@, p));
}

} // verus!
