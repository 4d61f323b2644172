//! Pairwise duplicate search: which pairs of files are compared (folder
//! rules), when two first-frame pHashes count as duplicates, and how the
//! pairs found are merged into groups without daisy-chaining.
//!
//! Files are numbered by their position in the scan list.  A group has a
//! representative, the file that opened it; a file joins a group, and two
//! groups merge, only when the representatives involved are duplicates too.

use crate::config::FolderMatchMode;
use crate::phash::{diff_bits, hamming};
use crate::text::{ascii_lower, ascii_lower_exec, eq_ignore_ascii_case, split_on};
use vstd::prelude::*;

verus! {

// ─── Folder rules ────────────────────────────────────────────────────────────

/// The non-empty pieces of a list of pieces, in order.
pub open spec fn non_empty(pieces: Seq<Seq<char>>) -> Seq<Seq<char>>
    decreases pieces.len(),
{
    if pieces.len() == 0 {
        pieces
    } else if pieces.last().len() > 0 {
        non_empty(pieces.drop_last()).push(pieces.last())
    } else {
        non_empty(pieces.drop_last())
    }
}

/// The character sequences held by a list of character vectors.
pub open spec fn views_of(v: Seq<Vec<char>>) -> Seq<Seq<char>> {
    v.map_values(|c: Vec<char>| c@)
}

pub(crate) proof fn lemma_views_of_index(v: Seq<Vec<char>>, i: int)
    requires
        0 <= i < v.len(),
    ensures
        views_of(v)[i] == v[i]@,
        views_of(v).len() == v.len(),
{
}

/// The segments of a `/`-separated path, empty ones dropped.
pub open spec fn segments(path: Seq<char>) -> Seq<Seq<char>> {
    non_empty(split_on(path, '/'))
}

/// Whether segment `i` from the end of both lists is present and equal up
/// to ASCII case.
pub open spec fn tail_match(sa: Seq<Seq<char>>, sb: Seq<Seq<char>>, i: int) -> bool {
    i < sa.len() && i < sb.len() && eq_ignore_ascii_case(sa[sa.len() - 1 - i], sb[sb.len() - 1 - i])
}

/// Whether the last `depth` segments of two folder paths are equal up to
/// ASCII case (both paths must have that many segments).
pub open spec fn same_folder_spec(a: Seq<char>, b: Seq<char>, depth: nat) -> bool {
    forall|i: int| 0 <= i < depth ==> #[trigger] tail_match(segments(a), segments(b), i)
}

pub(crate) proof fn lemma_split_step(s: Seq<char>, i: int, sep: char)
    requires
        0 <= i < s.len(),
    ensures
        split_on(s.take(i + 1), sep) == if s[i] == sep {
            split_on(s.take(i), sep).push(Seq::empty())
        } else {
            split_on(s.take(i), sep).update(
                split_on(s.take(i), sep).len() - 1,
                split_on(s.take(i), sep).last().push(s[i]),
            )
        },
{
    assert(s.take(i + 1).drop_last() =~= s.take(i));
}

pub(crate) proof fn lemma_split_nonempty(s: Seq<char>, sep: char)
    ensures
        split_on(s, sep).len() >= 1,
    decreases s.len(),
{
    if s.len() > 0 {
        lemma_split_nonempty(s.drop_last(), sep);
    }
}

/// The segments of a `/`-separated path.
fn path_segments(path: &str) -> (r: Vec<Vec<char>>)
    ensures
        views_of(r@) == segments(path@),
{
    let cs = crate::text::chars_of(path);
    let ghost s = cs@;
    let mut done: Vec<Vec<char>> = Vec::new();
    let mut current: Vec<char> = Vec::new();
    let mut i: usize = 0;
    proof {
        assert(s.take(0) =~= Seq::<char>::empty());
        assert(views_of(done@) =~= non_empty(
            split_on(s.take(0), '/').drop_last(),
        ));
    }
    while i < cs.len()
        invariant
            i <= s.len(),
            s == cs@,
            s == path@,
            split_on(s.take(i as int), '/').len() >= 1,
            current@ == split_on(s.take(i as int), '/').last(),
            views_of(done@) == non_empty(
                split_on(s.take(i as int), '/').drop_last(),
            ),
        decreases s.len() - i,
    {
        proof {
            lemma_split_step(s, i as int, '/');
            lemma_split_nonempty(s.take(i + 1), '/');
        }
        let ghost p = split_on(s.take(i as int), '/');
        if cs[i] == '/' {
            if current.len() > 0 {
                let ghost before = views_of(done@);
                done.push(current);
                proof {
                    assert(p.push(Seq::empty()).drop_last() =~= p);
                    assert(p.drop_last().push(p.last()) =~= p);
                    assert(views_of(done@) =~= before.push(p.last()));
                }
            } else {
                proof {
                    assert(p.push(Seq::empty()).drop_last() =~= p);
                    assert(p.drop_last().push(p.last()) =~= p);
                }
            }
            current = Vec::new();
            proof {
                assert(current@ =~= Seq::<char>::empty());
            }
        } else {
            current.push(cs[i]);
            proof {
                let q = p.update(p.len() - 1, p.last().push(s[i as int]));
                assert(q.drop_last() =~= p.drop_last());
            }
        }
        i = i + 1;
    }
    proof {
        assert(s.take(s.len() as int) =~= s);
    }
    let ghost p = split_on(s, '/');
    if current.len() > 0 {
        let ghost before = views_of(done@);
        done.push(current);
        proof {
            assert(p.drop_last().push(p.last()) =~= p);
            assert(views_of(done@) =~= before.push(p.last()));
        }
    } else {
        proof {
            assert(p.drop_last().push(p.last()) =~= p);
        }
    }
    done
}

fn eq_ignore_case(a: &Vec<char>, b: &Vec<char>) -> (r: bool)
    ensures
        r == eq_ignore_ascii_case(a@, b@),
{
    if a.len() != b.len() {
        return false;
    }
    let mut i: usize = 0;
    while i < a.len()
        invariant
            i <= a@.len() == b@.len(),
            forall|k: int| 0 <= k < i ==> ascii_lower(a@[k]) == ascii_lower(b@[k]),
        decreases a@.len() - i,
    {
        if ascii_lower_exec(a[i]) != ascii_lower_exec(b[i]) {
            return false;
        }
        i = i + 1;
    }
    true
}

/// Returns true when the last `depth` path segments of both folder paths
/// are equal, ignoring ASCII case.
pub fn same_folder_at_depth(a: &str, b: &str, depth: usize) -> (r: bool)
    ensures
        r == same_folder_spec(a@, b@, depth as nat),
{
    let sa = path_segments(a);
    let sb = path_segments(b);
    let ghost va = views_of(sa@);
    let ghost vb = views_of(sb@);
    proof {
        assert(va.len() == sa@.len());
        assert(vb.len() == sb@.len());
    }
    let mut i: usize = 0;
    while i < depth
        invariant
            i <= depth,
            va == segments(a@),
            vb == segments(b@),
            va == views_of(sa@),
            vb == views_of(sb@),
            va.len() == sa@.len(),
            vb.len() == sb@.len(),
            forall|k: int| 0 <= k < i ==> #[trigger] tail_match(va, vb, k),
        decreases depth - i,
    {
        if i >= sa.len() || i >= sb.len() {
            proof {
                assert(!tail_match(va, vb, i as int));
            }
            return false;
        }
        let ia = sa.len() - 1 - i;
        let ib = sb.len() - 1 - i;
        let same = eq_ignore_case(&sa[ia], &sb[ib]);
        proof {
            lemma_views_of_index(sa@, ia as int);
            lemma_views_of_index(sb@, ib as int);
            assert(same == tail_match(va, vb, i as int));
        }
        if !same {
            return false;
        }
        i = i + 1;
    }
    true
}

/// Whether two files, in the folders given, are compared under the folder
/// match mode.
pub open spec fn folder_rule(
    mode: FolderMatchMode,
    folder_a: Seq<char>,
    folder_b: Seq<char>,
    depth: nat,
) -> bool {
    match mode {
        FolderMatchMode::Unconstrained => true,
        FolderMatchMode::SameFolderOnly => same_folder_spec(folder_a, folder_b, depth),
        FolderMatchMode::DifferentFolderOnly => !same_folder_spec(folder_a, folder_b, depth),
    }
}

/// Whether two files in the given parent folders should be compared.
pub fn folder_filter_passes(
    mode: FolderMatchMode,
    folder_a: &str,
    folder_b: &str,
    depth: usize,
) -> (r: bool)
    ensures
        r == folder_rule(mode, folder_a@, folder_b@, depth as nat),
{
    match mode {
        FolderMatchMode::Unconstrained => true,
        FolderMatchMode::SameFolderOnly => same_folder_at_depth(folder_a, folder_b, depth),
        FolderMatchMode::DifferentFolderOnly => !same_folder_at_depth(folder_a, folder_b, depth),
    }
}

// ─── Duplicate test ──────────────────────────────────────────────────────────

/// Whether two first-frame hashes are duplicates: both present and at most
/// `max_bits` bits apart (a minimum similarity `s` allows
/// `floor((1 - s) · 64)` bits).
pub open spec fn hashes_duplicate(a: Option<u64>, b: Option<u64>, max_bits: u32) -> bool {
    match (a, b) {
        (Some(x), Some(y)) => diff_bits(x, y, 64) <= max_bits,
        _ => false,
    }
}

/// Whether two hashes are at most `max_bits` bits apart.
pub fn is_duplicate(a: u64, b: u64, max_bits: u32) -> (r: bool)
    ensures
        r == (diff_bits(a, b, 64) <= max_bits),
{
    hamming(a, b) <= max_bits
}

/// Whether the first-frame hashes of two files are duplicates.
pub fn phash_check_duplicate(a: Option<u64>, b: Option<u64>, max_bits: u32) -> (r: bool)
    ensures
        r == hashes_duplicate(a, b, max_bits),
{
    match (a, b) {
        (Some(x), Some(y)) => is_duplicate(x, y, max_bits),
        _ => false,
    }
}

// ─── Groups ──────────────────────────────────────────────────────────────────

/// Duplicate groups over the files of a scan list.
pub struct DuplicateGroups {
    /// The group of each file; 0 for none.
    pub group_of: Vec<usize>,
    /// The representative of each group id (id 0 is unused); none once the
    /// group was merged into another.
    pub rep_of: Vec<Option<usize>>,
    /// The pairs recorded as duplicates, in the order found.
    pub pairs: Vec<(usize, usize)>,
}

/// The groups' invariant: every group id in use is below the next id and
/// has a representative in that group, and every recorded pair lies within
/// one group.
pub open spec fn groups_wf(g: DuplicateGroups, n: nat) -> bool {
    &&& g.group_of@.len() == n
    &&& g.rep_of@.len() >= 1
        &&& forall|i: int| 0 <= i < n ==> #[trigger] g.group_of@[i] < g.rep_of@.len()
    &&& forall|i: int|
        0 <= i < n && #[trigger] g.group_of@[i] != 0 ==> g.rep_of@[g.group_of@[i] as int] is Some
    &&& forall|k: int|
        1 <= k < g.rep_of@.len() && (#[trigger] g.rep_of@[k]) is Some ==> ({
            let r = g.rep_of@[k]->0;
            r < n && g.group_of@[r as int] == k
        })
    &&& g.rep_of@[0] is None
    &&& forall|p: int|
        0 <= p < g.pairs@.len() ==> ({
            let (a, b) = #[trigger] g.pairs@[p];
            a < n && b < n && g.group_of@[a as int] != 0 && g.group_of@[a as int]
                == g.group_of@[b as int]
        })
}

/// The groups as plain values: the group of each file, the representative
/// of each group id, and the recorded pairs.
pub type GroupState = (Seq<usize>, Seq<Option<usize>>, Seq<(usize, usize)>);

/// The state of the groups.
pub open spec fn state_of(g: DuplicateGroups) -> GroupState {
    (g.group_of@, g.rep_of@, g.pairs@)
}

/// The representative of the group of file `i`.
pub open spec fn rep_of_file(st: GroupState, i: int) -> int {
    st.1[st.0[i] as int]->0 as int
}

impl DuplicateGroups {
    /// The state with no group over `n` files.
    pub open spec fn new_spec(n: nat) -> GroupState {
        (Seq::new(n, |i: int| 0usize), seq![None], Seq::empty())
    }

    /// No group over `n` files.
    pub fn new(n: usize) -> (r: Self)
        ensures
            groups_wf(r, n as nat),
            r.pairs@.len() == 0,
            forall|i: int| 0 <= i < n ==> r.group_of@[i] == 0,
            state_of(r) == Self::new_spec(n as nat),
    {
        let mut group_of: Vec<usize> = Vec::new();
        let mut i: usize = 0;
        while i < n
            invariant
                i <= n,
                group_of@.len() == i,
                forall|k: int| 0 <= k < i ==> group_of@[k] == 0,
            decreases n - i,
        {
            group_of.push(0);
            i = i + 1;
        }
        let mut rep_of: Vec<Option<usize>> = Vec::new();
        rep_of.push(None);
        let r = DuplicateGroups { group_of, rep_of, pairs: Vec::new() };
        proof {
            assert(r.group_of@ =~= Seq::new(n as nat, |i: int| 0usize));
            assert(r.rep_of@ =~= seq![None]);
            assert(r.pairs@ =~= Seq::<(usize, usize)>::empty());
        }
        r
    }
}

/// Group ids: `gb` replaced by `ga`.
pub open spec fn relabel(group_of: Seq<usize>, gb: usize, ga: usize) -> Seq<usize> {
    group_of.map_values(|g: usize| if g == gb {
        ga
    } else {
        g
    })
}

/// The groups after offering the pair `(a, b)` found to be duplicates.
///
/// - Neither in a group: they open a new group, represented by `a`.
/// - One in a group: the other joins it if it is a duplicate of the group's
///   representative; otherwise nothing changes.
/// - In two groups: the groups merge (into `a`'s) if their representatives
///   are duplicates; otherwise nothing changes.
/// - In the same group: nothing but the pair is recorded.
///
/// The pair is recorded whenever it was accepted.
pub open spec fn merge_spec(
    st: GroupState,
    a: int,
    b: int,
    hashes: Seq<Option<u64>>,
    max_bits: u32,
) -> GroupState {
    let (group_of, rep_of, pairs) = st;
    let ga = group_of[a];
    let gb = group_of[b];
    let pushed = pairs.push((a as usize, b as usize));
    if ga != 0 && gb != 0 {
        if ga == gb {
            (group_of, rep_of, pushed)
        } else if hashes_duplicate(
            hashes[rep_of_file(st, a)],
            hashes[rep_of_file(st, b)],
            max_bits,
        ) {
            (relabel(group_of, gb, ga), rep_of.update(gb as int, None), pushed)
        } else {
            st
        }
    } else if ga != 0 {
        if hashes_duplicate(hashes[rep_of_file(st, a)], hashes[b], max_bits) {
            (group_of.update(b, ga), rep_of, pushed)
        } else {
            st
        }
    } else if gb != 0 {
        if hashes_duplicate(hashes[rep_of_file(st, b)], hashes[a], max_bits) {
            (group_of.update(a, gb), rep_of, pushed)
        } else {
            st
        }
    } else {
        let fresh = rep_of.len() as usize;
        (group_of.update(a, fresh).update(b, fresh), rep_of.push(Some(a as usize)), pushed)
    }
}

/// Offers a pair of duplicates `(a, b)`, `a` before `b` in the scan list,
/// to the groups (see `merge_spec`).
pub fn try_merge(g: &mut DuplicateGroups, a: usize, b: usize, hashes: &Vec<Option<u64>>, max_bits: u32)
    requires
        groups_wf(*old(g), hashes@.len()),
        a < b < hashes@.len(),
    ensures
        groups_wf(*final(g), hashes@.len()),
        state_of(*final(g)) == merge_spec(state_of(*old(g)), a as int, b as int, hashes@, max_bits),
{
    let n = hashes.len();
    let ga = g.group_of[a];
    let gb = g.group_of[b];
    if ga != 0 && gb != 0 {
        if ga == gb {
            g.pairs.push((a, b));
            return;
        }
        proof {
            assert(g.group_of@[a as int] != 0);
            assert(g.group_of@[b as int] != 0);
            assert(g.rep_of@[ga as int] is Some);
            assert(g.rep_of@[gb as int] is Some);
        }
        let ra = g.rep_of[ga].unwrap();
        let rb = g.rep_of[gb].unwrap();
        proof {
            assert(ra < n);
            assert(rb < n);
        }
        if !phash_check_duplicate(hashes[ra], hashes[rb], max_bits) {
            return;
        }
        let ghost before = g.group_of@;
        let mut i: usize = 0;
        while i < g.group_of.len()
            invariant
                n == hashes@.len(),
                g.group_of@.len() == n,
                i <= n,
                forall|k: int|
                    0 <= k < i ==> g.group_of@[k] == (if before[k] == gb {
                        ga
                    } else {
                        before[k]
                    }),
                forall|k: int| i <= k < n ==> g.group_of@[k] == before[k],
                g.rep_of@ == old(g).rep_of@,
                g.pairs@ == old(g).pairs@,
            decreases n - i,
        {
            if g.group_of[i] == gb {
                g.group_of.set(i, ga);
            }
            i = i + 1;
        }
        g.rep_of.set(gb, None);
        g.pairs.push((a, b));
        proof {
            assert(g.group_of@ =~= relabel(before, gb, ga));
            let fin = *g;
            assert forall|p: int| 0 <= p < fin.pairs@.len() implies ({
                let (x, y) = #[trigger] fin.pairs@[p];
                x < n && y < n && fin.group_of@[x as int] != 0 && fin.group_of@[x as int]
                    == fin.group_of@[y as int]
            }) by {
                if p < old(g).pairs@.len() {
                    assert(fin.pairs@[p] == old(g).pairs@[p]);
                }
            }
            assert forall|k: int|
                1 <= k < fin.rep_of@.len() && (#[trigger] fin.rep_of@[k]) is Some implies ({
                let r = fin.rep_of@[k]->0;
                r < n && fin.group_of@[r as int] == k
            }) by {
                assert(old(g).rep_of@[k] is Some);
                let r = old(g).rep_of@[k]->0;
                assert(before[r as int] == k);
            }
        }
    } else if ga != 0 {
        proof {
            assert(g.group_of@[a as int] != 0);
            assert(g.rep_of@[ga as int] is Some);
        }
        let ra = g.rep_of[ga].unwrap();
        proof {
            assert(ra < n);
        }
        if !phash_check_duplicate(hashes[ra], hashes[b], max_bits) {
            return;
        }
        g.group_of.set(b, ga);
        g.pairs.push((a, b));
        proof {
            let fin = *g;
            assert forall|p: int| 0 <= p < fin.pairs@.len() implies ({
                let (x, y) = #[trigger] fin.pairs@[p];
                x < n && y < n && fin.group_of@[x as int] != 0 && fin.group_of@[x as int]
                    == fin.group_of@[y as int]
            }) by {
                if p < old(g).pairs@.len() {
                    assert(fin.pairs@[p] == old(g).pairs@[p]);
                    let (x, y) = old(g).pairs@[p];
                    assert(old(g).group_of@[x as int] != 0);
                }
            }
            assert forall|k: int|
                1 <= k < fin.rep_of@.len() && (#[trigger] fin.rep_of@[k]) is Some implies ({
                let r = fin.rep_of@[k]->0;
                r < n && fin.group_of@[r as int] == k
            }) by {
                let r = old(g).rep_of@[k]->0;
                assert(old(g).group_of@[r as int] == k);
            }
        }
    } else if gb != 0 {
        proof {
            assert(g.group_of@[b as int] != 0);
            assert(g.rep_of@[gb as int] is Some);
        }
        let rb = g.rep_of[gb].unwrap();
        proof {
            assert(rb < n);
        }
        if !phash_check_duplicate(hashes[rb], hashes[a], max_bits) {
            return;
        }
        g.group_of.set(a, gb);
        g.pairs.push((a, b));
        proof {
            let fin = *g;
            assert forall|p: int| 0 <= p < fin.pairs@.len() implies ({
                let (x, y) = #[trigger] fin.pairs@[p];
                x < n && y < n && fin.group_of@[x as int] != 0 && fin.group_of@[x as int]
                    == fin.group_of@[y as int]
            }) by {
                if p < old(g).pairs@.len() {
                    assert(fin.pairs@[p] == old(g).pairs@[p]);
                    let (x, y) = old(g).pairs@[p];
                    assert(old(g).group_of@[x as int] != 0);
                }
            }
            assert forall|k: int|
                1 <= k < fin.rep_of@.len() && (#[trigger] fin.rep_of@[k]) is Some implies ({
                let r = fin.rep_of@[k]->0;
                r < n && fin.group_of@[r as int] == k
            }) by {
                let r = old(g).rep_of@[k]->0;
                assert(old(g).group_of@[r as int] == k);
            }
        }
    } else {
        let fresh = g.rep_of.len();
        g.group_of.set(a, fresh);
        g.group_of.set(b, fresh);
        g.rep_of.push(Some(a));
        g.pairs.push((a, b));
        proof {
            let fin = *g;
            assert forall|p: int| 0 <= p < fin.pairs@.len() implies ({
                let (x, y) = #[trigger] fin.pairs@[p];
                x < n && y < n && fin.group_of@[x as int] != 0 && fin.group_of@[x as int]
                    == fin.group_of@[y as int]
            }) by {
                if p < old(g).pairs@.len() {
                    assert(fin.pairs@[p] == old(g).pairs@[p]);
                    let (x, y) = old(g).pairs@[p];
                    assert(old(g).group_of@[x as int] != 0);
                }
            }
            assert forall|k: int|
                1 <= k < fin.rep_of@.len() && (#[trigger] fin.rep_of@[k]) is Some implies ({
                let r = fin.rep_of@[k]->0;
                r < n && fin.group_of@[r as int] == k
            }) by {
                if k < old(g).rep_of@.len() {
                    let r = old(g).rep_of@[k]->0;
                    assert(old(g).group_of@[r as int] == k);
                }
            }
        }
    }
}

/// No daisy-chaining: a file joins an existing group only when it is a
/// duplicate of that group's representative, and two groups merge only
/// when their representatives are duplicates.
pub proof fn lemma_no_daisy_chain(
    st: GroupState,
    a: int,
    b: int,
    hashes: Seq<Option<u64>>,
    max_bits: u32,
)
    ensures
        ({
            let next = merge_spec(st, a, b, hashes, max_bits);
            &&& (st.0[a] != 0 && st.0[b] == 0 && next.0[b] != 0) ==> hashes_duplicate(
                hashes[rep_of_file(st, a)],
                hashes[b],
                max_bits,
            )
            &&& (st.0[a] == 0 && st.0[b] != 0 && next.0[a] != 0) ==> hashes_duplicate(
                hashes[rep_of_file(st, b)],
                hashes[a],
                max_bits,
            )
            &&& (st.0[a] != 0 && st.0[b] != 0 && st.0[a] != st.0[b] && next.2.len()
                > st.2.len()) ==> hashes_duplicate(
                hashes[rep_of_file(st, a)],
                hashes[rep_of_file(st, b)],
                max_bits,
            )
        }),
{
}

// ─── Image comparison ────────────────────────────────────────────────────────

/// What the comparison needs of each file: the first-frame hash and the
/// parent folder.
#[derive(Debug, Clone)]
pub struct ScanItem {
    pub first_hash: Option<u64>,
    pub folder: String,
}

/// The thresholds of a comparison.
#[derive(Debug, Clone, Copy)]
pub struct CompareRules {
    /// Most bits two first-frame hashes may differ in.
    pub max_bits: u32,
    pub folder_mode: FolderMatchMode,
    /// Folder segments compared by the folder mode.
    pub same_folder_depth: usize,
}

/// The first-frame hashes of the files.
pub open spec fn hashes_of(items: Seq<ScanItem>) -> Seq<Option<u64>> {
    items.map_values(|it: ScanItem| it.first_hash)
}

/// Whether files `i` and `j` are compared and found to be duplicates.
pub open spec fn pair_passes(items: Seq<ScanItem>, rules: CompareRules, i: int, j: int) -> bool {
    folder_rule(rules.folder_mode, items[i].folder@, items[j].folder@, rules.same_folder_depth as nat)
        && hashes_duplicate(items[i].first_hash, items[j].first_hash, rules.max_bits)
}

/// The groups after the pairs `(i, j)`, `(i, j+1)`, ..., then every later
/// `i`, have been offered in order.
pub open spec fn scan_pairs(
    st: GroupState,
    items: Seq<ScanItem>,
    rules: CompareRules,
    gate: Seq<Seq<bool>>,
    i: int,
    j: int,
) -> GroupState
    decreases items.len() - i, items.len() - j,
{
    if i < 0 || i + 1 >= items.len() {
        st
    } else if j >= items.len() {
        scan_pairs(st, items, rules, gate, i + 1, i + 2)
    } else if j <= i {
        scan_pairs(st, items, rules, gate, i, i + 1)
    } else {
        let next = if gate_allows(gate, i, j) && pair_passes(items, rules, i, j) {
            merge_spec(st, i, j, hashes_of(items), rules.max_bits)
        } else {
            st
        };
        scan_pairs(next, items, rules, gate, i, j + 1)
    }
}

/// A pair may be compared: the mask is empty, or its entry for the pair
/// is set.
pub open spec fn gate_allows(gate: Seq<Seq<bool>>, i: int, j: int) -> bool {
    gate.len() == 0 || gate[i][j]
}

/// The rows of a gate.
pub open spec fn gate_view(gate: Seq<Vec<bool>>) -> Seq<Seq<bool>> {
    gate.map_values(|r: Vec<bool>| r@)
}

/// A gate is empty or has an entry for every pair of the `n` files.
pub open spec fn gate_fits(gate: Seq<Vec<bool>>, n: nat) -> bool {
    gate.len() == 0 || (gate.len() == n && forall|i: int| 0 <= i < n ==> (#[trigger] gate[i])@.len() == n)
}

/// Every recorded pair is an ordered pair that passed the comparison.
pub open spec fn pairs_passed(st: GroupState, items: Seq<ScanItem>, rules: CompareRules) -> bool {
    forall|p: int|
        0 <= p < st.2.len() ==> ({
            let (a, b) = #[trigger] st.2[p];
            a < b && pair_passes(items, rules, a as int, b as int)
        })
}

/// Compares every pair of files that the mask admits (each pair once, in
/// scan order) and merges the duplicates found into groups.
fn compare_gated(items: &Vec<ScanItem>, rules: CompareRules, gate: &Vec<Vec<bool>>) -> (g: DuplicateGroups)
    requires
        items@.len() < usize::MAX,
        gate_fits(gate@, items@.len()),
    ensures
        groups_wf(g, items@.len()),
        state_of(g) == scan_pairs(
            DuplicateGroups::new_spec(items@.len()),
            items@,
            rules,
            gate_view(gate@),
            0,
            1,
        ),
        pairs_passed(state_of(g), items@, rules),
{
    let n = items.len();
    let mut hashes: Vec<Option<u64>> = Vec::new();
    let mut k: usize = 0;
    while k < n
        invariant
            k <= n == items@.len(),
            hashes@ == hashes_of(items@).take(k as int),
        decreases n - k,
    {
        hashes.push(items[k].first_hash);
        proof {
            assert(hashes@ =~= hashes_of(items@).take(k + 1));
        }
        k = k + 1;
    }
    proof {
        assert(hashes@ =~= hashes_of(items@));
    }
    let mut g = DuplicateGroups::new(n);
    let ghost start = state_of(g);
    let mut i: usize = 0;
    while i + 1 < n
        invariant
            n == items@.len() < usize::MAX,
            hashes@ == hashes_of(items@),
            gate_fits(gate@, n as nat),
            groups_wf(g, n as nat),
            i <= n,
            scan_pairs(start, items@, rules, gate_view(gate@), 0, 1) == scan_pairs(
                state_of(g),
                items@,
                rules,
                gate_view(gate@),
                i as int,
                i + 1,
            ),
            pairs_passed(state_of(g), items@, rules),
        decreases n - i,
    {
        let mut j: usize = i + 1;
        while j < n
            invariant
                n == items@.len() < usize::MAX,
                hashes@ == hashes_of(items@),
                gate_fits(gate@, n as nat),
                groups_wf(g, n as nat),
                i + 1 <= j <= n,
                scan_pairs(start, items@, rules, gate_view(gate@), 0, 1) == scan_pairs(
                    state_of(g),
                    items@,
                    rules,
                    gate_view(gate@),
                    i as int,
                    j as int,
                ),
                pairs_passed(state_of(g), items@, rules),
            decreases n - j,
        {
            let allowed = gate.len() == 0 || gate[i][j];
            proof {
                if gate@.len() > 0 {
                    assert(gate@[i as int]@.len() == n);
                    assert(gate_view(gate@)[i as int] == gate@[i as int]@);
                }
            }
            let passes = allowed && folder_filter_passes(
                rules.folder_mode,
                items[i].folder.as_str(),
                items[j].folder.as_str(),
                rules.same_folder_depth,
            ) && phash_check_duplicate(items[i].first_hash, items[j].first_hash, rules.max_bits);
            proof {
                assert(hashes@[i as int] == items@[i as int].first_hash);
                assert(hashes@[j as int] == items@[j as int].first_hash);
                assert(passes == (gate_allows(gate_view(gate@), i as int, j as int) && pair_passes(
                    items@,
                    rules,
                    i as int,
                    j as int,
                )));
            }
            if passes {
                let ghost before = state_of(g);
                try_merge(&mut g, i, j, &hashes, rules.max_bits);
                proof {
                    let fin = state_of(g);
                    assert forall|p: int| 0 <= p < fin.2.len() implies ({
                        let (a, b) = #[trigger] fin.2[p];
                        a < b && pair_passes(items@, rules, a as int, b as int)
                    }) by {
                        if p < before.2.len() {
                            assert(fin.2[p] == before.2[p]);
                        }
                    }
                }
            }
            j = j + 1;
        }
        i = i + 1;
    }
    g
}

/// Every pair the scan records is one that the mask admits.
pub open spec fn pairs_gated(st: GroupState, gate: Seq<Seq<bool>>) -> bool {
    forall|p: int|
        0 <= p < st.2.len() ==> ({
            let (a, b) = #[trigger] st.2[p];
            gate_allows(gate, a as int, b as int)
        })
}

proof fn lemma_scan_pairs_gated(
    st: GroupState,
    items: Seq<ScanItem>,
    rules: CompareRules,
    gate: Seq<Seq<bool>>,
    i: int,
    j: int,
)
    requires
        pairs_gated(st, gate),
        i >= 0,
        items.len() <= usize::MAX,
    ensures
        pairs_gated(scan_pairs(st, items, rules, gate, i, j), gate),
    decreases items.len() - i, items.len() - j,
{
    if i < 0 || i + 1 >= items.len() {
    } else if j >= items.len() {
        lemma_scan_pairs_gated(st, items, rules, gate, i + 1, i + 2);
    } else if j <= i {
        lemma_scan_pairs_gated(st, items, rules, gate, i, i + 1);
    } else {
        let allowed = gate_allows(gate, i, j) && pair_passes(items, rules, i, j);
        let next = if allowed {
            merge_spec(st, i, j, hashes_of(items), rules.max_bits)
        } else {
            st
        };
        if allowed {
            let pushed = st.2.push((i as usize, j as usize));
            assert(next.2 == st.2 || next.2 == pushed);
            assert forall|p: int| 0 <= p < next.2.len() implies ({
                let (a, b) = #[trigger] next.2[p];
                gate_allows(gate, a as int, b as int)
            }) by {
                if p < st.2.len() {
                    assert(next.2[p] == st.2[p]);
                } else {
                    assert(next.2[p] == (i as usize, j as usize));
                    assert((i as usize) as int == i && (j as usize) as int == j);
                }
            }
        }
        lemma_scan_pairs_gated(next, items, rules, gate, i, j + 1);
    }
}

/// Compares every pair of images (each pair once, in scan order) and merges
/// the duplicates found into groups.
pub fn compare_images(items: &Vec<ScanItem>, rules: CompareRules) -> (g: DuplicateGroups)
    requires
        items@.len() < usize::MAX,
    ensures
        groups_wf(g, items@.len()),
        state_of(g) == scan_pairs(
            DuplicateGroups::new_spec(items@.len()),
            items@,
            rules,
            Seq::empty(),
            0,
            1,
        ),
        pairs_passed(state_of(g), items@, rules),
{
    let none: Vec<Vec<bool>> = Vec::new();
    proof {
        assert(gate_view(none@) =~= Seq::<Seq<bool>>::empty());
    }
    compare_gated(items, rules, &none)
}

/// Compares every pair of videos whose durations are close enough
/// (`duration_ok[i][j]`, for `i < j`), each pair once in scan order, and
/// merges the duplicates found into groups.
pub fn compare_videos_linear(items: &Vec<ScanItem>, rules: CompareRules, duration_ok: &Vec<Vec<bool>>) -> (g:
    DuplicateGroups)
    requires
        items@.len() < usize::MAX,
        duration_ok@.len() == items@.len(),
        forall|i: int| 0 <= i < items@.len() ==> (#[trigger] duration_ok@[i])@.len() == items@.len(),
    ensures
        groups_wf(g, items@.len()),
        state_of(g) == scan_pairs(
            DuplicateGroups::new_spec(items@.len()),
            items@,
            rules,
            gate_view(duration_ok@),
            0,
            1,
        ),
        pairs_passed(state_of(g), items@, rules),
        forall|p: int| 0 <= p < state_of(g).2.len() ==> ({
            let (a, b) = #[trigger] state_of(g).2[p];
            duration_ok@[a as int]@[b as int]
        }),
{
    let g = compare_gated(items, rules, duration_ok);
    proof {
        lemma_scan_pairs_gated(
            DuplicateGroups::new_spec(items@.len()),
            items@,
            rules,
            gate_view(duration_ok@),
            0,
            1,
        );
        assert forall|p: int| 0 <= p < state_of(g).2.len() implies ({
            let (a, b) = #[trigger] state_of(g).2[p];
            duration_ok@[a as int]@[b as int]
        }) by {
            let (a, b) = state_of(g).2[p];
            assert(gate_view(duration_ok@)[a as int] == duration_ok@[a as int]@);
        }
    }
    g
}

} // verus!
