//! User-managed "not a match" group blacklist: path comparison, path sets,
//! pruning of entries whose files are gone, and the group filter.
//!
//! Paths compare case-sensitively, as on Linux: two paths are equal exactly
//! when their characters are.

use crate::text::{chars_equal, chars_of, decimal, decimal_chars, push_all, push_char, push_zero_padded, zero_padded};
use vstd::prelude::*;

verus! {

/// One "not a match" entry: a set of paths, held without repetitions.
pub type BlacklistGroup = Vec<String>;

/// The full blacklist: a list of path sets.
pub type Blacklist = Vec<BlacklistGroup>;

/// Returns `true` when two path strings name the same path: their characters
/// are equal.
pub fn paths_equal(a: &str, b: &str) -> (r: bool)
    ensures
        r == (a@ == b@),
{
    let ca = chars_of(a);
    let cb = chars_of(b);
    chars_equal(&ca, &cb)
}

/// The form in which paths are compared: the path itself.
pub fn normalise_path(p: &str) -> (r: String)
    ensures
        r@ == p@,
{
    p.to_owned()
}

/// Whether the path `p` occurs in `paths`.
pub open spec fn has_path(paths: Seq<String>, p: Seq<char>) -> bool {
    exists|j: int| 0 <= j < paths.len() && (#[trigger] paths[j])@ == p
}

/// No path occurs twice.
pub open spec fn distinct_paths(paths: Seq<String>) -> bool {
    forall|a: int, b: int|
        0 <= a < b < paths.len() ==> (#[trigger] paths[a])@ != (#[trigger] paths[b])@
}

fn find_path(paths: &Vec<String>, p: &String) -> (r: bool)
    ensures
        r == has_path(paths@, p@),
{
    let mut i: usize = 0;
    while i < paths.len()
        invariant
            i <= paths@.len(),
            forall|k: int| 0 <= k < i ==> (#[trigger] paths@[k])@ != p@,
        decreases paths@.len() - i,
    {
        if paths[i] == *p {
            proof {
                assert((paths@[i as int])@ == p@);
            }
            return true;
        }
        i = i + 1;
    }
    false
}

/// Build a path set from a list of paths: each path once, in the order of
/// first occurrence.
pub fn make_path_set(paths: Vec<String>) -> (set: Vec<String>)
    ensures
        distinct_paths(set@),
        forall|p: Seq<char>| has_path(set@, p) <==> has_path(paths@, p),
{
    let mut set: Vec<String> = Vec::new();
    let mut i: usize = 0;
    while i < paths.len()
        invariant
            i <= paths@.len(),
            distinct_paths(set@),
            forall|p: Seq<char>| has_path(set@, p) <==> has_path(paths@.take(i as int), p),
        decreases paths@.len() - i,
    {
        let p = &paths[i];
        let present = find_path(&set, p);
        let ghost before = set@;
        if !present {
            set.push(p.clone());
        }
        proof {
            let t = paths@.take(i as int + 1);
            assert(t =~= paths@.take(i as int).push(paths@[i as int]));
            assert forall|q: Seq<char>| has_path(set@, q) <==> has_path(t, q) by {
                if has_path(t, q) {
                    let j = choose|j: int| 0 <= j < t.len() && (#[trigger] t[j])@ == q;
                    if j < i {
                        assert(paths@.take(i as int)[j] == t[j]);
                        assert(has_path(paths@.take(i as int), q));
                        assert(has_path(before, q));
                        let k = choose|k: int| 0 <= k < before.len() && (#[trigger] before[k])@
                            == q;
                        assert(set@[k] == before[k]);
                    } else {
                        if present {
                            assert(has_path(before, q));
                            let k = choose|k: int| 0 <= k < before.len() && (#[trigger] before[k])@
                                == q;
                            assert(set@[k] == before[k]);
                        } else {
                            assert(set@[before.len() as int]@ == q);
                        }
                    }
                }
                if has_path(set@, q) {
                    let k = choose|k: int| 0 <= k < set@.len() && (#[trigger] set@[k])@ == q;
                    if k < before.len() {
                        assert(before[k] == set@[k]);
                        assert(has_path(before, q));
                        assert(has_path(paths@.take(i as int), q));
                        let j = choose|j: int|
                            0 <= j < paths@.take(i as int).len() && (#[trigger] paths@.take(
                                i as int,
                            )[j])@ == q;
                        assert(t[j] == paths@.take(i as int)[j]);
                    } else {
                        assert(t[i as int]@ == q);
                    }
                }
            }
        }
        i = i + 1;
    }
    proof {
        assert(paths@.take(paths@.len() as int) =~= paths@);
    }
    set
}

/// Keep the entries all of whose paths still exist, and return how many were
/// removed.  `present[e][j]` tells whether path `j` of entry `e` exists on disk.
pub fn prune_missing(blacklist: &mut Blacklist, present: &Vec<Vec<bool>>) -> (removed: usize)
    requires
        old(blacklist)@.len() == present@.len(),
    ensures
        final(blacklist)@ == kept(old(blacklist)@, present@),
        removed == old(blacklist)@.len() - final(blacklist)@.len(),
{
    let ghost orig = blacklist@;
    let n = blacklist.len();
    let mut pos: usize = 0;
    let mut e: usize = 0;
    while e < n
        invariant
            e <= n,
            n == orig.len(),
            orig == old(blacklist)@,
            orig.len() == present@.len(),
            pos == kept(orig.take(e as int), present@).len(),
            pos <= e,
            blacklist@ == kept(orig.take(e as int), present@) + orig.skip(e as int),
        decreases n - e,
    {
        let flags = &present[e];
        let mut all = true;
        let mut j: usize = 0;
        while j < flags.len()
            invariant
                j <= flags@.len(),
                all == (forall|k: int| 0 <= k < j ==> #[trigger] flags@[k]),
            decreases flags@.len() - j,
        {
            if !flags[j] {
                all = false;
            }
            j = j + 1;
        }
        proof {
            lemma_kept_step(orig, present@, e as int);
            assert(flags@ == present@[e as int]@);
            assert(all == all_present(present@, e as int));
            assert(blacklist@[pos as int] == orig[e as int]);
        }
        if all {
            pos = pos + 1;
            proof {
                assert(blacklist@ =~= kept(orig.take(e as int + 1), present@) + orig.skip(
                    e as int + 1,
                ));
            }
        } else {
            blacklist.remove(pos);
            proof {
                assert(blacklist@ =~= kept(orig.take(e as int + 1), present@) + orig.skip(
                    e as int + 1,
                ));
            }
        }
        e = e + 1;
    }
    proof {
        assert(orig.take(n as int) =~= orig);
        assert(blacklist@ =~= kept(orig, present@));
    }
    n - blacklist.len()
}

/// Whether every path of entry `e` is present.
pub open spec fn all_present(present: Seq<Vec<bool>>, e: int) -> bool {
    forall|k: int| 0 <= k < present[e]@.len() ==> #[trigger] present[e]@[k]
}

/// The entries of `bl` (a prefix of the blacklist) all of whose paths are
/// present, in order.
pub open spec fn kept(bl: Seq<BlacklistGroup>, present: Seq<Vec<bool>>) -> Seq<BlacklistGroup>
    decreases bl.len(),
{
    if bl.len() == 0 {
        Seq::empty()
    } else {
        let rest = kept(bl.drop_last(), present);
        if all_present(present, bl.len() - 1) {
            rest.push(bl.last())
        } else {
            rest
        }
    }
}

proof fn lemma_kept_step(bl: Seq<BlacklistGroup>, present: Seq<Vec<bool>>, e: int)
    requires
        0 <= e < bl.len(),
    ensures
        kept(bl.take(e + 1), present) == if all_present(present, e) {
            kept(bl.take(e), present).push(bl[e])
        } else {
            kept(bl.take(e), present)
        },
{
    assert(bl.take(e + 1).drop_last() =~= bl.take(e));
}


/// Whether some item belongs to cluster `id`.
pub open spec fn cluster_has(items: Seq<(u64, &str)>, id: u64) -> bool {
    exists|i: int| 0 <= i < items.len() && (#[trigger] items[i]).0 == id
}

/// Whether `entry` holds every path of cluster `id`.
pub open spec fn entry_covers(entry: Seq<String>, items: Seq<(u64, &str)>, id: u64) -> bool {
    forall|i: int|
        0 <= i < items.len() && (#[trigger] items[i]).0 == id ==> has_path(entry, items[i].1@)
}

/// Cluster `id` is blacklisted: it has at least one item, and some single
/// blacklist entry holds all of its paths.
pub open spec fn blacklisted(items: Seq<(u64, &str)>, bl: Seq<BlacklistGroup>, id: u64) -> bool {
    cluster_has(items, id) && exists|e: int|
        0 <= e < bl.len() && entry_covers((#[trigger] bl[e])@, items, id)
}

fn path_in(entry: &Vec<String>, p: &str) -> (r: bool)
    ensures
        r == has_path(entry@, p@),
{
    let mut j: usize = 0;
    while j < entry.len()
        invariant
            j <= entry@.len(),
            forall|k: int| 0 <= k < j ==> (#[trigger] entry@[k])@ != p@,
        decreases entry@.len() - j,
    {
        if paths_equal(entry[j].as_str(), p) {
            return true;
        }
        j = j + 1;
    }
    false
}

fn covers(entry: &Vec<String>, items: &Vec<(u64, &str)>, id: u64) -> (r: bool)
    ensures
        r == entry_covers(entry@, items@, id),
{
    let mut k: usize = 0;
    while k < items.len()
        invariant
            k <= items@.len(),
            forall|i: int|
                0 <= i < k && (#[trigger] items@[i]).0 == id ==> has_path(entry@, items@[i].1@),
        decreases items@.len() - k,
    {
        let (kid, kp) = items[k];
        if kid == id && !path_in(entry, kp) {
            proof {
                assert(items@[k as int].0 == id && !has_path(entry@, items@[k as int].1@));
            }
            return false;
        }
        k = k + 1;
    }
    true
}

fn contains_id(v: &Vec<u64>, x: u64) -> (r: bool)
    ensures
        r == v@.contains(x),
{
    let mut k: usize = 0;
    while k < v.len()
        invariant
            k <= v@.len(),
            forall|j: int| 0 <= j < k ==> v@[j] != x,
        decreases v@.len() - k,
    {
        if v[k] == x {
            proof {
                assert(v@[k as int] == x);
            }
            return true;
        }
        k = k + 1;
    }
    false
}

proof fn lemma_push_distinct(old_v: Seq<u64>, x: u64)
    requires
        old_v.no_duplicates(),
        !old_v.contains(x),
    ensures
        old_v.push(x).no_duplicates(),
        forall|y: u64| old_v.push(x).contains(y) <==> (old_v.contains(y) || y == x),
{
    let v = old_v.push(x);
    assert forall|a: int, b: int| 0 <= a < b < v.len() implies v[a] != v[b] by {
        if b == v.len() - 1 {
            assert(old_v[a] == v[a]);
        }
    }
    assert forall|y: u64| v.contains(y) <==> (old_v.contains(y) || y == x) by {
        if v.contains(y) && y != x {
            let k = choose|k: int| 0 <= k < v.len() && v[k] == y;
            assert(old_v[k] == y);
        }
        if old_v.contains(y) {
            let k = choose|k: int| 0 <= k < old_v.len() && old_v[k] == y;
            assert(v[k] == y);
        }
        if y == x {
            assert(v[v.len() - 1] == x);
        }
    }
}

/// Returns the ids of the clusters that are fully covered by some entry of
/// `blacklist`: every path of the cluster is in one single entry.  Subset
/// semantics: an entry {A,B,C} also blocks a later cluster {A,B}.
///
/// `items` lists (cluster id, file path) pairs.  Each id occurs once in the
/// result.
pub fn compute_blacklisted_ids(items: Vec<(u64, &str)>, blacklist: &Blacklist) -> (ids: Vec<u64>)
    ensures
        ids@.no_duplicates(),
        forall|id: u64| ids@.contains(id) <==> blacklisted(items@, blacklist@, id),
{
    let mut ids: Vec<u64> = Vec::new();
    if blacklist.len() == 0 {
        return ids;
    }
    let mut seen: Vec<u64> = Vec::new();
    let mut i: usize = 0;
    while i < items.len()
        invariant
            i <= items@.len(),
            seen@.no_duplicates(),
            ids@.no_duplicates(),
            forall|k: int|
                0 <= k < seen@.len() ==> exists|j: int|
                    0 <= j < i && (#[trigger] items@[j]).0 == #[trigger] seen@[k],
            forall|j: int| 0 <= j < i ==> seen@.contains((#[trigger] items@[j]).0),
            forall|id: u64|
                ids@.contains(id) <==> (seen@.contains(id) && blacklisted(
                    items@,
                    blacklist@,
                    id,
                )),
        decreases items@.len() - i,
    {
        let id = items[i].0;
        let already = contains_id(&seen, id);
        if !already {
            let mut covered = false;
            let mut e: usize = 0;
            while e < blacklist.len()
                invariant
                    e <= blacklist@.len(),
                    covered == exists|f: int|
                        0 <= f < e && entry_covers((#[trigger] blacklist@[f])@, items@, id),
                decreases blacklist@.len() - e,
            {
                if covers(&blacklist[e], &items, id) {
                    covered = true;
                }
                e = e + 1;
            }
            proof {
                assert(items@[i as int].0 == id);
                assert(cluster_has(items@, id));
                assert(covered == blacklisted(items@, blacklist@, id));
            }
            let ghost old_ids = ids@;
            let ghost old_seen = seen@;
            if covered {
                proof {
                    assert(!old_ids.contains(id));
                    lemma_push_distinct(old_ids, id);
                }
                ids.push(id);
            }
            seen.push(id);
            proof {
                lemma_push_distinct(old_seen, id);
                if covered {
                    assert(ids@ == old_ids.push(id));
                } else {
                    assert(ids@ == old_ids);
                }
                assert forall|x: u64| ids@.contains(x) <==> (seen@.contains(x) && blacklisted(
                    items@,
                    blacklist@,
                    x,
                )) by {
                    if x == id {
                        assert(seen@.contains(x));
                    } else {
                        assert(seen@.contains(x) == old_seen.contains(x));
                        assert(ids@.contains(x) == old_ids.contains(x));
                    }
                }
                assert forall|k: int| 0 <= k < seen@.len() implies exists|j: int|
                    0 <= j < i + 1 && (#[trigger] items@[j]).0 == #[trigger] seen@[k] by {
                    if k < old_seen.len() {
                        assert(seen@[k] == old_seen[k]);
                    } else {
                        assert(items@[i as int].0 == seen@[k]);
                    }
                }
            }
        } else {
            proof {
                assert forall|k: int| 0 <= k < seen@.len() implies exists|j: int|
                    0 <= j < i + 1 && (#[trigger] items@[j]).0 == #[trigger] seen@[k] by {
                }
            }
        }
        i = i + 1;
    }
    proof {
        assert forall|x: u64| ids@.contains(x) <==> blacklisted(items@, blacklist@, x) by {
            if blacklisted(items@, blacklist@, x) {
                let k = choose|k: int| 0 <= k < items@.len() && (#[trigger] items@[k]).0 == x;
                assert(seen@.contains(items@[k].0));
            }
        }
    }
    ids
}

/// Subset semantics: when every path that a later scan puts in cluster
/// `later_id` belonged to a cluster that was blacklisted, the later cluster
/// is blacklisted too; marking {A, B, C} as not a match also blocks {A, B}.
pub proof fn lemma_subset_stays_blacklisted(
    items: Seq<(u64, &str)>,
    id: u64,
    later: Seq<(u64, &str)>,
    later_id: u64,
    bl: Seq<BlacklistGroup>,
)
    requires
        blacklisted(items, bl, id),
        cluster_has(later, later_id),
        forall|j: int|
            0 <= j < later.len() && (#[trigger] later[j]).0 == later_id ==> exists|i: int|
                0 <= i < items.len() && (#[trigger] items[i]).0 == id && items[i].1@
                    == later[j].1@,
    ensures
        blacklisted(later, bl, later_id),
{
    let e = choose|e: int| 0 <= e < bl.len() && entry_covers((#[trigger] bl[e])@, items, id);
    assert forall|j: int|
        0 <= j < later.len() && (#[trigger] later[j]).0 == later_id implies has_path(
        bl[e]@,
        later[j].1@,
    ) by {
        let i = choose|i: int|
            0 <= i < items.len() && (#[trigger] items[i]).0 == id && items[i].1@ == later[j].1@;
        assert(has_path(bl[e]@, items[i].1@));
    }
    assert(entry_covers(bl[e]@, later, later_id));
}

/// The blacklist view's rough timestamp `Y-MM-DD HH:MM:SS`: years of 365
/// days from 1970 and months of 30 days, which is close enough to show when
/// an entry was made.
pub open spec fn rough_time_text(secs: nat) -> Seq<char> {
    let days = secs / 86400;
    let yday = days % 365;
    decimal(1970 + days / 365) + seq!['-'] + zero_padded(yday / 30 + 1, 2) + seq!['-'] + zero_padded(
        yday % 30 + 1,
        2,
    ) + seq![' '] + zero_padded((secs / 3600) % 24, 2) + seq![':'] + zero_padded((secs / 60) % 60, 2)
        + seq![':'] + zero_padded(secs % 60, 2)
}

/// Formats when a blacklist entry was made (see [`rough_time_text`]).
pub fn format_unix(secs: u64) -> (r: String)
    ensures
        r@ == rough_time_text(secs as nat),
{
    let s_ = secs % 60;
    let m = (secs / 60) % 60;
    let h = (secs / 3600) % 24;
    let days = secs / 86400;
    let year = 1970 + days / 365;
    let yday = days % 365;
    let month = yday / 30 + 1;
    let day = yday % 30 + 1;
    let mut s = String::new();
    push_all(&mut s, &decimal_chars(year as u128));
    push_char(&mut s, '-');
    push_zero_padded(&mut s, month as u128, 2);
    push_char(&mut s, '-');
    push_zero_padded(&mut s, day as u128, 2);
    push_char(&mut s, ' ');
    push_zero_padded(&mut s, h as u128, 2);
    push_char(&mut s, ':');
    push_zero_padded(&mut s, m as u128, 2);
    push_char(&mut s, ':');
    push_zero_padded(&mut s, s_ as u128, 2);
    proof {
        assert(s@ =~= rough_time_text(secs as nat));
    }
    s
}

} // verus!
