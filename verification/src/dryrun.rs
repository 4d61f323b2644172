//! The dry-run report: for the files selected for removal, what each
//! duplicate group would lose and keep, and the space that would be freed.
//!
//! Each pair files its two members under a key, the smaller of the two
//! ids; the groups are those keys' member lists. A selected file is
//! reported with the first group that lists it (or alone), and every
//! selected member of that group is reported there, once.

use crate::browser::{text_lt, text_lt_exec};
use crate::db::unix_now;
use crate::text::{chars_equal, chars_of, decimal, decimal_chars, push_all, push_char};
use vstd::prelude::*;

verus! {

/// A recorded file the report can name.
pub struct DryRunFile {
    pub id: String,
    pub path: String,
    pub size_bytes: u64,
    pub width: u32,
    pub height: u32,
}

/// One file of the report.
pub struct DryRunItem {
    pub path: String,
    pub size_bytes: u64,
    /// `W×H`, or empty when the width is unknown.
    pub resolution: String,
}

/// One group of the report.
pub struct DryRunGroup {
    pub remove: Vec<DryRunItem>,
    pub keep: Vec<DryRunItem>,
    pub estimated_savings_bytes: u64,
}

/// The report.
pub struct DryRunReport {
    /// When it was made, in seconds since the epoch.
    pub created_at: String,
    pub total_savings_bytes: u64,
    pub groups: Vec<DryRunGroup>,
}

/// The key a pair is filed under: the smaller id.
pub open spec fn pair_key(a: Seq<char>, b: Seq<char>) -> Seq<char> {
    if text_lt(b, a) {
        b
    } else {
        a
    }
}

pub open spec fn add_member(ms: Seq<Seq<char>>, x: Seq<char>) -> Seq<Seq<char>> {
    if ms.contains(x) {
        ms
    } else {
        ms.push(x)
    }
}

/// The position of the group with key `k`, or -1.
pub open spec fn group_index(gs: Seq<(Seq<char>, Seq<Seq<char>>)>, k: Seq<char>) -> int
    decreases gs.len(),
{
    if gs.len() == 0 {
        -1
    } else if group_index(gs.drop_last(), k) >= 0 {
        group_index(gs.drop_last(), k)
    } else if gs.last().0 == k {
        gs.len() - 1
    } else {
        -1
    }
}

/// The groups the pairs make: each key with its members, in the order the
/// keys and members first appear.
pub open spec fn key_groups(pairs: Seq<(String, String)>) -> Seq<(Seq<char>, Seq<Seq<char>>)>
    decreases pairs.len(),
{
    if pairs.len() == 0 {
        Seq::empty()
    } else {
        let gs = key_groups(pairs.drop_last());
        let a = pairs.last().0@;
        let b = pairs.last().1@;
        let k = pair_key(a, b);
        let i = group_index(gs, k);
        if i < 0 {
            gs.push((k, add_member(seq![a], b)))
        } else {
            gs.update(i, (k, add_member(add_member(gs[i].1, a), b)))
        }
    }
}

/// The members of the first group that lists `id`, or `id` alone.
pub open spec fn members_for(gs: Seq<(Seq<char>, Seq<Seq<char>>)>, id: Seq<char>) -> Seq<Seq<char>>
    decreases gs.len(),
{
    if gs.len() == 0 {
        seq![id]
    } else if gs[0].1.contains(id) {
        gs[0].1
    } else {
        members_for(gs.drop_first(), id)
    }
}

/// The position of the first record with the given id, or -1.
pub open spec fn find_record(records: Seq<DryRunFile>, id: Seq<char>) -> int
    decreases records.len(),
{
    if records.len() == 0 {
        -1
    } else if find_record(records.drop_last(), id) >= 0 {
        find_record(records.drop_last(), id)
    } else if records.last().id@ == id {
        records.len() - 1
    } else {
        -1
    }
}

pub open spec fn selected(remove: Seq<String>, id: Seq<char>) -> bool {
    exists|k: int| 0 <= k < remove.len() && (#[trigger] remove[k])@ == id
}

/// The records of the members found, split into those selected for
/// removal and those kept, in member order.
pub open spec fn split_members(
    records: Seq<DryRunFile>,
    members: Seq<Seq<char>>,
    remove: Seq<String>,
) -> (Seq<int>, Seq<int>)
    decreases members.len(),
{
    if members.len() == 0 {
        (Seq::empty(), Seq::empty())
    } else {
        let (rm, kp) = split_members(records, members.drop_last(), remove);
        let r = find_record(records, members.last());
        if r < 0 {
            (rm, kp)
        } else if selected(remove, members.last()) {
            (rm.push(r), kp)
        } else {
            (rm, kp.push(r))
        }
    }
}

/// The groups reported for the first `m` selected ids, and the ids
/// reported so far.
pub open spec fn report_from(
    records: Seq<DryRunFile>,
    pairs: Seq<(String, String)>,
    remove: Seq<String>,
    m: int,
) -> (Seq<(Seq<int>, Seq<int>)>, Set<Seq<char>>)
    decreases m,
{
    if m <= 0 {
        (Seq::empty(), Set::empty())
    } else {
        let (groups, seen) = report_from(records, pairs, remove, m - 1);
        let id = remove[m - 1]@;
        if seen.contains(id) {
            (groups, seen)
        } else {
            let ms = members_for(key_groups(pairs), id);
            let (rm, kp) = split_members(records, ms, remove);
            let seen2 = seen + Set::new(
                |x: Seq<char>| ms.contains(x) && find_record(records, x) >= 0 && selected(remove, x),
            );
            if rm.len() == 0 {
                (groups, seen2)
            } else {
                (groups.push((rm, kp)), seen2)
            }
        }
    }
}

/// The sum of the sizes of the given records.
pub open spec fn sizes_of(records: Seq<DryRunFile>, idx: Seq<int>) -> int
    decreases idx.len(),
{
    if idx.len() == 0 {
        0
    } else {
        sizes_of(records, idx.drop_last()) + records[idx.last()].size_bytes
    }
}

/// The savings of all reported groups.
pub open spec fn total_of(records: Seq<DryRunFile>, groups: Seq<(Seq<int>, Seq<int>)>) -> int
    decreases groups.len(),
{
    if groups.len() == 0 {
        0
    } else {
        total_of(records, groups.drop_last()) + sizes_of(records, groups.last().0)
    }
}

/// The resolution text of a record.
pub open spec fn resolution_of(f: DryRunFile) -> Seq<char> {
    if f.width > 0 {
        decimal(f.width as nat) + seq!['×'] + decimal(f.height as nat)
    } else {
        Seq::empty()
    }
}

/// The item shows record `r`.
pub open spec fn item_is(item: DryRunItem, f: DryRunFile) -> bool {
    &&& item.path@ == f.path@
    &&& item.size_bytes == f.size_bytes
    &&& item.resolution@ == resolution_of(f)
}

pub open spec fn items_are(items: Seq<DryRunItem>, records: Seq<DryRunFile>, idx: Seq<int>) -> bool {
    &&& items.len() == idx.len()
    &&& forall|k: int| 0 <= k < idx.len() ==> item_is(#[trigger] items[k], records[idx[k]])
}

// ─── Building the groups ─────────────────────────────────────────────────────

pub open spec fn members_view(ms: Seq<Vec<char>>) -> Seq<Seq<char>> {
    ms.map_values(|m: Vec<char>| m@)
}

/// The groups held as parallel lists of keys and member lists.
pub open spec fn groups_view(keys: Seq<Vec<char>>, members: Seq<Vec<Vec<char>>>) -> Seq<
    (Seq<char>, Seq<Seq<char>>),
> {
    Seq::new(keys.len(), |i: int| (keys[i]@, members_view(members[i]@)))
}

proof fn lemma_group_index(gs: Seq<(Seq<char>, Seq<Seq<char>>)>, k: Seq<char>, i: int)
    requires
        0 <= i <= gs.len(),
        forall|j: int| 0 <= j < i ==> gs[j].0 != k,
    ensures
        i < gs.len() && gs[i].0 == k ==> group_index(gs, k) == i,
        i == gs.len() ==> group_index(gs, k) == -1,
    decreases gs.len(),
{
    if gs.len() > 0 {
        if i < gs.len() {
            if i < gs.len() - 1 {
                lemma_group_index(gs.drop_last(), k, i);
            } else {
                lemma_group_index(gs.drop_last(), k, i);
            }
        } else {
            lemma_group_index(gs.drop_last(), k, i - 1);
        }
    }
}

fn contains_chars(list: &Vec<Vec<char>>, x: &Vec<char>) -> (r: bool)
    ensures
        r == members_view(list@).contains(x@),
{
    let mut i: usize = 0;
    while i < list.len()
        invariant
            i <= list@.len(),
            forall|k: int| 0 <= k < i ==> list@[k]@ != x@,
        decreases list@.len() - i,
    {
        if chars_equal(&list[i], x) {
            assert(members_view(list@)[i as int] == x@);
            return true;
        }
        i = i + 1;
    }
    assert forall|k: int| 0 <= k < members_view(list@).len() implies members_view(list@)[k] != x@ by {
        assert(members_view(list@)[k] == list@[k]@);
    }
    false
}

fn copy_chars(v: &Vec<char>) -> (r: Vec<char>)
    ensures
        r@ == v@,
{
    let mut r: Vec<char> = Vec::new();
    let mut i: usize = 0;
    while i < v.len()
        invariant
            i <= v@.len(),
            r@ == v@.take(i as int),
        decreases v@.len() - i,
    {
        r.push(v[i]);
        proof {
            assert(v@.take(i + 1) =~= v@.take(i as int).push(v@[i as int]));
        }
        i = i + 1;
    }
    assert(v@.take(v@.len() as int) =~= v@);
    r
}

fn copy_members(ms: &Vec<Vec<char>>) -> (r: Vec<Vec<char>>)
    ensures
        members_view(r@) == members_view(ms@),
{
    let mut r: Vec<Vec<char>> = Vec::new();
    let mut i: usize = 0;
    while i < ms.len()
        invariant
            i <= ms@.len(),
            members_view(r@) == members_view(ms@).take(i as int),
        decreases ms@.len() - i,
    {
        let ghost before = members_view(r@);
        r.push(copy_chars(&ms[i]));
        proof {
            assert(members_view(r@) =~= before.push(ms@[i as int]@));
            assert(members_view(ms@).take(i + 1) =~= members_view(ms@).take(i as int).push(ms@[i as int]@));
        }
        i = i + 1;
    }
    assert(members_view(ms@).take(ms@.len() as int) =~= members_view(ms@));
    r
}

fn add_member_exec(ms: &mut Vec<Vec<char>>, x: &Vec<char>)
    ensures
        members_view(final(ms)@) == add_member(members_view(old(ms)@), x@),
{
    if !contains_chars(ms, x) {
        let ghost before = members_view(ms@);
        ms.push(copy_chars(x));
        assert(members_view(ms@) =~= before.push(x@));
    }
}

/// The groups the pairs make (see [`key_groups`]), as keys and member lists.
fn key_groups_exec(pairs: &Vec<(String, String)>) -> (r: (Vec<Vec<char>>, Vec<Vec<Vec<char>>>))
    ensures
        r.0@.len() == r.1@.len(),
        groups_view(r.0@, r.1@) == key_groups(pairs@),
{
    let mut keys: Vec<Vec<char>> = Vec::new();
    let mut members: Vec<Vec<Vec<char>>> = Vec::new();
    let mut p: usize = 0;
    proof {
        assert(groups_view(keys@, members@) =~= key_groups(pairs@.take(0)));
    }
    while p < pairs.len()
        invariant
            p <= pairs@.len(),
            keys@.len() == members@.len(),
            groups_view(keys@, members@) == key_groups(pairs@.take(p as int)),
        decreases pairs@.len() - p,
    {
        let ghost gs = groups_view(keys@, members@);
        proof {
            assert(pairs@.take(p + 1).drop_last() =~= pairs@.take(p as int));
            assert(pairs@.take(p + 1).last() == pairs@[p as int]);
        }
        let a = chars_of(pairs[p].0.as_str());
        let b = chars_of(pairs[p].1.as_str());
        let key = if text_lt_exec(&b, &a) {
            copy_chars(&b)
        } else {
            copy_chars(&a)
        };
        let mut i: usize = 0;
        while i < keys.len() && !chars_equal(&keys[i], &key)
            invariant
                i <= keys@.len(),
                keys@.len() == members@.len(),
                gs == groups_view(keys@, members@),
                forall|j: int| 0 <= j < i ==> gs[j].0 != key@,
            decreases keys@.len() - i,
        {
            i = i + 1;
        }
        proof {
            lemma_group_index(gs, key@, i as int);
        }
        if i == keys.len() {
            let mut ms: Vec<Vec<char>> = Vec::new();
            ms.push(copy_chars(&a));
            proof {
                assert(members_view(ms@) =~= seq![a@]);
            }
            add_member_exec(&mut ms, &b);
            keys.push(key);
            members.push(ms);
            proof {
                assert(groups_view(keys@, members@) =~= gs.push((pair_key(a@, b@), add_member(seq![a@], b@))));
            }
        } else {
            let mut ms = copy_members(&members[i]);
            add_member_exec(&mut ms, &a);
            add_member_exec(&mut ms, &b);
            let ghost nm = members_view(ms@);
            members.set(i, ms);
            proof {
                assert(groups_view(keys@, members@) =~= gs.update(i as int, (pair_key(a@, b@), nm)));
            }
        }
        p = p + 1;
    }
    proof {
        assert(pairs@.take(pairs@.len() as int) =~= pairs@);
    }
    (keys, members)
}

// ─── The report ──────────────────────────────────────────────────────────────

/// The members of the first group that lists `id`, or `id` alone.
fn members_for_exec(keys: &Vec<Vec<char>>, members: &Vec<Vec<Vec<char>>>, id: &Vec<char>) -> (r: Vec<Vec<char>>)
    requires
        keys@.len() == members@.len(),
    ensures
        members_view(r@) == members_for(groups_view(keys@, members@), id@),
{
    let ghost gs = groups_view(keys@, members@);
    let mut g: usize = 0;
    proof {
        assert(gs.skip(0) =~= gs);
    }
    while g < members.len()
        invariant
            g <= members@.len(),
            keys@.len() == members@.len(),
            gs == groups_view(keys@, members@),
            members_for(gs, id@) == members_for(gs.skip(g as int), id@),
        decreases members@.len() - g,
    {
        proof {
            assert(gs.skip(g as int)[0] == gs[g as int]);
            assert(gs.skip(g as int).drop_first() =~= gs.skip(g + 1));
        }
        if contains_chars(&members[g], id) {
            return copy_members(&members[g]);
        }
        g = g + 1;
    }
    let mut r: Vec<Vec<char>> = Vec::new();
    r.push(copy_chars(id));
    proof {
        assert(gs.skip(g as int) =~= Seq::<(Seq<char>, Seq<Seq<char>>)>::empty());
        assert(members_view(r@) =~= seq![id@]);
    }
    r
}

proof fn lemma_find_record(records: Seq<DryRunFile>, id: Seq<char>, i: int)
    requires
        0 <= i <= records.len(),
        forall|j: int| 0 <= j < i ==> records[j].id@ != id,
    ensures
        i < records.len() && records[i].id@ == id ==> find_record(records, id) == i,
        i == records.len() ==> find_record(records, id) == -1,
    decreases records.len(),
{
    if records.len() > 0 {
        if i < records.len() {
            lemma_find_record(records.drop_last(), id, i);
        } else {
            lemma_find_record(records.drop_last(), id, i - 1);
        }
    }
}

fn find_record_exec(records: &Vec<DryRunFile>, id: &Vec<char>) -> (r: Option<usize>)
    ensures
        match r {
            Some(i) => i < records@.len() && find_record(records@, id@) == i,
            None => find_record(records@, id@) == -1,
        },
{
    let mut i: usize = 0;
    while i < records.len()
        invariant
            i <= records@.len(),
            forall|j: int| 0 <= j < i ==> records@[j].id@ != id@,
        decreases records@.len() - i,
    {
        let rid = chars_of(records[i].id.as_str());
        if chars_equal(&rid, id) {
            proof {
                lemma_find_record(records@, id@, i as int);
            }
            return Some(i);
        }
        i = i + 1;
    }
    proof {
        lemma_find_record(records@, id@, i as int);
    }
    None
}

fn selected_exec(remove: &Vec<String>, id: &Vec<char>) -> (r: bool)
    ensures
        r == selected(remove@, id@),
{
    let mut k: usize = 0;
    while k < remove.len()
        invariant
            k <= remove@.len(),
            forall|j: int| 0 <= j < k ==> remove@[j]@ != id@,
        decreases remove@.len() - k,
    {
        let c = chars_of(remove[k].as_str());
        if chars_equal(&c, id) {
            return true;
        }
        k = k + 1;
    }
    false
}

fn resolution_exec(f: &DryRunFile) -> (r: String)
    ensures
        r@ == resolution_of(*f),
{
    let mut r = String::new();
    if f.width > 0 {
        push_all(&mut r, &decimal_chars(f.width as u128));
        push_char(&mut r, '×');
        push_all(&mut r, &decimal_chars(f.height as u128));
        proof {
            assert(r@ =~= decimal(f.width as nat) + seq!['×'] + decimal(f.height as nat));
        }
    } else {
        proof {
            assert(r@ =~= Seq::<char>::empty());
        }
    }
    r
}

fn item_of(f: &DryRunFile) -> (item: DryRunItem)
    ensures
        item_is(item, *f),
{
    DryRunItem { path: f.path.clone(), size_bytes: f.size_bytes, resolution: resolution_exec(f) }
}

proof fn lemma_split_step(records: Seq<DryRunFile>, members: Seq<Seq<char>>, remove: Seq<String>, k: int)
    requires
        0 <= k < members.len(),
    ensures
        split_members(records, members.take(k + 1), remove) == ({
            let (rm, kp) = split_members(records, members.take(k), remove);
            let r = find_record(records, members[k]);
            if r < 0 {
                (rm, kp)
            } else if selected(remove, members[k]) {
                (rm.push(r), kp)
            } else {
                (rm, kp.push(r))
            }
        }),
{
    assert(members.take(k + 1).drop_last() =~= members.take(k));
    assert(members.take(k + 1).last() == members[k]);
}

/// The removed and kept items of one reported group, the positions of
/// their records, and the selected members found.
fn split_exec(records: &Vec<DryRunFile>, ms: &Vec<Vec<char>>, remove: &Vec<String>) -> (r: (
    Vec<DryRunItem>,
    Vec<DryRunItem>,
    Ghost<(Seq<int>, Seq<int>)>,
))
    ensures
        r.2@ == split_members(records@, members_view(ms@), remove@),
        items_are(r.0@, records@, r.2@.0),
        items_are(r.1@, records@, r.2@.1),
        forall|k: int| 0 <= k < r.2@.0.len() ==> 0 <= #[trigger] r.2@.0[k] < records@.len(),
{
    let ghost mv = members_view(ms@);
    let mut rm: Vec<DryRunItem> = Vec::new();
    let mut kp: Vec<DryRunItem> = Vec::new();
    let ghost mut idx: (Seq<int>, Seq<int>) = (Seq::empty(), Seq::empty());
    let mut k: usize = 0;
    proof {
        assert(mv.take(0) =~= Seq::<Seq<char>>::empty());
    }
    while k < ms.len()
        invariant
            k <= ms@.len(),
            mv == members_view(ms@),
            idx == split_members(records@, mv.take(k as int), remove@),
            items_are(rm@, records@, idx.0),
            items_are(kp@, records@, idx.1),
            forall|q: int| 0 <= q < idx.0.len() ==> 0 <= #[trigger] idx.0[q] < records@.len(),
        decreases ms@.len() - k,
    {
        proof {
            lemma_split_step(records@, mv, remove@, k as int);
            assert(mv[k as int] == ms@[k as int]@);
        }
        match find_record_exec(records, &ms[k]) {
            None => {},
            Some(r) => {
                if selected_exec(remove, &ms[k]) {
                    rm.push(item_of(&records[r]));
                    proof {
                        idx = (idx.0.push(r as int), idx.1);
                    }
                } else {
                    kp.push(item_of(&records[r]));
                    proof {
                        idx = (idx.0, idx.1.push(r as int));
                    }
                }
            },
        }
        k = k + 1;
    }
    proof {
        assert(mv.take(ms@.len() as int) =~= mv);
    }
    (rm, kp, Ghost(idx))
}

proof fn lemma_report_prefix(
    records: Seq<DryRunFile>,
    pairs: Seq<(String, String)>,
    remove: Seq<String>,
    m: int,
    big: int,
)
    requires
        0 <= m <= big,
    ensures
        report_from(records, pairs, remove, m).0.len() <= report_from(records, pairs, remove, big).0.len(),
        report_from(records, pairs, remove, big).0.take(report_from(records, pairs, remove, m).0.len() as int)
            == report_from(records, pairs, remove, m).0,
    decreases big - m,
{
    if m < big {
        lemma_report_prefix(records, pairs, remove, m, big - 1);
        let a = report_from(records, pairs, remove, m).0;
        let b = report_from(records, pairs, remove, big - 1).0;
        let c = report_from(records, pairs, remove, big).0;
        assert(c.take(b.len() as int) =~= b);
        assert(c.take(a.len() as int) =~= b.take(a.len() as int));
    } else {
        let a = report_from(records, pairs, remove, m).0;
        assert(a.take(a.len() as int) =~= a);
    }
}

proof fn lemma_sizes_nonneg(records: Seq<DryRunFile>, idx: Seq<int>)
    ensures
        sizes_of(records, idx) >= 0,
    decreases idx.len(),
{
    if idx.len() > 0 {
        lemma_sizes_nonneg(records, idx.drop_last());
    }
}

proof fn lemma_total_prefix(records: Seq<DryRunFile>, groups: Seq<(Seq<int>, Seq<int>)>, k: int)
    requires
        0 <= k <= groups.len(),
    ensures
        0 <= total_of(records, groups.take(k)) <= total_of(records, groups),
    decreases groups.len() - k,
{
    if k < groups.len() {
        lemma_total_prefix(records, groups, k + 1);
        assert(groups.take(k + 1).drop_last() =~= groups.take(k));
        assert(groups.take(k + 1).last() == groups[k]);
        lemma_sizes_nonneg(records, groups[k].0);
        lemma_total_nonneg(records, groups.take(k));
    } else {
        assert(groups.take(k) =~= groups);
        lemma_total_nonneg(records, groups);
    }
}

proof fn lemma_total_nonneg(records: Seq<DryRunFile>, groups: Seq<(Seq<int>, Seq<int>)>)
    ensures
        total_of(records, groups) >= 0,
    decreases groups.len(),
{
    if groups.len() > 0 {
        lemma_total_nonneg(records, groups.drop_last());
        lemma_sizes_nonneg(records, groups.last().0);
    }
}

proof fn lemma_sizes_prefix(records: Seq<DryRunFile>, idx: Seq<int>, k: int)
    requires
        0 <= k <= idx.len(),
    ensures
        0 <= sizes_of(records, idx.take(k)) <= sizes_of(records, idx),
    decreases idx.len() - k,
{
    if k < idx.len() {
        lemma_sizes_prefix(records, idx, k + 1);
        assert(idx.take(k + 1).drop_last() =~= idx.take(k));
        lemma_sizes_nonneg(records, idx.take(k));
    } else {
        assert(idx.take(k) =~= idx);
        lemma_sizes_nonneg(records, idx);
    }
}

/// The groups of the report for the selected ids.
pub open spec fn report_groups(
    records: Seq<DryRunFile>,
    pairs: Seq<(String, String)>,
    remove: Seq<String>,
) -> Seq<(Seq<int>, Seq<int>)> {
    report_from(records, pairs, remove, remove.len() as int).0
}

/// The dry-run report for the ids selected for removal, given the
/// duplicate pairs and the records that can be looked up; the time comes
/// from the system clock.
pub fn export_dry_run_report(
    to_remove_ids: &Vec<String>,
    pairs: &Vec<(String, String)>,
    records: &Vec<DryRunFile>,
) -> (r: DryRunReport)
    requires
        total_of(records@, report_groups(records@, pairs@, to_remove_ids@)) <= u64::MAX,
    ensures
        ({
            let gs = report_groups(records@, pairs@, to_remove_ids@);
            &&& r.groups@.len() == gs.len()
            &&& forall|g: int|
                0 <= g < gs.len() ==> {
                    &&& items_are((#[trigger] r.groups@[g]).remove@, records@, gs[g].0)
                    &&& items_are(r.groups@[g].keep@, records@, gs[g].1)
                    &&& r.groups@[g].estimated_savings_bytes == sizes_of(records@, gs[g].0)
                }
            &&& r.total_savings_bytes == total_of(records@, gs)
            &&& exists|t: u64| r.created_at@ == decimal(t as nat)
        }),
{
    let ghost final_groups = report_groups(records@, pairs@, to_remove_ids@);
    let (keys, members) = key_groups_exec(pairs);
    let ghost kg = key_groups(pairs@);
    let mut seen: Vec<Vec<char>> = Vec::new();
    let mut groups: Vec<DryRunGroup> = Vec::new();
    let mut total: u64 = 0;
    let mut m: usize = 0;
    while m < to_remove_ids.len()
        invariant
            m <= to_remove_ids@.len(),
            keys@.len() == members@.len(),
            groups_view(keys@, members@) == kg,
            kg == key_groups(pairs@),
            final_groups == report_groups(records@, pairs@, to_remove_ids@),
            total_of(records@, final_groups) <= u64::MAX,
            ({
                let (gs, sn) = report_from(records@, pairs@, to_remove_ids@, m as int);
                &&& groups@.len() == gs.len()
                &&& forall|g: int|
                    0 <= g < gs.len() ==> {
                        &&& items_are((#[trigger] groups@[g]).remove@, records@, gs[g].0)
                        &&& items_are(groups@[g].keep@, records@, gs[g].1)
                        &&& groups@[g].estimated_savings_bytes == sizes_of(records@, gs[g].0)
                    }
                &&& total == total_of(records@, gs)
                &&& forall|x: Seq<char>| #[trigger] members_view(seen@).contains(x) == sn.contains(x)
            }),
        decreases to_remove_ids@.len() - m,
    {
        let ghost prev = report_from(records@, pairs@, to_remove_ids@, m as int);
        let id = chars_of(to_remove_ids[m].as_str());
        proof {
            lemma_report_prefix(records@, pairs@, to_remove_ids@, m + 1, to_remove_ids@.len() as int);
        }
        if !contains_chars(&seen, &id) {
            let ms = members_for_exec(&keys, &members, &id);
            let (rm, kp, Ghost(idx)) = split_exec(records, &ms, to_remove_ids);
            let ghost mv = members_view(ms@);
            let ghost added = Set::new(
                |x: Seq<char>| mv.contains(x) && find_record(records@, x) >= 0 && selected(to_remove_ids@, x),
            );
            let mut j: usize = 0;
            while j < ms.len()
                invariant
                    j <= ms@.len(),
                    mv == members_view(ms@),
                    forall|x: Seq<char>|
                        #[trigger] members_view(seen@).contains(x) == (prev.1.contains(x) || (mv.take(
                            j as int,
                        ).contains(x) && find_record(records@, x) >= 0 && selected(to_remove_ids@, x))),
                decreases ms@.len() - j,
            {
                let x = &ms[j];
                proof {
                    assert(mv[j as int] == x@);
                    assert(mv.take(j + 1) =~= mv.take(j as int).push(x@));
                }
                let keep_it = match find_record_exec(records, x) {
                    Some(_) => selected_exec(to_remove_ids, x),
                    None => false,
                };
                let ghost old_seen = members_view(seen@);
                if keep_it {
                    add_member_exec(&mut seen, x);
                }
                proof {
                    assert forall|y: Seq<char>| #[trigger] members_view(seen@).contains(y) == (old_seen.contains(y)
                        || (keep_it && y == x@)) by {
                        if keep_it && !old_seen.contains(x@) {
                            assert(members_view(seen@) == old_seen.push(x@));
                            if old_seen.push(x@).contains(y) && y != x@ {
                                let q = choose|q: int| 0 <= q < old_seen.push(x@).len() && old_seen.push(x@)[q] == y;
                                assert(old_seen[q] == y);
                            }
                            if old_seen.contains(y) {
                                let q = choose|q: int| 0 <= q < old_seen.len() && old_seen[q] == y;
                                assert(old_seen.push(x@)[q] == y);
                            }
                            assert(old_seen.push(x@)[old_seen.len() as int] == x@);
                        }
                    }
                    assert forall|y: Seq<char>| #[trigger] members_view(seen@).contains(y) == (prev.1.contains(y) || (mv.take(
                        j + 1,
                    ).contains(y) && find_record(records@, y) >= 0 && selected(to_remove_ids@, y))) by {
                        let t0 = mv.take(j as int);
                        let t1 = mv.take(j + 1);
                        if t0.contains(y) {
                            let q = choose|q: int| 0 <= q < t0.len() && t0[q] == y;
                            assert(t1[q] == y);
                        }
                        if t1.contains(y) && y != x@ {
                            let q = choose|q: int| 0 <= q < t1.len() && t1[q] == y;
                            assert(q != j);
                            assert(t0[q] == y);
                        }
                        assert(t1[j as int] == x@);
                    }
                }
                j = j + 1;
            }
            proof {
                assert(mv.take(ms@.len() as int) =~= mv);
                assert forall|x: Seq<char>| #[trigger] members_view(seen@).contains(x) == (prev.1 + added).contains(x) by {}
                let cur = report_from(records@, pairs@, to_remove_ids@, m + 1);
                assert(to_remove_ids@[m as int]@ == id@);
                assert(!prev.1.contains(id@));
            }
            if rm.len() > 0 {
                let ghost gs1 = prev.0.push(idx);
                proof {
                    assert(report_from(records@, pairs@, to_remove_ids@, m + 1).0 == gs1);
                    lemma_total_prefix(records@, final_groups, gs1.len() as int);
                    assert(final_groups.take(gs1.len() as int) == gs1);
                    assert(gs1.drop_last() =~= prev.0);
                    lemma_sizes_prefix(records@, idx.0, idx.0.len() as int);
                }
                let mut savings: u64 = 0;
                let mut q: usize = 0;
                while q < rm.len()
                    invariant
                        q <= rm@.len(),
                        items_are(rm@, records@, idx.0),
                        savings == sizes_of(records@, idx.0.take(q as int)),
                        total + sizes_of(records@, idx.0) <= u64::MAX,
                    decreases rm@.len() - q,
                {
                    proof {
                        assert(idx.0.take(q + 1).drop_last() =~= idx.0.take(q as int));
                        lemma_sizes_prefix(records@, idx.0, q + 1);
                        assert(item_is(rm@[q as int], records@[idx.0[q as int]]));
                    }
                    savings = savings + rm[q].size_bytes;
                    q = q + 1;
                }
                proof {
                    assert(idx.0.take(rm@.len() as int) =~= idx.0);
                }
                total = total + savings;
                let ghost before = groups@;
                groups.push(DryRunGroup { remove: rm, keep: kp, estimated_savings_bytes: savings });
                proof {
                    assert forall|g: int| 0 <= g < gs1.len() implies {
                        &&& items_are((#[trigger] groups@[g]).remove@, records@, gs1[g].0)
                        &&& items_are(groups@[g].keep@, records@, gs1[g].1)
                        &&& groups@[g].estimated_savings_bytes == sizes_of(records@, gs1[g].0)
                    } by {
                        if g < before.len() {
                            assert(groups@[g] == before[g]);
                        }
                    }
                }
            }
        }
        m = m + 1;
    }
    let now = unix_now();
    let created_at = crate::text::string_of(&decimal_chars(now as u128));
    DryRunReport { created_at, total_savings_bytes: total, groups }
}

} // verus!
