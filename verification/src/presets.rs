//! Named query presets of the file-selection panel: a list of
//! (name, query) pairs in which a name is looked up by its first entry.

use vstd::prelude::*;

use crate::text::{chars_of, string_of, trim_chars, trimmed};

verus! {

/// The presets as plain values.
pub open spec fn presets_view(ps: Seq<(String, String)>) -> Seq<(Seq<char>, Seq<char>)> {
    ps.map_values(|p: (String, String)| (p.0@, p.1@))
}

/// `i` is the first entry named `name`.
pub open spec fn first_named(ps: Seq<(Seq<char>, Seq<char>)>, name: Seq<char>, i: int) -> bool {
    &&& 0 <= i < ps.len()
    &&& ps[i].0 == name
    &&& forall|k: int| 0 <= k < i ==> ps[k].0 != name
}

pub open spec fn has_named(ps: Seq<(Seq<char>, Seq<char>)>, name: Seq<char>) -> bool {
    exists|i: int| first_named(ps, name, i)
}

/// The query saved under `name`: that of its first entry.
pub open spec fn preset_lookup(ps: Seq<(Seq<char>, Seq<char>)>, name: Seq<char>) -> Option<
    Seq<char>,
> {
    if has_named(ps, name) {
        Some(ps[choose|i: int| first_named(ps, name, i)].1)
    } else {
        None
    }
}

/// The presets after saving `query` under `name`: the first entry of that
/// name takes the query, or a new entry goes at the end.
pub open spec fn preset_saved(ps: Seq<(Seq<char>, Seq<char>)>, name: Seq<char>, query: Seq<char>) -> Seq<
    (Seq<char>, Seq<char>),
> {
    if has_named(ps, name) {
        ps.update(choose|i: int| first_named(ps, name, i), (name, query))
    } else {
        ps.push((name, query))
    }
}

proof fn lemma_first_named_unique(ps: Seq<(Seq<char>, Seq<char>)>, name: Seq<char>, i: int, j: int)
    requires
        first_named(ps, name, i),
        first_named(ps, name, j),
    ensures
        i == j,
{
    if i < j {
        assert(ps[i].0 != name);
    } else if j < i {
        assert(ps[j].0 != name);
    }
}

proof fn lemma_first_exists(ps: Seq<(Seq<char>, Seq<char>)>, name: Seq<char>, j: int)
    requires
        0 <= j < ps.len(),
        ps[j].0 == name,
    ensures
        has_named(ps, name),
    decreases j,
{
    if forall|k: int| 0 <= k < j ==> ps[k].0 != name {
        assert(first_named(ps, name, j));
    } else {
        let k = choose|k: int| 0 <= k < j && ps[k].0 == name;
        lemma_first_exists(ps, name, k);
    }
}

/// Saves a preset. The name and the query are trimmed first; when either is
/// then empty nothing is saved and `false` comes back.
pub fn save_preset(presets: &mut Vec<(String, String)>, name: &str, query: &str) -> (saved: bool)
    ensures
        saved == (trimmed(name@).len() > 0 && trimmed(query@).len() > 0),
        presets_view(final(presets)@) == (if saved {
            preset_saved(presets_view(old(presets)@), trimmed(name@), trimmed(query@))
        } else {
            presets_view(old(presets)@)
        }),
{
    let n = trim_chars(&chars_of(name));
    let q = trim_chars(&chars_of(query));
    if n.len() == 0 || q.len() == 0 {
        return false;
    }
    let name_s = string_of(&n);
    let query_s = string_of(&q);
    let ghost ps = presets_view(presets@);
    let mut i: usize = 0;
    while i < presets.len()
        invariant
            i <= presets@.len(),
            presets@ == old(presets)@,
            presets_view(presets@) == ps,
            name_s@ == trimmed(name@),
            query_s@ == trimmed(query@),
            trimmed(name@).len() > 0,
            trimmed(query@).len() > 0,
            forall|k: int| 0 <= k < i ==> ps[k].0 != name_s@,
        decreases presets@.len() - i,
    {
        if presets[i].0 == name_s {
            proof {
                assert(first_named(ps, name_s@, i as int));
                let c = choose|j: int| first_named(ps, name_s@, j);
                lemma_first_named_unique(ps, name_s@, i as int, c);
            }
            presets.set(i, (name_s, query_s));
            proof {
                assert(presets_view(presets@) =~= preset_saved(ps, trimmed(name@), trimmed(query@)));
            }
            return true;
        }
        i = i + 1;
    }
    proof {
        assert(!has_named(ps, name_s@));
    }
    presets.push((name_s, query_s));
    proof {
        assert(presets_view(presets@) =~= ps.push((trimmed(name@), trimmed(query@))));
    }
    true
}

/// The query saved under `name`, if any.
pub fn find_preset(presets: &Vec<(String, String)>, name: &str) -> (r: Option<String>)
    ensures
        match r {
            Some(q) => preset_lookup(presets_view(presets@), name@) == Some(q@),
            None => preset_lookup(presets_view(presets@), name@) is None,
        },
{
    let ghost ps = presets_view(presets@);
    let cs = chars_of(name);
    let name_s = string_of(&cs);
    let mut i: usize = 0;
    while i < presets.len()
        invariant
            i <= presets@.len(),
            ps == presets_view(presets@),
            name_s@ == name@,
            forall|k: int| 0 <= k < i ==> ps[k].0 != name_s@,
        decreases presets@.len() - i,
    {
        if presets[i].0 == name_s {
            proof {
                assert(first_named(ps, name@, i as int));
                let c = choose|j: int| first_named(ps, name@, j);
                lemma_first_named_unique(ps, name@, i as int, c);
            }
            return Some(presets[i].1.clone());
        }
        i = i + 1;
    }
    None
}

/// After a query is saved under a name, looking the name up gives that
/// query, and looking up any other name gives what it gave before.
pub proof fn lemma_lookup_after_save(
    ps: Seq<(Seq<char>, Seq<char>)>,
    name: Seq<char>,
    query: Seq<char>,
    other: Seq<char>,
)
    ensures
        preset_lookup(preset_saved(ps, name, query), name) == Some(query),
        other != name ==> preset_lookup(preset_saved(ps, name, query), other) == preset_lookup(
            ps,
            other,
        ),
{
    let s = preset_saved(ps, name, query);
    let n = ps.len() as int;
    if has_named(ps, name) {
        let c = choose|i: int| first_named(ps, name, i);
        assert(first_named(s, name, c)) by {
            assert forall|k: int| 0 <= k < c implies s[k].0 != name by {
                assert(s[k] == ps[k]);
            }
        }
        let d = choose|i: int| first_named(s, name, i);
        lemma_first_named_unique(s, name, c, d);
        if other != name {
            assert forall|i: int| first_named(s, other, i) <==> first_named(ps, other, i) by {
                if 0 <= i < n && i != c {
                    assert(s[i] == ps[i]);
                    assert forall|k: int| 0 <= k < i && k != c implies s[k] == ps[k] by {}
                }
            }
            if has_named(ps, other) {
                let e = choose|i: int| first_named(ps, other, i);
                let f = choose|i: int| first_named(s, other, i);
                lemma_first_named_unique(s, other, e, f);
            }
        }
    } else {
        assert forall|k: int| 0 <= k < n implies ps[k].0 != name by {
            if ps[k].0 == name {
                lemma_first_exists(ps, name, k);
            }
        }
        assert(first_named(s, name, n)) by {
            assert forall|k: int| 0 <= k < n implies s[k].0 != name by {
                assert(s[k] == ps[k]);
            }
        }
        let d = choose|i: int| first_named(s, name, i);
        lemma_first_named_unique(s, name, n, d);
        if other != name {
            assert forall|i: int| first_named(s, other, i) <==> first_named(ps, other, i) by {
                if 0 <= i < n {
                    assert(s[i] == ps[i]);
                    assert forall|k: int| 0 <= k < i implies s[k] == ps[k] by {}
                }
            }
            if has_named(ps, other) {
                let e = choose|i: int| first_named(ps, other, i);
                let f = choose|i: int| first_named(s, other, i);
                lemma_first_named_unique(s, other, e, f);
            }
        }
    }
}

} // verus!
