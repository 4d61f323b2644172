//! What the results view shows: which duplicate groups pass its filters,
//! the choices of its toolbar, and the summary at the head of each card.

use vstd::prelude::*;

use crate::db::{lowercase, method_db_name, to_lowercase, MatchMethod};
use crate::selection::{contains_str, str_contains};
use crate::text::{chars_of, eq_str};
use crate::ui_state::ResultSort;

verus! {

// ─── Toolbar choices ─────────────────────────────────────────────────────────

/// The order an option value of the sort menu selects: `"sim_asc"`,
/// `"size_desc"`, and anything else for most similar first.
pub open spec fn sort_of_choice(value: Seq<char>) -> ResultSort {
    if value == "sim_asc"@ {
        ResultSort::SimilarityAsc
    } else if value == "size_desc"@ {
        ResultSort::SizeDesc
    } else {
        ResultSort::SimilarityDesc
    }
}

/// The order selected by an option value of the sort menu.
pub fn sort_from_choice(value: &str) -> (r: ResultSort)
    ensures
        r == sort_of_choice(value@),
{
    let cs = chars_of(value);
    if eq_str(&cs, "sim_asc") {
        ResultSort::SimilarityAsc
    } else if eq_str(&cs, "size_desc") {
        ResultSort::SizeDesc
    } else {
        ResultSort::SimilarityDesc
    }
}

/// The method filter an option value of the method menu selects: none for
/// `"all"`, else the value itself.
pub fn method_filter_from_choice(value: &str) -> (r: Option<String>)
    ensures
        match r {
            Some(f) => value@ != "all"@ && f@ == value@,
            None => value@ == "all"@,
        },
{
    let cs = chars_of(value);
    if eq_str(&cs, "all") {
        None
    } else {
        Some(crate::text::string_of(&cs))
    }
}

/// Which kinds of files a group must hold to be shown.
#[derive(Debug, Clone, Copy, PartialEq, Eq, Structural)]
pub enum TypeFilter {
    All,
    /// Groups with at least one video.
    Videos,
    /// Groups with at least one image.
    Images,
}

pub open spec fn type_filter_of_choice(value: Seq<char>) -> TypeFilter {
    if value == "videos"@ {
        TypeFilter::Videos
    } else if value == "images"@ {
        TypeFilter::Images
    } else {
        TypeFilter::All
    }
}

impl TypeFilter {
    /// The filter selected by an option value of the type menu: `"videos"`,
    /// `"images"`, and anything else for all groups.
    pub fn from_choice(value: &str) -> (r: Self)
        ensures
            r == type_filter_of_choice(value@),
    {
        let cs = chars_of(value);
        if eq_str(&cs, "videos") {
            TypeFilter::Videos
        } else if eq_str(&cs, "images") {
            TypeFilter::Images
        } else {
            TypeFilter::All
        }
    }
}

// ─── Group filter ────────────────────────────────────────────────────────────

/// A file of a duplicate group as the filters see it.
pub struct CardFile {
    pub path: String,
    pub is_image: bool,
}

/// A duplicate group as the filters see it. `max_similarity_bits` holds the
/// bits of its (non-negative) best similarity, which order as the values do.
pub struct CardGroup {
    pub files: Vec<CardFile>,
    pub max_similarity_bits: u32,
}

/// Some file's lowercase path contains the lowercase search text.
pub open spec fn path_hit(files: Seq<CardFile>, search: Seq<char>) -> bool {
    exists|i: int|
        0 <= i < files.len() && contains_str(
            lowercase(#[trigger] files[i].path@),
            lowercase(search),
        )
}

pub open spec fn has_video(files: Seq<CardFile>) -> bool {
    exists|i: int| 0 <= i < files.len() && !(#[trigger] files[i].is_image)
}

pub open spec fn has_image(files: Seq<CardFile>) -> bool {
    exists|i: int| 0 <= i < files.len() && #[trigger] files[i].is_image
}

/// Whether the results view shows a group: an empty search matches all,
/// else some path must contain it (case aside); the best similarity must
/// reach the least one asked for (`min_bits`, 0 for no minimum); and the
/// group must hold a file of the kind asked for.
pub open spec fn group_shown(g: CardGroup, search: Seq<char>, min_bits: u32, types: TypeFilter) -> bool {
    &&& (search.len() == 0 || path_hit(g.files@, search))
    &&& (min_bits == 0 || g.max_similarity_bits >= min_bits)
    &&& match types {
        TypeFilter::All => true,
        TypeFilter::Videos => has_video(g.files@),
        TypeFilter::Images => has_image(g.files@),
    }
}

/// The positions of the shown groups, in order.
pub open spec fn shown_positions(gs: Seq<CardGroup>, search: Seq<char>, min_bits: u32, types: TypeFilter) -> Seq<
    usize,
>
    decreases gs.len(),
{
    if gs.len() == 0 {
        Seq::empty()
    } else {
        let r = shown_positions(gs.drop_last(), search, min_bits, types);
        if group_shown(gs.last(), search, min_bits, types) {
            r.push((gs.len() - 1) as usize)
        } else {
            r
        }
    }
}

fn any_path_hit(files: &Vec<CardFile>, needle: &String, search: Ghost<Seq<char>>) -> (r: bool)
    requires
        needle@ == lowercase(search@),
    ensures
        r == path_hit(files@, search@),
{
    let mut i: usize = 0;
    while i < files.len()
        invariant
            i <= files@.len(),
            needle@ == lowercase(search@),
            forall|k: int| 0 <= k < i ==> !contains_str(lowercase(#[trigger] files@[k].path@), lowercase(search@)),
        decreases files@.len() - i,
    {
        let p = to_lowercase(files[i].path.as_str());
        if str_contains(p.as_str(), needle.as_str()) {
            return true;
        }
        i = i + 1;
    }
    false
}

fn any_of_kind(files: &Vec<CardFile>, image: bool) -> (r: bool)
    ensures
        r == (if image {
            has_image(files@)
        } else {
            has_video(files@)
        }),
{
    let mut i: usize = 0;
    while i < files.len()
        invariant
            i <= files@.len(),
            forall|k: int| 0 <= k < i ==> (#[trigger] files@[k].is_image) != image,
        decreases files@.len() - i,
    {
        if files[i].is_image == image {
            return true;
        }
        i = i + 1;
    }
    false
}

/// The positions of the groups that the results view shows (see
/// [`group_shown`]).
pub fn shown_groups(groups: &Vec<CardGroup>, search: &str, min_bits: u32, types: TypeFilter) -> (r: Vec<
    usize,
>)
    ensures
        r@ == shown_positions(groups@, search@, min_bits, types),
{
    let needle = to_lowercase(search);
    let empty_search = chars_of(search).len() == 0;
    let mut r: Vec<usize> = Vec::new();
    let mut i: usize = 0;
    while i < groups.len()
        invariant
            i <= groups@.len(),
            needle@ == lowercase(search@),
            empty_search == (search@.len() == 0),
            r@ == shown_positions(groups@.take(i as int), search@, min_bits, types),
        decreases groups@.len() - i,
    {
        let g = &groups[i];
        let search_ok = empty_search || any_path_hit(&g.files, &needle, Ghost(search@));
        let sim_ok = min_bits == 0 || g.max_similarity_bits >= min_bits;
        let type_ok = match types {
            TypeFilter::All => true,
            TypeFilter::Videos => any_of_kind(&g.files, false),
            TypeFilter::Images => any_of_kind(&g.files, true),
        };
        proof {
            let t = groups@.take(i as int + 1);
            assert(t.drop_last() =~= groups@.take(i as int));
            assert(t.last() == groups@[i as int]);
        }
        if search_ok && sim_ok && type_ok {
            r.push(i);
        }
        i = i + 1;
    }
    proof {
        assert(groups@.take(i as int) =~= groups@);
    }
    r
}

/// The number of files in the listed groups.
pub open spec fn files_in(gs: Seq<CardGroup>, shown: Seq<usize>) -> int
    decreases shown.len(),
{
    if shown.len() == 0 {
        0
    } else {
        files_in(gs, shown.drop_last()) + gs[shown.last() as int].files@.len()
    }
}

/// The number of files in the listed groups.
pub fn total_files(groups: &Vec<CardGroup>, shown: &Vec<usize>) -> (r: usize)
    requires
        forall|k: int| 0 <= k < shown@.len() ==> shown@[k] < groups@.len(),
        files_in(groups@, shown@) <= usize::MAX,
    ensures
        r == files_in(groups@, shown@),
{
    let mut total: usize = 0;
    let mut k: usize = 0;
    while k < shown.len()
        invariant
            k <= shown@.len(),
            forall|j: int| 0 <= j < shown@.len() ==> shown@[j] < groups@.len(),
            files_in(groups@, shown@) <= usize::MAX,
            total == files_in(groups@, shown@.take(k as int)),
        decreases shown@.len() - k,
    {
        proof {
            let t = shown@.take(k as int + 1);
            assert(t.drop_last() =~= shown@.take(k as int));
            lemma_files_in_prefix(groups@, shown@, k as int + 1);
        }
        total = total + groups[shown[k]].files.len();
        k = k + 1;
    }
    proof {
        assert(shown@.take(k as int) =~= shown@);
    }
    total
}

proof fn lemma_files_in_prefix(gs: Seq<CardGroup>, shown: Seq<usize>, i: int)
    requires
        0 <= i <= shown.len(),
    ensures
        files_in(gs, shown.take(i)) <= files_in(gs, shown),
    decreases shown.len(),
{
    if i < shown.len() {
        lemma_files_in_prefix(gs, shown.drop_last(), i);
        assert(shown.drop_last().take(i) =~= shown.take(i));
    } else {
        assert(shown.take(i) =~= shown);
    }
}

// ─── Card head ───────────────────────────────────────────────────────────────

/// An edge of a group as its card sees it. `similarity_bits` holds the bits
/// of the (non-negative) similarity, which order as the values do.
pub struct CardEdge {
    pub similarity_bits: u32,
    pub method: MatchMethod,
    pub mirrored: bool,
}

/// What heads a card: its best edge, the methods of its edges without
/// repeats, and whether some edge is mirrored.
pub struct CardSummary {
    pub best_edge: usize,
    pub methods: Vec<MatchMethod>,
    pub mirrored: bool,
}

/// `i` is the best edge: none is more similar, and none after it is as
/// similar (the last of the most similar).
pub open spec fn best_edge_at(es: Seq<CardEdge>, i: int) -> bool {
    &&& 0 <= i < es.len()
    &&& forall|j: int| 0 <= j < es.len() ==> es[j].similarity_bits <= es[i].similarity_bits
    &&& forall|j: int| i < j < es.len() ==> es[j].similarity_bits < es[i].similarity_bits
}

/// The methods of the edges, each once, in the order they first appear.
pub open spec fn distinct_methods(es: Seq<CardEdge>) -> Seq<MatchMethod>
    decreases es.len(),
{
    if es.len() == 0 {
        Seq::empty()
    } else {
        let r = distinct_methods(es.drop_last());
        if r.contains(es.last().method) {
            r
        } else {
            r.push(es.last().method)
        }
    }
}

pub open spec fn any_mirrored(es: Seq<CardEdge>) -> bool {
    exists|i: int| 0 <= i < es.len() && #[trigger] es[i].mirrored
}

/// The head of a group's card. A group without edges has no card, nor has
/// one whose best edge was found by another method than the method filter
/// (a method's stored name) asks for.
pub fn card_summary(edges: &Vec<CardEdge>, method_filter: Option<&str>) -> (r: Option<CardSummary>)
    ensures
        match r {
            Some(s) => {
                &&& best_edge_at(edges@, s.best_edge as int)
                &&& s.methods@ == distinct_methods(edges@)
                &&& s.mirrored == any_mirrored(edges@)
                &&& match method_filter {
                    Some(f) => method_db_name(edges@[s.best_edge as int].method) == f@,
                    None => true,
                }
            },
            None => edges@.len() == 0 || match method_filter {
                Some(f) => forall|i: int|
                    best_edge_at(edges@, i) ==> method_db_name(edges@[i].method) != f@,
                None => false,
            },
        },
{
    if edges.len() == 0 {
        return None;
    }
    let mut best: usize = 0;
    let mut i: usize = 1;
    while i < edges.len()
        invariant
            1 <= i <= edges@.len(),
            best < i,
            forall|j: int| 0 <= j < i ==> edges@[j].similarity_bits <= edges@[best as int].similarity_bits,
            forall|j: int| best < j < i ==> edges@[j].similarity_bits < edges@[best as int].similarity_bits,
        decreases edges@.len() - i,
    {
        if edges[i].similarity_bits >= edges[best].similarity_bits {
            best = i;
        }
        i = i + 1;
    }
    assert(best_edge_at(edges@, best as int));
    if let Some(f) = method_filter {
        let name = edges[best].method.db_name();
        let nc = chars_of(name);
        let fc = chars_of(f);
        if !crate::text::chars_equal(&nc, &fc) {
            proof {
                assert forall|i: int| best_edge_at(edges@, i) implies method_db_name(edges@[i].method) != f@ by {
                    if i < best {
                        assert(edges@[best as int].similarity_bits < edges@[i].similarity_bits);
                    } else if i > best {
                        assert(edges@[i].similarity_bits < edges@[best as int].similarity_bits);
                    }
                }
            }
            return None;
        }
    }
    let mut methods: Vec<MatchMethod> = Vec::new();
    let mut mirrored = false;
    let mut k: usize = 0;
    while k < edges.len()
        invariant
            k <= edges@.len(),
            methods@ == distinct_methods(edges@.take(k as int)),
            mirrored == any_mirrored(edges@.take(k as int)),
        decreases edges@.len() - k,
    {
        let m = edges[k].method;
        let mut seen = false;
        let mut j: usize = 0;
        while j < methods.len()
            invariant
                j <= methods@.len(),
                seen == methods@.take(j as int).contains(m),
            decreases methods@.len() - j,
        {
            let same = methods[j] == m;
            proof {
                let a = methods@.take(j as int);
                let b = methods@.take(j as int + 1);
                assert(b =~= a.push(methods@[j as int]));
                if a.contains(m) {
                    let w = choose|w: int| 0 <= w < a.len() && a[w] == m;
                    assert(b[w] == m);
                }
                if same {
                    assert(b[j as int] == m);
                }
                if b.contains(m) {
                    let w = choose|w: int| 0 <= w < b.len() && b[w] == m;
                    if w < j {
                        assert(a[w] == m);
                    }
                }
            }
            if same {
                seen = true;
            }
            j = j + 1;
        }
        proof {
            assert(methods@.take(j as int) =~= methods@);
            let t = edges@.take(k as int + 1);
            assert(t.drop_last() =~= edges@.take(k as int));
            assert(t.last() == edges@[k as int]);
            if edges@[k as int].mirrored {
                assert(t[k as int].mirrored);
            }
            if any_mirrored(t) {
                let w = choose|w: int| 0 <= w < t.len() && #[trigger] t[w].mirrored;
                if w < k {
                    assert(edges@.take(k as int)[w].mirrored);
                }
            }
            if any_mirrored(edges@.take(k as int)) {
                let w = choose|w: int| 0 <= w < k && #[trigger] edges@.take(k as int)[w].mirrored;
                assert(t[w].mirrored);
            }
        }
        if !seen {
            methods.push(m);
        }
        if edges[k].mirrored {
            mirrored = true;
        }
        k = k + 1;
    }
    proof {
        assert(edges@.take(k as int) =~= edges@);
    }
    Some(CardSummary { best_edge: best, methods, mirrored })
}

} // verus!
