//! Figures and filters of the command-line reports over the database: the
//! pairs a listing keeps, the space that duplicates take twice, and the
//! records a clean-up removes.

use vstd::prelude::*;

use crate::db::{lowercase, method_db_name, to_lowercase, FileFlags, MatchMethod};
use crate::selection::{contains_str, str_contains};
use crate::text::{chars_of, trim_chars, trimmed};

verus! {

// ─── Sizes ───────────────────────────────────────────────────────────────────

/// A file of the database with its size.
pub struct SizedFile {
    pub id: String,
    pub size_bytes: u64,
}

/// The two files of a duplicate pair, by id.
pub struct PairFiles {
    pub file_a: String,
    pub file_b: String,
}

/// The size of the first file with the given id; 0 when no file has it.
pub open spec fn size_of_id(files: Seq<SizedFile>, id: Seq<char>) -> int
    decreases files.len(),
{
    if files.len() == 0 {
        0
    } else if files[0].id@ == id {
        files[0].size_bytes as int
    } else {
        size_of_id(files.drop_first(), id)
    }
}

/// The space a pair takes twice: the smaller of its two sizes, when both
/// files are known and neither is empty; 0 otherwise.
pub open spec fn pair_waste(files: Seq<SizedFile>, p: PairFiles) -> int {
    let a = size_of_id(files, p.file_a@);
    let b = size_of_id(files, p.file_b@);
    if a > 0 && b > 0 {
        if a < b {
            a
        } else {
            b
        }
    } else {
        0
    }
}

/// The space all pairs take twice.
pub open spec fn waste_total(files: Seq<SizedFile>, pairs: Seq<PairFiles>) -> int
    decreases pairs.len(),
{
    if pairs.len() == 0 {
        0
    } else {
        waste_total(files, pairs.drop_last()) + pair_waste(files, pairs.last())
    }
}

/// The sizes of all files, summed.
pub open spec fn size_total(files: Seq<SizedFile>) -> int
    decreases files.len(),
{
    if files.len() == 0 {
        0
    } else {
        size_total(files.drop_last()) + files.last().size_bytes
    }
}

proof fn lemma_waste_prefix(files: Seq<SizedFile>, pairs: Seq<PairFiles>, i: int)
    requires
        0 <= i <= pairs.len(),
    ensures
        waste_total(files, pairs.take(i)) <= waste_total(files, pairs),
    decreases pairs.len(),
{
    if i < pairs.len() {
        lemma_waste_prefix(files, pairs.drop_last(), i);
        assert(pairs.drop_last().take(i) =~= pairs.take(i));
    } else {
        assert(pairs.take(i) =~= pairs);
    }
}

proof fn lemma_size_prefix(files: Seq<SizedFile>, i: int)
    requires
        0 <= i <= files.len(),
    ensures
        size_total(files.take(i)) <= size_total(files),
    decreases files.len(),
{
    if i < files.len() {
        lemma_size_prefix(files.drop_last(), i);
        assert(files.drop_last().take(i) =~= files.take(i));
    } else {
        assert(files.take(i) =~= files);
    }
}

fn size_by_id(files: &Vec<SizedFile>, id: &String) -> (r: u64)
    ensures
        r == size_of_id(files@, id@),
{
    let mut j: usize = 0;
    proof {
        assert(files@.skip(0) =~= files@);
    }
    while j < files.len()
        invariant
            j <= files@.len(),
            size_of_id(files@, id@) == size_of_id(files@.skip(j as int), id@),
        decreases files@.len() - j,
    {
        proof {
            assert(files@.skip(j as int).drop_first() =~= files@.skip(j as int + 1));
            assert(files@.skip(j as int)[0] == files@[j as int]);
        }
        if files[j].id == *id {
            return files[j].size_bytes;
        }
        j = j + 1;
    }
    proof {
        assert(files@.skip(j as int).len() == 0);
    }
    0
}

/// The sizes of all files, summed.
pub fn total_size(files: &Vec<SizedFile>) -> (r: u64)
    requires
        size_total(files@) <= u64::MAX,
    ensures
        r == size_total(files@),
{
    let mut total: u64 = 0;
    let mut i: usize = 0;
    while i < files.len()
        invariant
            i <= files@.len(),
            total == size_total(files@.take(i as int)),
            size_total(files@) <= u64::MAX,
        decreases files@.len() - i,
    {
        proof {
            assert(files@.take(i as int + 1).drop_last() =~= files@.take(i as int));
            lemma_size_prefix(files@, i as int + 1);
        }
        total = total + files[i].size_bytes;
        i = i + 1;
    }
    proof {
        assert(files@.take(i as int) =~= files@);
    }
    total
}

/// The estimated space that duplicates waste: for each pair, the smaller of
/// its two files, when both are known and neither is empty.
pub fn estimated_waste(files: &Vec<SizedFile>, pairs: &Vec<PairFiles>) -> (r: u64)
    requires
        waste_total(files@, pairs@) <= u64::MAX,
    ensures
        r == waste_total(files@, pairs@),
{
    let mut total: u64 = 0;
    let mut i: usize = 0;
    while i < pairs.len()
        invariant
            i <= pairs@.len(),
            total == waste_total(files@, pairs@.take(i as int)),
            waste_total(files@, pairs@) <= u64::MAX,
        decreases pairs@.len() - i,
    {
        let a = size_by_id(files, &pairs[i].file_a);
        let b = size_by_id(files, &pairs[i].file_b);
        proof {
            assert(pairs@.take(i as int + 1).drop_last() =~= pairs@.take(i as int));
            assert(pairs@.take(i as int + 1).last() == pairs@[i as int]);
            lemma_waste_prefix(files@, pairs@, i as int + 1);
        }
        if a > 0 && b > 0 {
            let m = if a < b {
                a
            } else {
                b
            };
            total = total + m;
        }
        i = i + 1;
    }
    proof {
        assert(pairs@.take(i as int) =~= pairs@);
    }
    total
}

// ─── Listing ─────────────────────────────────────────────────────────────────

/// A duplicate pair as a listing sees it. `similarity_bits` holds the bits
/// of the (non-negative) similarity, which order as the values do.
pub struct ListedPair {
    pub similarity_bits: u32,
    pub method: MatchMethod,
}

pub open spec fn opt_str_view(s: Option<&str>) -> Option<Seq<char>> {
    match s {
        Some(v) => Some(v@),
        None => None,
    }
}

/// Whether a listing keeps a pair: its similarity is at least the least one
/// asked for (`min_bits`, 0 to keep all), and the lowercase name of its
/// method contains the lowercase method filter, if one is given.
pub open spec fn listed(p: ListedPair, min_bits: u32, filter: Option<Seq<char>>) -> bool {
    &&& (min_bits == 0 || p.similarity_bits >= min_bits)
    &&& match filter {
        Some(f) => contains_str(lowercase(method_db_name(p.method)), lowercase(f)),
        None => true,
    }
}

/// The positions of the pairs a listing keeps, in order.
pub open spec fn listed_positions(ps: Seq<ListedPair>, min_bits: u32, filter: Option<Seq<char>>) -> Seq<
    usize,
>
    decreases ps.len(),
{
    if ps.len() == 0 {
        Seq::empty()
    } else {
        let r = listed_positions(ps.drop_last(), min_bits, filter);
        if listed(ps.last(), min_bits, filter) {
            r.push((ps.len() - 1) as usize)
        } else {
            r
        }
    }
}

/// The positions of the pairs that a listing keeps (see [`listed`]).
pub fn listed_pairs(pairs: &Vec<ListedPair>, min_bits: u32, method: Option<&str>) -> (kept: Vec<
    usize,
>)
    ensures
        kept@ == listed_positions(pairs@, min_bits, opt_str_view(method)),
{
    let filter = match method {
        Some(m) => Some(to_lowercase(m)),
        None => None,
    };
    let ghost fv = opt_str_view(method);
    let mut kept: Vec<usize> = Vec::new();
    let mut i: usize = 0;
    while i < pairs.len()
        invariant
            i <= pairs@.len(),
            fv == opt_str_view(method),
            match filter {
                Some(f) => fv is Some && f@ == lowercase(fv->0),
                None => fv is None,
            },
            kept@ == listed_positions(pairs@.take(i as int), min_bits, fv),
        decreases pairs@.len() - i,
    {
        let p = &pairs[i];
        let sim_ok = min_bits == 0 || p.similarity_bits >= min_bits;
        let method_ok = match &filter {
            Some(f) => {
                let name = to_lowercase(p.method.db_name());
                str_contains(name.as_str(), f.as_str())
            },
            None => true,
        };
        proof {
            let t = pairs@.take(i as int + 1);
            assert(t.drop_last() =~= pairs@.take(i as int));
            assert(t.last() == pairs@[i as int]);
        }
        if sim_ok && method_ok {
            kept.push(i);
        }
        i = i + 1;
    }
    proof {
        assert(pairs@.take(i as int) =~= pairs@);
    }
    kept
}

// ─── Clean-up ────────────────────────────────────────────────────────────────

/// Whether a clean-up removes a record: its file is gone, or the scan
/// flagged a metadata, thumbnail or scan error for it.
pub open spec fn needs_cleanup(on_disk: bool, flags: Option<FileFlags>) -> bool {
    !on_disk || match flags {
        Some(f) => f.metadata_error || f.thumbnail_error || f.scan_error is Some,
        None => false,
    }
}

/// The positions of the records a clean-up removes, in order; `on_disk[i]`
/// tells whether the file of record `i` is still on disk.
pub fn cleanup_targets(on_disk: &Vec<bool>, flags: &Vec<Option<FileFlags>>) -> (r: Vec<usize>)
    requires
        on_disk@.len() == flags@.len(),
    ensures
        forall|k: int| 0 <= k < r@.len() ==> r@[k] < on_disk@.len(),
        forall|k: int, l: int| 0 <= k < l < r@.len() ==> r@[k] < r@[l],
        forall|i: int|
            0 <= i < on_disk@.len() ==> (r@.contains(i as usize) <==> needs_cleanup(
                on_disk@[i],
                flags@[i],
            )),
{
    let mut r: Vec<usize> = Vec::new();
    let mut i: usize = 0;
    while i < on_disk.len()
        invariant
            i <= on_disk@.len() == flags@.len(),
            forall|k: int| 0 <= k < r@.len() ==> r@[k] < i,
            forall|k: int, l: int| 0 <= k < l < r@.len() ==> r@[k] < r@[l],
            forall|j: int| 0 <= j < i ==> (r@.contains(j as usize) <==> needs_cleanup(on_disk@[j], flags@[j])),
        decreases on_disk@.len() - i,
    {
        let errored = match &flags[i] {
            Some(f) => f.metadata_error || f.thumbnail_error || f.scan_error.is_some(),
            None => false,
        };
        let ghost before = r@;
        let remove = !on_disk[i] || errored;
        if remove {
            r.push(i);
        }
        proof {
            assert forall|j: int| 0 <= j < i + 1 implies (r@.contains(j as usize) <==> needs_cleanup(
                on_disk@[j],
                flags@[j],
            )) by {
                if j < i {
                    if before.contains(j as usize) {
                        let k = choose|k: int| 0 <= k < before.len() && before[k] == j as usize;
                        assert(r@[k] == j as usize);
                    }
                    if r@.contains(j as usize) {
                        let k = choose|k: int| 0 <= k < r@.len() && r@[k] == j as usize;
                        assert(k < before.len());
                        assert(before[k] == j as usize);
                    }
                } else {
                    if needs_cleanup(on_disk@[j], flags@[j]) {
                        assert(r@[r@.len() - 1] == i);
                    } else if r@.contains(j as usize) {
                        let k = choose|k: int| 0 <= k < r@.len() && r@[k] == j as usize;
                        assert(r@ == before);
                        assert(r@[k] < i);
                    }
                }
            }
        }
        i = i + 1;
    }
    r
}

/// Whether the answer to the clear-all prompt confirms it: `yes` in any
/// case, once trimmed.
pub open spec fn confirms_clear(answer: Seq<char>) -> bool {
    lowercase(trimmed(answer)) == "yes"@
}

/// Whether the answer to the clear-all prompt confirms it.
pub fn clear_confirmed(answer: &str) -> (r: bool)
    ensures
        r == confirms_clear(answer@),
{
    let t = trim_chars(&chars_of(answer));
    let ts = crate::text::string_of(&t);
    let l = to_lowercase(ts.as_str());
    let lc = chars_of(l.as_str());
    crate::text::eq_str(&lc, "yes")
}

} // verus!
