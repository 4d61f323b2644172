//! Relocating moved files: the preview rows that map a recorded path to a
//! new one, either by replacing a path prefix or by finding the file again
//! among the files on disk (same size, then modification time, then
//! duration).

use crate::selection::starts_with;
use crate::text::{chars_of, decimal, decimal_chars, push_all, string_of};
use vstd::prelude::*;

verus! {

/// A recorded file that may have moved.
pub struct RelocateFile {
    pub id: String,
    pub path: String,
    pub size_bytes: u64,
    /// When the file was scanned (seconds since the epoch); stands in for
    /// its modification time.
    pub scanned_at: u64,
}

/// One proposed path update.
pub struct RelocateRow {
    pub old_path: String,
    pub new_path: Option<String>,
    pub selected: bool,
    pub confidence: String,
    pub note: String,
    pub file_id: String,
}

pub open spec fn opt_view(s: Option<String>) -> Option<Seq<char>> {
    match s {
        Some(t) => Some(t@),
        None => None,
    }
}

/// The row for `f` holds exactly these values.
pub open spec fn row_is(
    row: RelocateRow,
    f: RelocateFile,
    new_path: Option<Seq<char>>,
    selected: bool,
    confidence: Seq<char>,
    note: Seq<char>,
) -> bool {
    &&& row.old_path@ == f.path@
    &&& opt_view(row.new_path) == new_path
    &&& row.selected == selected
    &&& row.confidence@ == confidence
    &&& row.note@ == note
    &&& row.file_id@ == f.id@
}

fn make_row(
    f: &RelocateFile,
    new_path: Option<String>,
    selected: bool,
    confidence: &str,
    note: String,
) -> (row: RelocateRow)
    ensures
        row_is(row, *f, opt_view(new_path), selected, confidence@, note@),
{
    RelocateRow {
        old_path: f.path.clone(),
        new_path,
        selected,
        confidence: confidence.to_owned(),
        note,
        file_id: f.id.clone(),
    }
}

// ─── Prefix replacement ──────────────────────────────────────────────────────

/// `s` without its trailing `/` characters.
pub open spec fn trim_slashes(s: Seq<char>) -> Seq<char>
    decreases s.len(),
{
    if s.len() > 0 && s.last() == '/' {
        trim_slashes(s.drop_last())
    } else {
        s
    }
}

/// The positions of the files whose path starts with `prefix`.
pub open spec fn under_prefix(files: Seq<RelocateFile>, prefix: Seq<char>) -> Seq<usize>
    decreases files.len(),
{
    if files.len() == 0 {
        Seq::empty()
    } else {
        let r = under_prefix(files.drop_last(), prefix);
        if starts_with(files.last().path@, prefix) {
            r.push((files.len() - 1) as usize)
        } else {
            r
        }
    }
}

/// The path of `f` with the prefix `old` replaced by `new`.
pub open spec fn moved_path(path: Seq<char>, old: Seq<char>, new: Seq<char>) -> Seq<char> {
    new + path.skip(old.len() as int)
}

fn trim_slashes_exec(s: &str) -> (r: Vec<char>)
    ensures
        r@ == trim_slashes(s@),
{
    let mut cs = chars_of(s);
    let ghost orig = cs@;
    while cs.len() > 0 && cs[cs.len() - 1] == '/'
        invariant
            trim_slashes(cs@) == trim_slashes(orig),
        decreases cs@.len(),
    {
        let ghost before = cs@;
        cs.pop();
        proof {
            assert(cs@ =~= before.drop_last());
        }
    }
    cs
}

fn starts_with_chars(t: &Vec<char>, s: &Vec<char>) -> (r: bool)
    ensures
        r == starts_with(t@, s@),
{
    if s.len() > t.len() {
        return false;
    }
    let mut k: usize = 0;
    while k < s.len()
        invariant
            k <= s@.len() <= t@.len(),
            forall|q: int| 0 <= q < k ==> t@[q] == s@[q],
        decreases s@.len() - k,
    {
        if t[k] != s[k] {
            assert(t@.take(s@.len() as int)[k as int] != s@[k as int]);
            return false;
        }
        k = k + 1;
    }
    assert(t@.take(s@.len() as int) =~= s@);
    true
}

/// Mode A of the relocation preview: every file whose path starts with
/// `old_prefix` (trailing `/` ignored) gets a row proposing the same path
/// under `new_prefix`. Both prefixes must be filled in.
pub fn build_prefix_preview(files: &Vec<RelocateFile>, old_prefix: &str, new_prefix: &str) -> (r:
    Result<Vec<RelocateRow>, String>)
    ensures
        match r {
            Err(e) => (old_prefix@.len() == 0 || new_prefix@.len() == 0) && e@
                == "Both prefix fields must be filled in."@,
            Ok(rows) => {
                let old = trim_slashes(old_prefix@);
                let new = trim_slashes(new_prefix@);
                let pos = under_prefix(files@, old);
                &&& old_prefix@.len() > 0 && new_prefix@.len() > 0
                &&& rows@.len() == pos.len()
                &&& forall|k: int|
                    0 <= k < rows@.len() ==> row_is(
                        #[trigger] rows@[k],
                        files@[pos[k] as int],
                        Some(moved_path(files@[pos[k] as int].path@, old, new)),
                        true,
                        "Prefix"@,
                        "Prefix replace"@,
                    )
            },
        },
{
    if old_prefix.is_empty() || new_prefix.is_empty() {
        return Err("Both prefix fields must be filled in.".to_owned());
    }
    let old = trim_slashes_exec(old_prefix);
    let new = trim_slashes_exec(new_prefix);
    let ghost pos_all = under_prefix(files@, old@);
    let mut rows: Vec<RelocateRow> = Vec::new();
    let mut i: usize = 0;
    while i < files.len()
        invariant
            i <= files@.len(),
            ({
                let pos = under_prefix(files@.take(i as int), old@);
                &&& rows@.len() == pos.len()
                &&& forall|s: int| 0 <= s < pos.len() ==> pos[s] < i
                &&& forall|k: int|
                    0 <= k < rows@.len() ==> row_is(
                        #[trigger] rows@[k],
                        files@[pos[k] as int],
                        Some(moved_path(files@[pos[k] as int].path@, old@, new@)),
                        true,
                        "Prefix"@,
                        "Prefix replace"@,
                    )
            }),
        decreases files@.len() - i,
    {
        let ghost prev = under_prefix(files@.take(i as int), old@);
        proof {
            assert(files@.take(i + 1).drop_last() =~= files@.take(i as int));
            assert(files@.take(i + 1).last() == files@[i as int]);
        }
        let f = &files[i];
        let path = chars_of(f.path.as_str());
        if starts_with_chars(&path, &old) {
            let mut np = string_of(&new);
            let mut suffix: Vec<char> = Vec::new();
            let mut k: usize = old.len();
            while k < path.len()
                invariant
                    old@.len() <= k <= path@.len(),
                    suffix@ == path@.subrange(old@.len() as int, k as int),
                decreases path@.len() - k,
            {
                suffix.push(path[k]);
                proof {
                    assert(path@.subrange(old@.len() as int, k + 1) =~= path@.subrange(
                        old@.len() as int,
                        k as int,
                    ).push(path@[k as int]));
                }
                k = k + 1;
            }
            push_all(&mut np, &suffix);
            proof {
                assert(path@.skip(old@.len() as int) =~= suffix@);
            }
            let row = make_row(f, Some(np), true, "Prefix", "Prefix replace".to_owned());
            rows.push(row);
            proof {
                let pos = under_prefix(files@.take(i + 1), old@);
                assert(pos == prev.push(i as usize));
                assert forall|k: int| 0 <= k < rows@.len() implies row_is(
                    #[trigger] rows@[k],
                    files@[pos[k] as int],
                    Some(moved_path(files@[pos[k] as int].path@, old@, new@)),
                    true,
                    "Prefix"@,
                    "Prefix replace"@,
                ) by {
                    if k < prev.len() {
                        assert(pos[k] == prev[k]);
                    }
                }
            }
        }
        i = i + 1;
    }
    proof {
        assert(files@.take(files@.len() as int) =~= files@);
    }
    Ok(rows)
}

// ─── Rescan matching ─────────────────────────────────────────────────────────

/// A file found on disk under the scan folders.
pub struct DiskEntry {
    pub path: String,
    pub size: u64,
    /// Modification time, seconds since the epoch.
    pub mtime: u64,
}

/// The positions of the entries of the given size, in order.
pub open spec fn same_size(entries: Seq<DiskEntry>, size: u64) -> Seq<usize>
    decreases entries.len(),
{
    if entries.len() == 0 {
        Seq::empty()
    } else {
        let r = same_size(entries.drop_last(), size);
        if entries.last().size == size {
            r.push((entries.len() - 1) as usize)
        } else {
            r
        }
    }
}

/// The modification time lies within two seconds of the recorded one.
pub open spec fn mtime_close(mtime: u64, recorded: u64) -> bool {
    if mtime >= recorded {
        mtime - recorded <= 2
    } else {
        recorded - mtime <= 2
    }
}

/// The candidates (positions into `entries`) whose modification time is
/// close to the recorded one, in order.
pub open spec fn mtime_kept(entries: Seq<DiskEntry>, cands: Seq<usize>, recorded: u64) -> Seq<
    usize,
>
    decreases cands.len(),
{
    if cands.len() == 0 {
        Seq::empty()
    } else {
        let r = mtime_kept(entries, cands.drop_last(), recorded);
        if mtime_close(entries[cands.last() as int].mtime, recorded) {
            r.push(cands.last())
        } else {
            r
        }
    }
}

/// The candidates left after the size and, when asked for, the
/// modification-time refinement.
pub open spec fn refined(f: RelocateFile, entries: Seq<DiskEntry>, use_mtime: bool) -> Seq<usize> {
    let c = same_size(entries, f.size_bytes);
    if use_mtime {
        mtime_kept(entries, c, f.scanned_at)
    } else {
        c
    }
}

/// The candidates whose flag is set, in order.
pub open spec fn flagged(cands: Seq<usize>, flags: Seq<bool>) -> Seq<usize>
    decreases cands.len(),
{
    if cands.len() == 0 {
        Seq::empty()
    } else {
        let r = flagged(cands.drop_last(), flags.take(cands.len() - 1));
        if flags[cands.len() - 1] {
            r.push(cands.last())
        } else {
            r
        }
    }
}

/// How a unique match was found.
pub open spec fn confidence_of(use_mtime: bool, use_duration: bool) -> Seq<char> {
    if use_duration && use_mtime {
        "SizeModifiedDuration"@
    } else if use_mtime {
        "SizeAndModified"@
    } else {
        "SizeOnly"@
    }
}

/// The row for `f` once the refinements have left the candidates `m`.
pub open spec fn final_row(
    row: RelocateRow,
    f: RelocateFile,
    entries: Seq<DiskEntry>,
    m: Seq<usize>,
    use_mtime: bool,
    use_duration: bool,
) -> bool {
    if m.len() == 0 {
        row_is(row, f, None, false, "NotFound"@, "No candidate after refinements"@)
    } else if m.len() == 1 {
        row_is(
            row,
            f,
            Some(entries[m[0] as int].path@),
            true,
            confidence_of(use_mtime, use_duration),
            "Resolved by "@ + confidence_of(use_mtime, use_duration),
        )
    } else {
        row_is(row, f, None, false, "Ambiguous"@, decimal(m.len()) + " candidates remain"@)
    }
}

/// The outcome of matching one missing file before any duration is read:
/// either its row, or the candidates whose duration must be compared.
pub enum RescanStep {
    Resolved(RelocateRow),
    CheckDurations(Vec<usize>),
}

fn same_size_exec(entries: &Vec<DiskEntry>, size: u64) -> (c: Vec<usize>)
    ensures
        c@ == same_size(entries@, size),
        forall|k: int| 0 <= k < c@.len() ==> c@[k] < entries@.len(),
{
    let mut c: Vec<usize> = Vec::new();
    let mut i: usize = 0;
    while i < entries.len()
        invariant
            i <= entries@.len(),
            c@ == same_size(entries@.take(i as int), size),
            forall|k: int| 0 <= k < c@.len() ==> c@[k] < i,
        decreases entries@.len() - i,
    {
        proof {
            assert(entries@.take(i + 1).drop_last() =~= entries@.take(i as int));
            assert(entries@.take(i + 1).last() == entries@[i as int]);
        }
        if entries[i].size == size {
            c.push(i);
        }
        i = i + 1;
    }
    proof {
        assert(entries@.take(entries@.len() as int) =~= entries@);
    }
    c
}

fn mtime_kept_exec(entries: &Vec<DiskEntry>, cands: &Vec<usize>, recorded: u64) -> (m: Vec<usize>)
    requires
        forall|k: int| 0 <= k < cands@.len() ==> cands@[k] < entries@.len(),
    ensures
        m@ == mtime_kept(entries@, cands@, recorded),
        forall|k: int| 0 <= k < m@.len() ==> m@[k] < entries@.len(),
{
    let mut m: Vec<usize> = Vec::new();
    let mut i: usize = 0;
    while i < cands.len()
        invariant
            i <= cands@.len(),
            forall|k: int| 0 <= k < cands@.len() ==> cands@[k] < entries@.len(),
            m@ == mtime_kept(entries@, cands@.take(i as int), recorded),
            forall|k: int| 0 <= k < m@.len() ==> m@[k] < entries@.len(),
        decreases cands@.len() - i,
    {
        proof {
            assert(cands@.take(i + 1).drop_last() =~= cands@.take(i as int));
            assert(cands@.take(i + 1).last() == cands@[i as int]);
        }
        let t = entries[cands[i]].mtime;
        let close = if t >= recorded {
            t - recorded <= 2
        } else {
            recorded - t <= 2
        };
        if close {
            m.push(cands[i]);
        }
        i = i + 1;
    }
    proof {
        assert(cands@.take(cands@.len() as int) =~= cands@);
    }
    m
}

fn final_row_exec(
    f: &RelocateFile,
    entries: &Vec<DiskEntry>,
    m: &Vec<usize>,
    use_mtime: bool,
    use_duration: bool,
) -> (row: RelocateRow)
    requires
        forall|k: int| 0 <= k < m@.len() ==> m@[k] < entries@.len(),
    ensures
        final_row(row, *f, entries@, m@, use_mtime, use_duration),
{
    if m.len() == 0 {
        make_row(f, None, false, "NotFound", "No candidate after refinements".to_owned())
    } else if m.len() == 1 {
        let conf = if use_duration && use_mtime {
            "SizeModifiedDuration"
        } else if use_mtime {
            "SizeAndModified"
        } else {
            "SizeOnly"
        };
        let mut note = "Resolved by ".to_owned();
        push_all(&mut note, &chars_of(conf));
        make_row(f, Some(entries[m[0]].path.clone()), true, conf, note)
    } else {
        let mut note = string_of(&decimal_chars(m.len() as u128));
        push_all(&mut note, &chars_of(" candidates remain"));
        make_row(f, None, false, "Ambiguous", note)
    }
}

/// Mode B of the relocation preview, up to the duration check, for one
/// missing file: candidates are the entries of the same size; a unique one
/// resolves the file at once; otherwise the modification time refines them
/// (when `use_mtime`), and when `use_duration` and several remain, their
/// durations must be compared next.
pub fn rescan_step(f: &RelocateFile, entries: &Vec<DiskEntry>, use_mtime: bool, use_duration: bool) -> (step: RescanStep)
    ensures
        ({
            let c = same_size(entries@, f.size_bytes);
            let m = refined(*f, entries@, use_mtime);
            match step {
                RescanStep::Resolved(row) => if c.len() == 0 {
                    row_is(row, *f, None, false, "NotFound"@, "No same-size file in scan roots"@)
                } else if c.len() == 1 {
                    row_is(row, *f, Some(entries@[c[0] as int].path@), true, "SizeOnly"@, "Unique by size"@)
                } else {
                    !(use_duration && m.len() > 1) && final_row(row, *f, entries@, m, use_mtime, use_duration)
                },
                RescanStep::CheckDurations(v) => {
                    &&& c.len() > 1
                    &&& use_duration
                    &&& m.len() > 1
                    &&& v@ == m
                    &&& forall|k: int| 0 <= k < v@.len() ==> v@[k] < entries@.len()
                },
            }
        }),
{
    let c = same_size_exec(entries, f.size_bytes);
    if c.len() == 0 {
        return RescanStep::Resolved(
            make_row(f, None, false, "NotFound", "No same-size file in scan roots".to_owned()),
        );
    }
    if c.len() == 1 {
        return RescanStep::Resolved(
            make_row(f, Some(entries[c[0]].path.clone()), true, "SizeOnly", "Unique by size".to_owned()),
        );
    }
    let m = if use_mtime {
        mtime_kept_exec(entries, &c, f.scanned_at)
    } else {
        c
    };
    if use_duration && m.len() > 1 {
        RescanStep::CheckDurations(m)
    } else {
        RescanStep::Resolved(final_row_exec(f, entries, &m, use_mtime, use_duration))
    }
}

/// Mode B after the duration check: keeps the candidates whose duration
/// matched (`duration_ok[k]` for candidate `k`) and builds the row.
pub fn rescan_finish(
    f: &RelocateFile,
    entries: &Vec<DiskEntry>,
    cands: &Vec<usize>,
    duration_ok: &Vec<bool>,
    use_mtime: bool,
    use_duration: bool,
) -> (row: RelocateRow)
    requires
        duration_ok@.len() == cands@.len(),
        forall|k: int| 0 <= k < cands@.len() ==> cands@[k] < entries@.len(),
    ensures
        final_row(row, *f, entries@, flagged(cands@, duration_ok@), use_mtime, use_duration),
{
    let mut m: Vec<usize> = Vec::new();
    let mut i: usize = 0;
    while i < cands.len()
        invariant
            i <= cands@.len() == duration_ok@.len(),
            forall|k: int| 0 <= k < cands@.len() ==> cands@[k] < entries@.len(),
            m@ == flagged(cands@.take(i as int), duration_ok@.take(i as int)),
            forall|k: int| 0 <= k < m@.len() ==> m@[k] < entries@.len(),
        decreases cands@.len() - i,
    {
        proof {
            assert(cands@.take(i + 1).drop_last() =~= cands@.take(i as int));
            assert(cands@.take(i + 1).last() == cands@[i as int]);
            assert(duration_ok@.take(i + 1).take(i as int) =~= duration_ok@.take(i as int));
            assert(duration_ok@.take(i + 1)[i as int] == duration_ok@[i as int]);
        }
        if duration_ok[i] {
            m.push(cands[i]);
        }
        i = i + 1;
    }
    proof {
        assert(cands@.take(cands@.len() as int) =~= cands@);
        assert(duration_ok@.take(duration_ok@.len() as int) =~= duration_ok@);
    }
    final_row_exec(f, entries, &m, use_mtime, use_duration)
}

} // verus!
