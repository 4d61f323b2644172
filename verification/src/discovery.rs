//! Which of the files found under the scan folders take part in a scan: a
//! video (or, when images are included, an image) extension, outside the
//! excluded folders, and within the size and path-text filters.

use crate::db::{is_video_ext, lowercase, to_lowercase, video_ext};
use crate::scan::{lemma_split_nonempty, lemma_views_of_index, views_of};
use crate::selection::{contains_str, split_chars, str_contains};
use crate::text::{chars_equal, chars_of, eq_str, split_on};
use crate::utils::{split_stem_ext, stem_and_ext};
use vstd::prelude::*;

verus! {

/// The image extensions a scan takes (lowercase).
pub open spec fn scan_image_ext(s: Seq<char>) -> bool {
    s == "jpg"@ || s == "jpeg"@ || s == "png"@ || s == "bmp"@ || s == "gif"@ || s == "webp"@
        || s == "tiff"@ || s == "tif"@
}

/// The pieces of a path between separators that name something: empty
/// pieces and `.` dropped.
pub open spec fn normal_parts(parts: Seq<Seq<char>>) -> Seq<Seq<char>>
    decreases parts.len(),
{
    if parts.len() == 0 {
        Seq::empty()
    } else {
        let r = normal_parts(parts.drop_last());
        if parts.last().len() == 0 || parts.last() == seq!['.'] {
            r
        } else {
            r.push(parts.last())
        }
    }
}

/// The components of a `/`-separated path as std's `Path::components`
/// yields them: the root (written `/`) for an absolute path, a leading `.`
/// for a path that starts with one, then every other non-empty piece
/// except `.`.
pub open spec fn path_components(p: Seq<char>) -> Seq<Seq<char>> {
    let root = p.len() > 0 && p[0] == '/';
    let parts = split_on(p, '/');
    let cur = !root && parts[0] == seq!['.'];
    (if root {
        seq![seq!['/']]
    } else {
        Seq::empty()
    }) + (if cur {
        seq![seq!['.']]
    } else {
        Seq::empty()
    }) + normal_parts(parts)
}

/// `p` lies under `base`: the components of `base` begin those of `p`.
pub open spec fn path_starts_with(p: Seq<char>, base: Seq<char>) -> bool {
    let a = path_components(p);
    let b = path_components(base);
    b.len() <= a.len() && a.take(b.len() as int) == b
}

/// The last component of a path when it names a file or folder.
pub open spec fn file_name_of(p: Seq<char>) -> Option<Seq<char>> {
    let c = path_components(p);
    if c.len() == 0 || c.last() == seq!['/'] || c.last() == seq!['.'] || c.last() == seq!['.', '.'] {
        None
    } else {
        Some(c.last())
    }
}

/// The extension of a path's file name (empty when it has none).
pub open spec fn extension_of(p: Seq<char>) -> Seq<char> {
    match file_name_of(p) {
        Some(n) => stem_and_ext(n).1,
        None => Seq::empty(),
    }
}

/// The scan settings that decide which files are taken.
pub struct DiscoveryRules {
    pub include_images: bool,
    pub exclude_dirs: Vec<String>,
    pub filter_by_file_size: bool,
    /// 0 for no lower bound.
    pub min_file_size_bytes: u64,
    /// 0 for no upper bound.
    pub max_file_size_bytes: u64,
    pub filter_by_path_contains: bool,
    pub path_contains_texts: Vec<String>,
    pub filter_by_path_not_contains: bool,
    pub path_not_contains_texts: Vec<String>,
}

pub open spec fn any_contained(texts: Seq<String>, path: Seq<char>) -> bool {
    exists|k: int| 0 <= k < texts.len() && contains_str(path, #[trigger] texts[k]@)
}

pub open spec fn under_any(dirs: Seq<String>, path: Seq<char>) -> bool {
    exists|k: int| 0 <= k < dirs.len() && path_starts_with(path, #[trigger] dirs[k]@)
}

/// Whether a found file takes part in the scan; `size` is its size when it
/// could be read.
pub open spec fn accepted(path: Seq<char>, size: Option<u64>, rules: DiscoveryRules) -> bool {
    let ext = lowercase(extension_of(path));
    &&& video_ext(ext) || (rules.include_images && scan_image_ext(ext))
    &&& !under_any(rules.exclude_dirs@, path)
    &&& rules.filter_by_file_size ==> match size {
        Some(s) => !(rules.min_file_size_bytes > 0 && s < rules.min_file_size_bytes) && !(
        rules.max_file_size_bytes > 0 && s > rules.max_file_size_bytes),
        None => true,
    }
    &&& (rules.filter_by_path_contains && rules.path_contains_texts@.len() > 0) ==> any_contained(
        rules.path_contains_texts@,
        path,
    )
    &&& !(rules.filter_by_path_not_contains && rules.path_not_contains_texts@.len() > 0
        && any_contained(rules.path_not_contains_texts@, path))
}

/// With images included and no folder, size or path filter set, every file
/// whose extension, in any case, is jpg, jpeg, png, bmp, gif, webp, tiff or
/// tif takes part in the scan.
pub proof fn lemma_image_files_accepted(path: Seq<char>, size: Option<u64>, rules: DiscoveryRules)
    requires
        rules.include_images,
        rules.exclude_dirs@.len() == 0,
        !rules.filter_by_file_size,
        !rules.filter_by_path_contains,
        !rules.filter_by_path_not_contains,
        ({
            let e = lowercase(extension_of(path));
            e == "jpg"@
            || e == "jpeg"@
            || e == "png"@
            || e == "bmp"@
            || e == "gif"@
            || e == "webp"@
            || e == "tiff"@
            || e == "tif"@
        }),
    ensures
        accepted(path, size, rules),
{
}

/// With no folder, size or path filter set, every file whose extension, in
/// any case, is one of the video extensions (mp4, mkv, avi, mov, wmv, flv,
/// webm, m4v, mpg, mpeg, ts, m2ts, mts, vob, 3gp, ogv, rm, rmvb, divx, xvid,
/// asf, f4v, hevc, 264, 265) takes part in the scan, images included or not.
pub proof fn lemma_video_files_accepted(path: Seq<char>, size: Option<u64>, rules: DiscoveryRules)
    requires
        rules.exclude_dirs@.len() == 0,
        !rules.filter_by_file_size,
        !rules.filter_by_path_contains,
        !rules.filter_by_path_not_contains,
        ({
            let e = lowercase(extension_of(path));
            e == "mp4"@
            || e == "mkv"@
            || e == "avi"@
            || e == "mov"@
            || e == "wmv"@
            || e == "flv"@
            || e == "webm"@
            || e == "m4v"@
            || e == "mpg"@
            || e == "mpeg"@
            || e == "ts"@
            || e == "m2ts"@
            || e == "mts"@
            || e == "vob"@
            || e == "3gp"@
            || e == "ogv"@
            || e == "rm"@
            || e == "rmvb"@
            || e == "divx"@
            || e == "xvid"@
            || e == "asf"@
            || e == "f4v"@
            || e == "hevc"@
            || e == "264"@
            || e == "265"@
        }),
    ensures
        accepted(path, size, rules),
{
}

proof fn lemma_split_short(s: Seq<char>, sep: char)
    ensures
        forall|k: int| 0 <= k < split_on(s, sep).len() ==> (#[trigger] split_on(s, sep)[k]).len() <= s.len(),
    decreases s.len(),
{
    if s.len() > 0 {
        lemma_split_short(s.drop_last(), sep);
        lemma_split_nonempty(s.drop_last(), sep);
        let rest = split_on(s.drop_last(), sep);
        let all = split_on(s, sep);
        assert forall|k: int| 0 <= k < all.len() implies (#[trigger] all[k]).len() <= s.len() by {
            if k < rest.len() - 1 {
                assert(all[k] == rest[k]);
            } else if k == rest.len() - 1 && s.last() == sep {
                assert(all[k] == rest[k]);
            }
        }
    }
}

proof fn lemma_normal_parts_short(parts: Seq<Seq<char>>, bound: int)
    requires
        forall|k: int| 0 <= k < parts.len() ==> (#[trigger] parts[k]).len() <= bound,
    ensures
        forall|k: int| 0 <= k < normal_parts(parts).len() ==> (#[trigger] normal_parts(parts)[k]).len() <= bound,
    decreases parts.len(),
{
    if parts.len() > 0 {
        lemma_normal_parts_short(parts.drop_last(), bound);
        let r = normal_parts(parts.drop_last());
        let all = normal_parts(parts);
        assert forall|k: int| 0 <= k < all.len() implies (#[trigger] all[k]).len() <= bound by {
            if k < r.len() {
                assert(all[k] == r[k]);
            }
        }
    }
}

proof fn lemma_component_short(p: Seq<char>, k: int)
    requires
        p.len() < 0x7fff_ffff_ffff_ffff,
        0 <= k < path_components(p).len(),
    ensures
        path_components(p)[k].len() < 0x7fff_ffff_ffff_ffff,
{
    let parts = split_on(p, '/');
    lemma_split_short(p, '/');
    lemma_normal_parts_short(parts, p.len() as int);
    let root = p.len() > 0 && p[0] == '/';
    let cur = !root && parts[0] == seq!['.'];
    let head = (if root {
        seq![seq!['/']]
    } else {
        Seq::<Seq<char>>::empty()
    }) + (if cur {
        seq![seq!['.']]
    } else {
        Seq::<Seq<char>>::empty()
    });
    let c = path_components(p);
    assert(c == head + normal_parts(parts));
    if k >= head.len() {
        assert(c[k] == normal_parts(parts)[k - head.len()]);
    } else {
        assert(c[k] == head[k]);
    }
}

fn normal_parts_exec(parts: &Vec<Vec<char>>) -> (r: Vec<Vec<char>>)
    ensures
        views_of(r@) == normal_parts(views_of(parts@)),
{
    let ghost ps = views_of(parts@);
    let mut r: Vec<Vec<char>> = Vec::new();
    let mut i: usize = 0;
    while i < parts.len()
        invariant
            i <= parts@.len(),
            ps == views_of(parts@),
            views_of(r@) == normal_parts(ps.take(i as int)),
        decreases parts@.len() - i,
    {
        proof {
            lemma_views_of_index(parts@, i as int);
            assert(ps.take(i + 1).drop_last() =~= ps.take(i as int));
            assert(ps.take(i + 1).last() == parts@[i as int]@);
        }
        let piece = &parts[i];
        let dot = piece.len() == 1 && piece[0] == '.';
        proof {
            if piece@.len() == 1 {
                assert(dot == (piece@ == seq!['.'])) by {
                    if piece@[0] == '.' {
                        assert(piece@ =~= seq!['.']);
                    }
                }
            }
        }
        if piece.len() > 0 && !dot {
            let ghost before = views_of(r@);
            r.push(piece.clone());
            proof {
                assert(views_of(r@) =~= before.push(piece@));
            }
        }
        i = i + 1;
    }
    proof {
        assert(ps.take(ps.len() as int) =~= ps);
    }
    r
}

fn components(p: &Vec<char>) -> (r: Vec<Vec<char>>)
    ensures
        views_of(r@) == path_components(p@),
{
    let parts = split_chars(p, '/');
    proof {
        lemma_split_nonempty(p@, '/');
        lemma_views_of_index(parts@, 0);
    }
    let root = p.len() > 0 && p[0] == '/';
    let cur = !root && parts[0].len() == 1 && parts[0][0] == '.';
    proof {
        let first = views_of(parts@)[0];
        if first.len() == 1 && first[0] == '.' {
            assert(first =~= seq!['.']);
        }
    }
    let mut r: Vec<Vec<char>> = Vec::new();
    if root {
        let mut slash: Vec<char> = Vec::new();
        slash.push('/');
        r.push(slash);
    }
    if cur {
        let mut dot: Vec<char> = Vec::new();
        dot.push('.');
        r.push(dot);
    }
    let ghost head = views_of(r@);
    proof {
        let want = (if root {
            seq![seq!['/']]
        } else {
            Seq::<Seq<char>>::empty()
        }) + (if cur {
            seq![seq!['.']]
        } else {
            Seq::<Seq<char>>::empty()
        });
        assert(head =~= want);
    }
    let rest = normal_parts_exec(&parts);
    let mut k: usize = 0;
    while k < rest.len()
        invariant
            k <= rest@.len(),
            views_of(r@) == head + views_of(rest@).take(k as int),
        decreases rest@.len() - k,
    {
        proof {
            lemma_views_of_index(rest@, k as int);
        }
        let ghost before = views_of(r@);
        r.push(rest[k].clone());
        proof {
            assert(views_of(rest@).take(k + 1) =~= views_of(rest@).take(k as int).push(rest@[k as int]@));
            assert(views_of(r@) =~= before.push(rest@[k as int]@));
        }
        k = k + 1;
    }
    proof {
        assert(views_of(rest@).take(rest@.len() as int) =~= views_of(rest@));
    }
    r
}

fn starts_with_components(a: &Vec<Vec<char>>, b: &Vec<Vec<char>>) -> (r: bool)
    ensures
        r == (views_of(b@).len() <= views_of(a@).len() && views_of(a@).take(views_of(b@).len() as int)
            == views_of(b@)),
{
    let ghost va = views_of(a@);
    let ghost vb = views_of(b@);
    if b.len() > a.len() {
        return false;
    }
    let mut k: usize = 0;
    while k < b.len()
        invariant
            k <= b@.len() <= a@.len(),
            va == views_of(a@),
            vb == views_of(b@),
            forall|q: int| 0 <= q < k ==> va[q] == vb[q],
        decreases b@.len() - k,
    {
        proof {
            lemma_views_of_index(a@, k as int);
            lemma_views_of_index(b@, k as int);
        }
        if !chars_equal(&a[k], &b[k]) {
            assert(va.take(vb.len() as int)[k as int] != vb[k as int]);
            return false;
        }
        k = k + 1;
    }
    assert(va.take(vb.len() as int) =~= vb);
    true
}

fn is_scan_image_ext(s: &Vec<char>) -> (r: bool)
    ensures
        r == scan_image_ext(s@),
{
    eq_str(s, "jpg") || eq_str(s, "jpeg") || eq_str(s, "png") || eq_str(s, "bmp") || eq_str(s, "gif")
        || eq_str(s, "webp") || eq_str(s, "tiff") || eq_str(s, "tif")
}

fn extension(comps: &Vec<Vec<char>>) -> (r: Vec<char>)
    requires
        forall|k: int| 0 <= k < comps@.len() ==> (#[trigger] comps@[k])@.len() < 0x7fff_ffff_ffff_ffff,
    ensures
        views_of(comps@).len() == 0 ==> r@ == Seq::<char>::empty(),
        views_of(comps@).len() > 0 ==> {
            let l = views_of(comps@).last();
            r@ == if l == seq!['/'] || l == seq!['.'] || l == seq!['.', '.'] {
                Seq::<char>::empty()
            } else {
                stem_and_ext(l).1
            }
        },
{
    if comps.len() == 0 {
        return Vec::new();
    }
    let last = &comps[comps.len() - 1];
    proof {
        lemma_views_of_index(comps@, comps@.len() - 1);
    }
    if eq_str(last, "/") || eq_str(last, ".") || eq_str(last, "..") {
        proof {
            reveal_strlit("/");
            reveal_strlit(".");
            reveal_strlit("..");
            assert("/"@ =~= seq!['/']);
            assert("."@ =~= seq!['.']);
            assert(".."@ =~= seq!['.', '.']);
        }
        return Vec::new();
    }
    proof {
        reveal_strlit("/");
        reveal_strlit(".");
        reveal_strlit("..");
        assert("/"@ =~= seq!['/']);
        assert("."@ =~= seq!['.']);
        assert(".."@ =~= seq!['.', '.']);
    }
    let (_stem, ext) = split_stem_ext(last);
    ext
}

fn contains_any(texts: &Vec<String>, path: &str) -> (r: bool)
    ensures
        r == any_contained(texts@, path@),
{
    let mut k: usize = 0;
    while k < texts.len()
        invariant
            k <= texts@.len(),
            forall|q: int| 0 <= q < k ==> !contains_str(path@, #[trigger] texts@[q]@),
        decreases texts@.len() - k,
    {
        if str_contains(path, texts[k].as_str()) {
            return true;
        }
        k = k + 1;
    }
    false
}

/// Whether a file found under the scan folders takes part in the scan (see
/// [`accepted`]); `size` is its size when it could be read.
pub fn discovery_accepts(path: &str, size: Option<u64>, rules: &DiscoveryRules) -> (r: bool)
    requires
        path@.len() < 0x7fff_ffff_ffff_ffff,
    ensures
        r == accepted(path@, size, *rules),
{
    let p = chars_of(path);
    let comps = components(&p);
    proof {
        assert forall|k: int| 0 <= k < comps@.len() implies (#[trigger] comps@[k])@.len()
            < 0x7fff_ffff_ffff_ffff by {
            lemma_views_of_index(comps@, k);
            lemma_component_short(p@, k);
        }
    }
    let ext_chars = extension(&comps);
    proof {
        assert(ext_chars@ == extension_of(path@));
    }
    let ext_text = crate::text::string_of(&ext_chars);
    let lower = to_lowercase(ext_text.as_str());
    let lc = chars_of(lower.as_str());
    let kind_ok = is_video_ext(&lc) || (rules.include_images && is_scan_image_ext(&lc));
    if !kind_ok {
        return false;
    }
    let mut k: usize = 0;
    while k < rules.exclude_dirs.len()
        invariant
            k <= rules.exclude_dirs@.len(),
            views_of(comps@) == path_components(path@),
            forall|q: int| 0 <= q < k ==> !path_starts_with(path@, #[trigger] rules.exclude_dirs@[q]@),
        decreases rules.exclude_dirs@.len() - k,
    {
        let d = chars_of(rules.exclude_dirs[k].as_str());
        let dc = components(&d);
        if starts_with_components(&comps, &dc) {
            assert(path_starts_with(path@, rules.exclude_dirs@[k as int]@));
            return false;
        }
        k = k + 1;
    }
    if rules.filter_by_file_size {
        match size {
            Some(s) => {
                if rules.min_file_size_bytes > 0 && s < rules.min_file_size_bytes {
                    return false;
                }
                if rules.max_file_size_bytes > 0 && s > rules.max_file_size_bytes {
                    return false;
                }
            },
            None => {},
        }
    }
    if rules.filter_by_path_contains && rules.path_contains_texts.len() > 0 {
        if !contains_any(&rules.path_contains_texts, path) {
            return false;
        }
    }
    if rules.filter_by_path_not_contains && rules.path_not_contains_texts.len() > 0 {
        if contains_any(&rules.path_not_contains_texts, path) {
            return false;
        }
    }
    true
}

} // verus!
