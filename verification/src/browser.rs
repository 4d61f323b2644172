//! The database browser: which recorded files a search shows, in which
//! order, and which of them fall on the current page.
//!
//! The orders are stable: rows with equal keys keep their recorded order,
//! so each order sorts by the key and then by position.

use crate::db::{lowercase, to_lowercase};
use crate::selection::{contains_str, str_contains};
use crate::text::{chars_of, push_char, push_zero_padded, zero_padded};
use crate::utils::{days_to_ymd, ymd};
use vstd::prelude::*;

verus! {

/// Rows per page.
pub const PAGE_SIZE: usize = 50;

/// One recorded file as the browser lists it.
pub struct DbRow {
    pub id: String,
    pub name: String,
    pub path: String,
    pub size_bytes: u64,
    pub is_image: bool,
    pub scanned_at: u64,
    pub has_sha256: bool,
}

/// The orders the browser offers.
#[derive(Clone, Copy, Debug, PartialEq, Eq, Structural)]
pub enum DbSort {
    Name,
    Path,
    SizeAsc,
    SizeDesc,
    DateAsc,
    DateDesc,
}

/// Lexicographic order of strings by character (the order of `str`, whose
/// UTF-8 bytes compare as the characters do).
pub open spec fn text_lt(a: Seq<char>, b: Seq<char>) -> bool
    decreases a.len(),
{
    if a.len() == 0 {
        b.len() > 0
    } else if b.len() == 0 {
        false
    } else if a[0] != b[0] {
        a[0] < b[0]
    } else {
        text_lt(a.drop_first(), b.drop_first())
    }
}

/// Row `i` comes before row `j` in the given order.
pub open spec fn row_before(rows: Seq<DbRow>, sort: DbSort, i: int, j: int) -> bool {
    let a = rows[i];
    let b = rows[j];
    match sort {
        DbSort::Name => text_lt(a.name@, b.name@) || (a.name@ == b.name@ && i < j),
        DbSort::Path => text_lt(a.path@, b.path@) || (a.path@ == b.path@ && i < j),
        DbSort::SizeAsc => a.size_bytes < b.size_bytes || (a.size_bytes == b.size_bytes && i < j),
        DbSort::SizeDesc => a.size_bytes > b.size_bytes || (a.size_bytes == b.size_bytes && i < j),
        DbSort::DateAsc => a.scanned_at < b.scanned_at || (a.scanned_at == b.scanned_at && i < j),
        DbSort::DateDesc => a.scanned_at > b.scanned_at || (a.scanned_at == b.scanned_at && i < j),
    }
}

/// Row `r` is shown for the (already lowercased) search text.
pub open spec fn row_shown(search: Seq<char>, r: DbRow) -> bool {
    search.len() == 0 || contains_str(lowercase(r.name@), search) || contains_str(
        lowercase(r.path@),
        search,
    )
}

/// `order` lists exactly the shown rows, each once, in the given order.
pub open spec fn is_view_order(order: Seq<usize>, rows: Seq<DbRow>, search: Seq<char>, sort: DbSort) -> bool {
    &&& forall|k: int| 0 <= k < order.len() ==> (#[trigger] order[k]) < rows.len()
    &&& forall|x: int| 0 <= x < rows.len() ==> (order.contains(x as usize) <==> row_shown(search, rows[x]))
    &&& forall|p: int, q: int| 0 <= p < q < order.len() ==> row_before(rows, sort, order[p] as int, order[q] as int)
}

/// The number of pages for `visible` rows: at least one.
pub open spec fn page_count(visible: nat) -> nat {
    (if visible == 0 { 0 } else { (visible - 1) as nat }) / (PAGE_SIZE as nat) + 1
}

proof fn lemma_text_lt_facts(a: Seq<char>, b: Seq<char>, c: Seq<char>)
    ensures
        !text_lt(a, a),
        text_lt(a, b) || text_lt(b, a) || a == b,
        !(text_lt(a, b) && text_lt(b, a)),
        text_lt(a, b) && text_lt(b, c) ==> text_lt(a, c),
    decreases a.len(),
{
    if a.len() > 0 && b.len() > 0 && c.len() > 0 {
        lemma_text_lt_facts(a.drop_first(), b.drop_first(), c.drop_first());
        if a[0] == b[0] && a.drop_first() == b.drop_first() {
            assert forall|i: int| 0 <= i < a.len() implies a[i] == b[i] by {
                if i > 0 {
                    assert(a[i] == a.drop_first()[i - 1]);
                    assert(b[i] == b.drop_first()[i - 1]);
                }
            }
            assert(a =~= b);
        }
    } else if a.len() > 0 && b.len() > 0 {
        lemma_text_lt_facts(a.drop_first(), b.drop_first(), a.drop_first());
        if a[0] == b[0] && a.drop_first() == b.drop_first() {
            assert forall|i: int| 0 <= i < a.len() implies a[i] == b[i] by {
                if i > 0 {
                    assert(a[i] == a.drop_first()[i - 1]);
                    assert(b[i] == b.drop_first()[i - 1]);
                }
            }
            assert(a =~= b);
        }
    } else if a.len() > 0 {
        lemma_text_lt_facts(a.drop_first(), a.drop_first(), a.drop_first());
    } else if b.len() == 0 {
        assert(a =~= b);
    }
}

/// Each order is a strict total order on the rows.
proof fn lemma_row_order(rows: Seq<DbRow>, sort: DbSort, i: int, j: int, k: int)
    ensures
        !row_before(rows, sort, i, i),
        i != j ==> row_before(rows, sort, i, j) || row_before(rows, sort, j, i),
        !(row_before(rows, sort, i, j) && row_before(rows, sort, j, i)),
        row_before(rows, sort, i, j) && row_before(rows, sort, j, k) ==> row_before(rows, sort, i, k),
{
    match sort {
        DbSort::Name => {
            lemma_text_lt_facts(rows[i].name@, rows[j].name@, rows[k].name@);
            lemma_text_lt_facts(rows[i].name@, rows[k].name@, rows[j].name@);
            lemma_text_lt_facts(rows[j].name@, rows[i].name@, rows[k].name@);
        },
        DbSort::Path => {
            lemma_text_lt_facts(rows[i].path@, rows[j].path@, rows[k].path@);
            lemma_text_lt_facts(rows[i].path@, rows[k].path@, rows[j].path@);
            lemma_text_lt_facts(rows[j].path@, rows[i].path@, rows[k].path@);
        },
        _ => {},
    }
}

/// The order a search shows is unique: two listings of the shown rows,
/// both in the chosen order, are the same listing.
pub proof fn lemma_view_order_unique(
    o1: Seq<usize>,
    o2: Seq<usize>,
    rows: Seq<DbRow>,
    search: Seq<char>,
    sort: DbSort,
)
    requires
        is_view_order(o1, rows, search, sort),
        is_view_order(o2, rows, search, sort),
    ensures
        o1 == o2,
{
    assert forall|x: usize| #[trigger] o1.contains(x) == o2.contains(x) by {
        if o1.contains(x) {
            let p = choose|p: int| 0 <= p < o1.len() && o1[p] == x;
            assert(o1[p] < rows.len());
        }
        if o2.contains(x) {
            let p = choose|p: int| 0 <= p < o2.len() && o2[p] == x;
            assert(o2[p] < rows.len());
        }
        if (x as int) < rows.len() {
            assert(o1.contains(x as int as usize) == row_shown(search, rows[x as int]));
        }
    }
    lemma_tails_equal(o1, o2, rows, sort);
}

proof fn lemma_tails_equal(t1: Seq<usize>, t2: Seq<usize>, rows: Seq<DbRow>, sort: DbSort)
    requires
        forall|k: int| 0 <= k < t1.len() ==> (#[trigger] t1[k]) < rows.len(),
        forall|k: int| 0 <= k < t2.len() ==> (#[trigger] t2[k]) < rows.len(),
        forall|x: usize| #[trigger] t1.contains(x) == t2.contains(x),
        forall|p: int, q: int| 0 <= p < q < t1.len() ==> row_before(rows, sort, t1[p] as int, t1[q] as int),
        forall|p: int, q: int| 0 <= p < q < t2.len() ==> row_before(rows, sort, t2[p] as int, t2[q] as int),
    ensures
        t1 == t2,
    decreases t1.len() + t2.len(),
{
    if t1.len() == 0 || t2.len() == 0 {
        if t1.len() > 0 {
            assert(t1.contains(t1[0]));
            assert(t2.contains(t1[0]));
        }
        if t2.len() > 0 {
            assert(t2.contains(t2[0]));
            assert(t1.contains(t2[0]));
        }
        assert(t1 =~= t2);
    } else {
        let a = t1[0];
        let b = t2[0];
        assert(t1.contains(a));
        assert(t2.contains(b));
        assert(t2.contains(a));
        assert(t1.contains(b));
        let pa = choose|p: int| 0 <= p < t2.len() && t2[p] == a;
        let pb = choose|p: int| 0 <= p < t1.len() && t1[p] == b;
        if a != b {
            assert(pa > 0 && pb > 0);
            assert(row_before(rows, sort, b as int, a as int));
            assert(row_before(rows, sort, a as int, b as int));
            lemma_row_order(rows, sort, a as int, b as int, a as int);
        }
        let u1 = t1.drop_first();
        let u2 = t2.drop_first();
        assert forall|k: int| 0 <= k < u1.len() implies (#[trigger] u1[k]) < rows.len() by {
            assert(u1[k] == t1[k + 1]);
        }
        assert forall|k: int| 0 <= k < u2.len() implies (#[trigger] u2[k]) < rows.len() by {
            assert(u2[k] == t2[k + 1]);
        }
        assert forall|p: int, q: int| 0 <= p < q < u1.len() implies row_before(
            rows,
            sort,
            u1[p] as int,
            u1[q] as int,
        ) by {
            assert(u1[p] == t1[p + 1] && u1[q] == t1[q + 1]);
        }
        assert forall|p: int, q: int| 0 <= p < q < u2.len() implies row_before(
            rows,
            sort,
            u2[p] as int,
            u2[q] as int,
        ) by {
            assert(u2[p] == t2[p + 1] && u2[q] == t2[q + 1]);
        }
        assert forall|x: usize| #[trigger] u1.contains(x) == u2.contains(x) by {
            if u1.contains(x) {
                let p = choose|p: int| 0 <= p < u1.len() && u1[p] == x;
                assert(t1[p + 1] == x);
                assert(t1.contains(x));
                assert(row_before(rows, sort, a as int, x as int));
                lemma_row_order(rows, sort, a as int, x as int, a as int);
                assert(t2.contains(x));
                let q = choose|q: int| 0 <= q < t2.len() && t2[q] == x;
                assert(q != 0);
                assert(u2[q - 1] == x);
            }
            if u2.contains(x) {
                let p = choose|p: int| 0 <= p < u2.len() && u2[p] == x;
                assert(t2[p + 1] == x);
                assert(t2.contains(x));
                assert(row_before(rows, sort, a as int, x as int));
                lemma_row_order(rows, sort, a as int, x as int, a as int);
                assert(t1.contains(x));
                let q = choose|q: int| 0 <= q < t1.len() && t1[q] == x;
                assert(q != 0);
                assert(u1[q - 1] == x);
            }
        }
        lemma_tails_equal(u1, u2, rows, sort);
        assert(t1 =~= seq![a] + u1);
        assert(t2 =~= seq![a] + u2);
    }
}

pub(crate) fn text_lt_exec(a: &Vec<char>, b: &Vec<char>) -> (r: bool)
    ensures
        r == text_lt(a@, b@),
{
    let mut i: usize = 0;
    proof {
        assert(a@.skip(0) =~= a@);
        assert(b@.skip(0) =~= b@);
    }
    while i < a.len() && i < b.len()
        invariant
            i <= a@.len(),
            i <= b@.len(),
            text_lt(a@, b@) == text_lt(a@.skip(i as int), b@.skip(i as int)),
        decreases a@.len() - i,
    {
        proof {
            assert(a@.skip(i as int)[0] == a@[i as int]);
            assert(b@.skip(i as int)[0] == b@[i as int]);
            assert(a@.skip(i as int).drop_first() =~= a@.skip(i + 1));
            assert(b@.skip(i as int).drop_first() =~= b@.skip(i + 1));
        }
        if a[i] != b[i] {
            return a[i] < b[i];
        }
        i = i + 1;
    }
    a.len() - i < b.len() - i
}

fn row_before_exec(
    rows: &Vec<DbRow>,
    keys: &Vec<Vec<char>>,
    sort: DbSort,
    i: usize,
    j: usize,
) -> (r: bool)
    requires
        i < rows@.len(),
        j < rows@.len(),
        keys@.len() == rows@.len(),
        sort == DbSort::Name ==> forall|k: int| 0 <= k < rows@.len() ==> (#[trigger] keys@[k])@ == rows@[k].name@,
        sort == DbSort::Path ==> forall|k: int| 0 <= k < rows@.len() ==> (#[trigger] keys@[k])@ == rows@[k].path@,
    ensures
        r == row_before(rows@, sort, i as int, j as int),
{
    let a = &rows[i];
    let b = &rows[j];
    match sort {
        DbSort::Name | DbSort::Path => {
            let ka = &keys[i];
            let kb = &keys[j];
            text_lt_exec(ka, kb) || (crate::text::chars_equal(ka, kb) && i < j)
        },
        DbSort::SizeAsc => a.size_bytes < b.size_bytes || (a.size_bytes == b.size_bytes && i < j),
        DbSort::SizeDesc => a.size_bytes > b.size_bytes || (a.size_bytes == b.size_bytes && i < j),
        DbSort::DateAsc => a.scanned_at < b.scanned_at || (a.scanned_at == b.scanned_at && i < j),
        DbSort::DateDesc => a.scanned_at > b.scanned_at || (a.scanned_at == b.scanned_at && i < j),
    }
}

fn row_shown_exec(search: &String, r: &DbRow) -> (b: bool)
    ensures
        b == row_shown(search@, *r),
{
    if search.as_str().is_empty() {
        return true;
    }
    let name = to_lowercase(r.name.as_str());
    if str_contains(name.as_str(), search.as_str()) {
        return true;
    }
    let path = to_lowercase(r.path.as_str());
    str_contains(path.as_str(), search.as_str())
}

/// The rows a search shows (the search compared in lowercase with each
/// row's lowercased name and path; an empty search shows every row), in
/// the chosen order.
pub fn view_order(rows: &Vec<DbRow>, search: &str, sort: DbSort) -> (order: Vec<usize>)
    ensures
        is_view_order(order@, rows@, lowercase(search@), sort),
{
    let needle = to_lowercase(search);
    let mut keys: Vec<Vec<char>> = Vec::new();
    let mut k: usize = 0;
    while k < rows.len()
        invariant
            k <= rows@.len(),
            keys@.len() == k,
            sort == DbSort::Name ==> forall|q: int| 0 <= q < k ==> (#[trigger] keys@[q])@ == rows@[q].name@,
            sort == DbSort::Path ==> forall|q: int| 0 <= q < k ==> (#[trigger] keys@[q])@ == rows@[q].path@,
        decreases rows@.len() - k,
    {
        let key = if sort == DbSort::Path {
            chars_of(rows[k].path.as_str())
        } else if sort == DbSort::Name {
            chars_of(rows[k].name.as_str())
        } else {
            Vec::new()
        };
        keys.push(key);
        k = k + 1;
    }
    let ghost sv = lowercase(search@);
    let mut order: Vec<usize> = Vec::new();
    let mut x: usize = 0;
    while x < rows.len()
        invariant
            x <= rows@.len(),
            needle@ == sv,
            keys@.len() == rows@.len(),
            sort == DbSort::Name ==> forall|q: int| 0 <= q < rows@.len() ==> (#[trigger] keys@[q])@ == rows@[q].name@,
            sort == DbSort::Path ==> forall|q: int| 0 <= q < rows@.len() ==> (#[trigger] keys@[q])@ == rows@[q].path@,
            forall|q: int| 0 <= q < order@.len() ==> (#[trigger] order@[q]) < x,
            forall|y: usize| (#[trigger] order@.contains(y)) ==> (y < x && row_shown(sv, rows@[y as int])),
            forall|y: int| 0 <= y < x ==> row_shown(sv, rows@[y]) ==> order@.contains(y as usize),
            forall|p: int, q: int| 0 <= p < q < order@.len() ==> row_before(rows@, sort, order@[p] as int, order@[q] as int),
        decreases rows@.len() - x,
    {
        if row_shown_exec(&needle, &rows[x]) {
            let mut p: usize = 0;
            while p < order.len() && row_before_exec(rows, &keys, sort, order[p], x)
                invariant
                    p <= order@.len(),
                    x < rows@.len(),
                    keys@.len() == rows@.len(),
                    sort == DbSort::Name ==> forall|q: int| 0 <= q < rows@.len() ==> (#[trigger] keys@[q])@ == rows@[q].name@,
                    sort == DbSort::Path ==> forall|q: int| 0 <= q < rows@.len() ==> (#[trigger] keys@[q])@ == rows@[q].path@,
                    forall|q: int| 0 <= q < order@.len() ==> (#[trigger] order@[q]) < x,
                    forall|q: int| 0 <= q < p ==> row_before(rows@, sort, order@[q] as int, x as int),
                decreases order@.len() - p,
            {
                p = p + 1;
            }
            let ghost old_order = order@;
            proof {
                assert forall|q: int| p <= q < old_order.len() implies row_before(
                    rows@,
                    sort,
                    x as int,
                    old_order[q] as int,
                ) by {
                    let first = old_order[p as int] as int;
                    lemma_row_order(rows@, sort, x as int, first, first);
                    assert(first != x);
                    if q > p {
                        lemma_row_order(rows@, sort, x as int, first, old_order[q] as int);
                    }
                }
            }
            order.insert(p, x);
            proof {
                let no = order@;
                assert forall|q: int| 0 <= q < no.len() implies no[q] == (if q < p {
                    old_order[q]
                } else if q == p {
                    x
                } else {
                    old_order[q - 1]
                }) by {}
                assert forall|pp: int, qq: int| 0 <= pp < qq < no.len() implies row_before(
                    rows@,
                    sort,
                    no[pp] as int,
                    no[qq] as int,
                ) by {
                    if pp < p && qq > p {
                        lemma_row_order(rows@, sort, no[pp] as int, x as int, no[qq] as int);
                    }
                }
                assert forall|y: usize| (#[trigger] no.contains(y)) implies (y < x + 1 && row_shown(
                    sv,
                    rows@[y as int],
                )) by {
                    let q = choose|q: int| 0 <= q < no.len() && no[q] == y;
                    if q < p {
                        assert(old_order.contains(y));
                    } else if q > p {
                        assert(old_order[q - 1] == y);
                        assert(old_order.contains(y));
                    }
                }
                assert forall|y: int| 0 <= y < x + 1 && row_shown(sv, rows@[y]) implies no.contains(
                    y as usize,
                ) by {
                    if y < x && row_shown(sv, rows@[y]) {
                        assert(old_order.contains(y as usize));
                        let q = choose|q: int| 0 <= q < old_order.len() && old_order[q] == y as usize;
                        if q < p {
                            assert(no[q] == y as usize);
                        } else {
                            assert(no[q + 1] == y as usize);
                        }
                    }
                    if y == x {
                        assert(no[p as int] == x);
                    }
                }
            }
        }
        x = x + 1;
    }
    proof {
        assert forall|y: int| 0 <= y < rows@.len() implies (order@.contains(y as usize) <==> row_shown(
            sv,
            rows@[y],
        )) by {
            if order@.contains(y as usize) {
                assert(row_shown(sv, rows@[(y as usize) as int]));
            }
        }
    }
    order
}

/// What the browser shows: all rows the search shows, in order, the
/// number of pages, the current page (the requested one, or the last) and
/// the rows on it.
pub struct DbPage {
    pub order: Vec<usize>,
    pub total_pages: usize,
    pub cur_page: usize,
    pub page_rows: Vec<usize>,
}

/// The browser's page `page` for a search and an order.
pub fn database_page(rows: &Vec<DbRow>, search: &str, sort: DbSort, page: usize) -> (r: DbPage)
    ensures
        is_view_order(r.order@, rows@, lowercase(search@), sort),
        r.total_pages == page_count(r.order@.len()),
        r.cur_page == if page < r.total_pages { page as int } else { r.total_pages - 1 },
        r.page_rows@ == r.order@.subrange(
            (r.cur_page * PAGE_SIZE) as int,
            if (r.cur_page + 1) * PAGE_SIZE <= r.order@.len() {
                ((r.cur_page + 1) * PAGE_SIZE) as int
            } else {
                r.order@.len() as int
            },
        ),
{
    let order = view_order(rows, search, sort);
    let n = order.len();
    let total_pages = (if n == 0 { 0 } else { n - 1 }) / PAGE_SIZE + 1;
    let cur_page = if page < total_pages {
        page
    } else {
        total_pages - 1
    };
    let start = cur_page * PAGE_SIZE;
    let end = if n - start >= PAGE_SIZE {
        start + PAGE_SIZE
    } else {
        n
    };
    let mut page_rows: Vec<usize> = Vec::new();
    let mut k: usize = start;
    while k < end
        invariant
            start <= k <= end <= n == order@.len(),
            page_rows@ == order@.subrange(start as int, k as int),
        decreases end - k,
    {
        page_rows.push(order[k]);
        proof {
            assert(order@.subrange(start as int, k + 1) =~= order@.subrange(start as int, k as int).push(
                order@[k as int],
            ));
        }
        k = k + 1;
    }
    DbPage { order, total_pages, cur_page, page_rows }
}

/// `YYYY-MM-DD HH:MM` (UTC) of a time in seconds since the epoch, as the
/// browser shows when a file was scanned.
pub open spec fn scan_time_text(ts: nat) -> Seq<char> {
    let (y, mo, d) = ymd(ts / 86400);
    let rem = ts % 86400;
    zero_padded(y, 4) + seq!['-'] + zero_padded(mo, 2) + seq!['-'] + zero_padded(d, 2) + seq![' ']
        + zero_padded(rem / 3600, 2) + seq![':'] + zero_padded((rem % 3600) / 60, 2)
}

/// Formats a scan time for the browser (see [`scan_time_text`]).
pub fn format_unix(ts: u64) -> (r: String)
    ensures
        r@ == scan_time_text(ts as nat),
{
    let rem = ts % 86400;
    let h = rem / 3600;
    let m = (rem % 3600) / 60;
    let (y, mo, d) = days_to_ymd(ts / 86400);
    let mut s = String::new();
    push_zero_padded(&mut s, y as u128, 4);
    push_char(&mut s, '-');
    push_zero_padded(&mut s, mo as u128, 2);
    push_char(&mut s, '-');
    push_zero_padded(&mut s, d as u128, 2);
    push_char(&mut s, ' ');
    push_zero_padded(&mut s, h as u128, 2);
    push_char(&mut s, ':');
    push_zero_padded(&mut s, m as u128, 2);
    proof {
        assert(s@ =~= scan_time_text(ts as nat));
    }
    s
}

} // verus!
