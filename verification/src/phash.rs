//! Perceptual hashing via a separated DCT (pHash).
//!
//! Pipeline: 32×32 grayscale bytes → two-pass separated DCT that keeps only the
//! 8×8 low-frequency AC coefficients (frequencies 1..=8) → threshold at the
//! median of the 64 coefficients → 64-bit hash.
//!
//! The transform is carried out in binary32 arithmetic, with round-to-nearest-even
//! after every product and every sum.  Every value that occurs is an exact
//! multiple of a known power of two, so each one is held as an integer (see
//! `rounding`): pixels are plain integers, cosines are multiples of 2^-28, row
//! sums multiples of 2^-28, column products and sums multiples of 2^-58.  The
//! DCT normalisation for frequencies 1..=8 is sqrt(2/32) = 1/4, a power of two,
//! so multiplying by it only moves the binary point.
//!
//! A uniform frame has no AC energy at all; in binary32 its coefficients come
//! out as rounding residue rather than zero, so that case is decided directly:
//! a uniform frame hashes to 0.

use crate::rounding::{abs_int, lemma_round24_bound, round24, round24_exec};
use vstd::arithmetic::div_mod::lemma_fundamental_div_mod_converse;
use vstd::prelude::*;
use vstd::relations::{sorted_by, total_ordering};
use vstd::seq_lib::{lemma_sorted_unique, to_multiset_build, to_multiset_insert};

verus! {

/// Side of the square grayscale frame.
pub const N: usize = 32;

/// Number of low frequencies kept per axis.
pub const K: usize = 8;

/// Number of pixels of a frame.
pub const PIXELS: usize = 1024;

/// `cos(((2i+1)·k·π) / 64)` for `k` in 1..=8 (row `k-1`) and `i` in 0..32,
/// each rounded to binary32 and then scaled by 2^28; every such binary32 value
/// is an exact multiple of 2^-28, so the scaled values are exact.
pub const COS_SCALED: [i32; 256] = [
    268112112, 265530048, 260390784, 252743808, 242662784, 230244768, 215609376, 198897552, 180270240, 159906816, 138003408, 114770944, 90433184, 65224496, 39387660, 13171504, -13171504, -39387660, -65224496, -90433184, -114770944, -138003408, -159906816, -180270240, -198897552, -215609376, -230244768, -242662784, -252743808, -260390784, -265530048, -268112112,
    267142864, 256876720, 236738944, 207503408, 170293648, 126539600, 77922696, 26311276, -26311276, -77922696, -126539600, -170293648, -207503408, -236738944, -256876720, -267142864, -267142864, -256876720, -236738944, -207503408, -170293648, -126539600, -77922696, -26311276, 26311276, 77922696, 126539600, 170293648, 207503408, 236738944, 256876720, 267142864,
    265530048, 242662784, 198897552, 138003408, 65224496, -13171504, -90433184, -159906816, -215609376, -252743808, -268112112, -260390784, -230244768, -180270240, -114770944, -39387660, 39387660, 114770944, 180270240, 230244768, 260390784, 268112112, 252743808, 215609376, 159906816, 90433184, 13171504, -65224496, -138003408, -198897552, -242662784, -265530048,
    263277536, 223195920, 149134752, 52369160, -52369160, -149134752, -223195920, -263277536, -263277536, -223195920, -149134752, -52369160, 52369160, 149134752, 223195920, 263277536, 263277536, 223195920, 149134752, 52369160, -52369160, -149134752, -223195920, -263277536, -263277536, -223195920, -149134752, -52369160, 52369160, 149134752, 223195920, 263277536,
    260390784, 198897552, 90433184, -39387660, -159906816, -242662784, -268112112, -230244768, -138003408, -13171504, 114770944, 215609376, 265530048, 252743808, 180270240, 65224496, -65224496, -180270240, -252743808, -265530048, -215609376, -114770944, 13171504, 138003408, 230244768, 268112112, 242662784, 159906816, 39387660, -90433184, -198897552, -260390784,
    256876720, 170293648, 26311276, -126539600, -236738944, -267142864, -207503408, -77922696, 77922696, 207503408, 267142864, 236738944, 126539600, -26311276, -170293648, -256876720, -256876720, -170293648, -26311276, 126539600, 236738944, 267142864, 207503408, 77922696, -77922696, -207503408, -267142864, -236738944, -126539600, 26311276, 170293648, 256876720,
    252743808, 138003408, -39387660, -198897552, -268112112, -215609376, -65224496, 114770944, 242662784, 260390784, 159906816, -13171504, -180270240, -265530048, -230244768, -90433184, 90433184, 230244768, 265530048, 180270240, 13171504, -159906816, -260390784, -242662784, -114770944, 65224496, 215609376, 268112112, 198897552, 39387660, -138003408, -252743808,
    248002016, 102725800, -102725800, -248002016, -248002016, -102725800, 102725800, 248002016, 248002016, 102725800, -102725800, -248002016, -248002016, -102725800, 102725800, 248002016, 248002016, 102725800, -102725800, -248002016, -248002016, -102725800, 102725800, 248002016, 248002016, 102725800, -102725800, -248002016, -248002016, -102725800, 102725800, 248002016,
];

/// The scaled cosine for frequency `k` (1..=8) at sample `i` (0..32).
pub open spec fn cos_q(k: int, i: int) -> int {
    COS_SCALED@[(k - 1) * 32 + i] as int
}

/// Row pass: the binary32 sum of the first `n` products `gray[y][x] · cos(u, x)`,
/// scaled by 2^28.  Scaled by 2^30, the same integer is the row coefficient
/// `(1/4) · sum`.
pub open spec fn row_partial(g: Seq<u8>, y: int, u: int, n: int) -> int
    decreases n,
{
    if n <= 0 {
        0
    } else {
        round24(row_partial(g, y, u, n - 1) + round24(g[y * 32 + n - 1] as int * cos_q(u, n - 1)))
    }
}

/// The row coefficient of row `y` at horizontal frequency `u`, scaled by 2^30.
pub open spec fn row_coeff(g: Seq<u8>, y: int, u: int) -> int {
    row_partial(g, y, u, 32)
}

/// Column pass: the binary32 sum of the first `n` products
/// `row_coeff(y, u) · cos(v, y)`, scaled by 2^58.  Scaled by 2^60, the same
/// integer is the AC coefficient `(1/4) · sum`.
pub open spec fn col_partial(g: Seq<u8>, v: int, u: int, n: int) -> int
    decreases n,
{
    if n <= 0 {
        0
    } else {
        round24(col_partial(g, v, u, n - 1) + round24(row_coeff(g, n - 1, u) * cos_q(v, n - 1)))
    }
}

/// AC coefficient number `k` (0..64) in sweep order: vertical frequency
/// `k / 8 + 1` outer, horizontal frequency `k % 8 + 1` inner; scaled by 2^60.
pub open spec fn ac_coeff(g: Seq<u8>, k: int) -> int {
    col_partial(g, k / 8 + 1, k % 8 + 1, 32)
}

/// The 64 AC coefficients in sweep order.
pub open spec fn ac_seq(g: Seq<u8>) -> Seq<int> {
    Seq::new(64, |k: int| ac_coeff(g, k))
}

/// Twice the median of the AC coefficients, scaled by 2^60: the binary32 sum
/// of the two middle values of the sorted coefficients (their mean is that sum
/// halved, which is exact).
pub open spec fn median_twice(g: Seq<u8>) -> int {
    let s = ac_seq(g).sort();
    round24(s[31] + s[32])
}

/// Bit `i` of the hash: AC coefficient `i` lies strictly above the median.
pub open spec fn phash_bit(g: Seq<u8>, i: int) -> bool {
    2 * ac_coeff(g, i) > median_twice(g)
}

/// Bit `i` of a 64-bit word.
pub open spec fn bit_of(h: u64, i: int) -> bool {
    (h >> (i as u64)) & 1 == 1
}


/// Adding a term of magnitude at most `p_bound` to a partial sum kept below
/// `j · 2 · p_bound`, then rounding, keeps the sum below `(j + 1) · 2 · p_bound`.
proof fn lemma_acc_step(s: int, p: int, j: int, p_bound: int)
    requires
        0 <= j <= 64,
        p_bound >= 1,
        abs_int(s) <= j * 2 * p_bound,
        abs_int(p) <= p_bound,
    ensures
        abs_int(round24(s + p)) <= (j + 1) * 2 * p_bound,
{
    lemma_round24_bound(s + p);
    let t = abs_int(s + p);
    let r = abs_int(round24(s + p));
    assert(t <= j * 2 * p_bound + p_bound);
    assert(r * 0x80_0000 <= t * 0x80_0001);
    assert(r <= (j + 1) * 2 * p_bound) by (nonlinear_arith)
        requires
            r * 0x80_0000 <= t * 0x80_0001,
            t <= j * 2 * p_bound + p_bound,
            0 <= j <= 64,
            p_bound >= 1,
            r >= 0,
            t >= 0,
    ;
}

/// Rounding at most doubles a magnitude.
proof fn lemma_round_double(x: int, m: int)
    requires
        abs_int(x) <= m,
    ensures
        abs_int(round24(x)) <= 2 * m,
{
    lemma_round24_bound(x);
    let r = abs_int(round24(x));
    assert(r <= 2 * m) by (nonlinear_arith)
        requires
            r * 0x80_0000 <= abs_int(x) * 0x80_0001,
            abs_int(x) <= m,
            r >= 0,
    ;
}

proof fn lemma_product_bound(t: int, c: int, bt: int, bc: int)
    requires
        abs_int(t) <= bt,
        abs_int(c) <= bc,
    ensures
        abs_int(t * c) <= bt * bc,
{
    let ta = abs_int(t);
    let ca = abs_int(c);
    assert(ta * ca <= bt * bc) by (nonlinear_arith)
        requires
            0 <= ta <= bt,
            0 <= ca <= bc,
    ;
    assert(abs_int(t * c) == ta * ca) by (nonlinear_arith)
        requires
            ta == (if t >= 0 { t } else { -t }),
            ca == (if c >= 0 { c } else { -c }),
    ;
}

proof fn lemma_index_split(a: int, b: int)
    requires
        0 <= b < 8,
    ensures
        (a * 8 + b) / 8 == a,
        (a * 8 + b) % 8 == b,
{
    lemma_fundamental_div_mod_converse(a * 8 + b, 8, a, b);
}

/// The row coefficients of all 32 rows at the horizontal frequencies 1..=8;
/// entry `y * 8 + (u - 1)` belongs to row `y` and frequency `u`.
fn row_pass(gray: &[u8; 1024]) -> (temp: Vec<i128>)
    ensures
        temp@.len() == 256,
        forall|y: int, u: int|
            0 <= y < 32 && 1 <= u <= 8 ==> temp@[y * 8 + u - 1] as int == #[trigger] row_coeff(
                gray@,
                y,
                u,
            ),
        forall|i: int| 0 <= i < 256 ==> abs_int(#[trigger] temp@[i] as int) <= 0x4000_0000_0000,
{
    let mut temp: Vec<i128> = Vec::new();
    let mut y: usize = 0;
    while y < 32
        invariant
            y <= 32,
            gray@.len() == 1024,
            temp@.len() == y * 8,
            forall|yy: int, uu: int|
                0 <= yy < y && 1 <= uu <= 8 ==> temp@[yy * 8 + uu - 1] as int
                    == #[trigger] row_coeff(gray@, yy, uu),
            forall|i: int|
                0 <= i < temp@.len() ==> abs_int(#[trigger] temp@[i] as int) <= 0x4000_0000_0000,
        decreases 32 - y,
    {
        let mut u: usize = 1;
        while u <= 8
            invariant
                y < 32,
                1 <= u <= 9,
                gray@.len() == 1024,
                temp@.len() == y * 8 + u - 1,
                forall|yy: int, uu: int|
                    0 <= yy < y && 1 <= uu <= 8 ==> temp@[yy * 8 + uu - 1] as int
                        == #[trigger] row_coeff(gray@, yy, uu),
                forall|uu: int|
                    1 <= uu < u ==> temp@[y * 8 + uu - 1] as int == #[trigger] row_coeff(
                        gray@,
                        y as int,
                        uu,
                    ),
                forall|i: int|
                    0 <= i < temp@.len() ==> abs_int(#[trigger] temp@[i] as int)
                        <= 0x4000_0000_0000,
            decreases 9 - u,
        {
            let mut s: i128 = 0;
            let mut x: usize = 0;
            while x < 32
                invariant
                    y < 32,
                    1 <= u <= 8,
                    x <= 32,
                    gray@.len() == 1024,
                    s as int == row_partial(gray@, y as int, u as int, x as int),
                    abs_int(s as int) <= x * 2 * 0x100_0000_0000,
                decreases 32 - x,
            {
                let c = COS_SCALED[(u - 1) * 32 + x] as i128;
                let g = gray[y * 32 + x] as i128;
                proof {
                    assert(c as int == cos_q(u as int, x as int));
                    assert(abs_int(g * c) <= 0x80_0000_0000) by (nonlinear_arith)
                        requires
                            0 <= g <= 255,
                            -0x8000_0000 <= c < 0x8000_0000,
                    ;
                    lemma_round_double((g * c) as int, 0x80_0000_0000);
                }
                let p = round24_exec(g * c);
                proof {
                    lemma_acc_step(s as int, p as int, x as int, 0x100_0000_0000);
                }
                s = round24_exec(s + p);
                x = x + 1;
            }
            proof {
                assert(row_coeff(gray@, y as int, u as int) == s as int);
            }
            temp.push(s);
            u = u + 1;
        }
        y = y + 1;
    }
    temp
}

/// The 64 AC coefficients in sweep order.
fn column_pass(gray: &[u8; 1024], temp: &Vec<i128>) -> (ac: Vec<i128>)
    requires
        gray@.len() == 1024,
        temp@.len() == 256,
        forall|y: int, u: int|
            0 <= y < 32 && 1 <= u <= 8 ==> temp@[y * 8 + u - 1] as int == #[trigger] row_coeff(
                gray@,
                y,
                u,
            ),
        forall|i: int| 0 <= i < 256 ==> abs_int(#[trigger] temp@[i] as int) <= 0x4000_0000_0000,
    ensures
        ac@.len() == 64,
        forall|k: int| 0 <= k < 64 ==> #[trigger] ac@[k] as int == ac_coeff(gray@, k),
        forall|k: int|
            0 <= k < 64 ==> abs_int(#[trigger] ac@[k] as int) <= 0x100_0000_0000_0000_0000_0000,
{
    let mut ac: Vec<i128> = Vec::new();
    let mut v: usize = 1;
    while v <= 8
        invariant
            1 <= v <= 9,
            gray@.len() == 1024,
            temp@.len() == 256,
            ac@.len() == (v - 1) * 8,
            forall|y: int, u: int|
                0 <= y < 32 && 1 <= u <= 8 ==> temp@[y * 8 + u - 1] as int == #[trigger] row_coeff(
                    gray@,
                    y,
                    u,
                ),
            forall|i: int|
                0 <= i < 256 ==> abs_int(#[trigger] temp@[i] as int) <= 0x4000_0000_0000,
            forall|k: int| 0 <= k < ac@.len() ==> #[trigger] ac@[k] as int == ac_coeff(gray@, k),
            forall|k: int|
                0 <= k < ac@.len() ==> abs_int(#[trigger] ac@[k] as int)
                    <= 0x100_0000_0000_0000_0000_0000,
        decreases 9 - v,
    {
        let mut u: usize = 1;
        while u <= 8
            invariant
                1 <= v <= 8,
                1 <= u <= 9,
                gray@.len() == 1024,
                temp@.len() == 256,
                ac@.len() == (v - 1) * 8 + u - 1,
                forall|y: int, uu: int|
                    0 <= y < 32 && 1 <= uu <= 8 ==> temp@[y * 8 + uu - 1] as int
                        == #[trigger] row_coeff(gray@, y, uu),
                forall|i: int|
                    0 <= i < 256 ==> abs_int(#[trigger] temp@[i] as int) <= 0x4000_0000_0000,
                forall|k: int|
                    0 <= k < ac@.len() ==> #[trigger] ac@[k] as int == ac_coeff(gray@, k),
                forall|k: int|
                    0 <= k < ac@.len() ==> abs_int(#[trigger] ac@[k] as int)
                        <= 0x100_0000_0000_0000_0000_0000,
            decreases 9 - u,
        {
            let mut s: i128 = 0;
            let mut y: usize = 0;
            while y < 32
                invariant
                    1 <= v <= 8,
                    1 <= u <= 8,
                    y <= 32,
                    gray@.len() == 1024,
                    temp@.len() == 256,
                    forall|yy: int, uu: int|
                        0 <= yy < 32 && 1 <= uu <= 8 ==> temp@[yy * 8 + uu - 1] as int
                            == #[trigger] row_coeff(gray@, yy, uu),
                    forall|i: int|
                        0 <= i < 256 ==> abs_int(#[trigger] temp@[i] as int) <= 0x4000_0000_0000,
                    s as int == col_partial(gray@, v as int, u as int, y as int),
                    abs_int(s as int) <= y * 2 * 0x4000_0000_0000_0000_0000,
                decreases 32 - y,
            {
                let t = temp[y * 8 + u - 1];
                let c = COS_SCALED[(v - 1) * 32 + y] as i128;
                proof {
                    assert(t as int == row_coeff(gray@, y as int, u as int));
                    assert(c as int == cos_q(v as int, y as int));
                    assert(abs_int(temp@[y * 8 + u - 1] as int) <= 0x4000_0000_0000);
                    lemma_product_bound(t as int, c as int, 0x4000_0000_0000, 0x8000_0000);
                    assert(0x4000_0000_0000 * 0x8000_0000 == 0x2000_0000_0000_0000_0000int);
                    lemma_round_double((t * c) as int, 0x2000_0000_0000_0000_0000);
                }
                let p = round24_exec(t * c);
                proof {
                    lemma_acc_step(s as int, p as int, y as int, 0x4000_0000_0000_0000_0000);
                }
                s = round24_exec(s + p);
                y = y + 1;
            }
            proof {
                let k = (v - 1) * 8 + (u - 1);
                lemma_index_split((v - 1) as int, (u - 1) as int);
                assert(ac_coeff(gray@, k as int) == s as int);
            }
            ac.push(s);
            u = u + 1;
        }
        v = v + 1;
    }
    ac
}

proof fn lemma_int_leq_total()
    ensures
        total_ordering(|x: int, y: int| x <= y),
{
}

/// Sorts the coefficients ascending by insertion.
fn sorted_coefficients(ac: &Vec<i128>, Ghost(acs): Ghost<Seq<int>>) -> (s: Vec<i128>)
    requires
        ac@.len() == 64,
        acs.len() == 64,
        forall|k: int| 0 <= k < 64 ==> #[trigger] ac@[k] as int == acs[k],
        forall|k: int|
            0 <= k < 64 ==> abs_int(#[trigger] ac@[k] as int) <= 0x100_0000_0000_0000_0000_0000,
    ensures
        s@.len() == 64,
        acs.sort().len() == 64,
        forall|k: int| 0 <= k < 64 ==> #[trigger] s@[k] as int == acs.sort()[k],
        forall|k: int|
            0 <= k < 64 ==> abs_int(#[trigger] s@[k] as int) <= 0x100_0000_0000_0000_0000_0000,
{
    let mut s: Vec<i128> = Vec::new();
    let ghost mut gs: Seq<int> = Seq::empty();
    proof {
        assert(acs.take(0) =~= Seq::<int>::empty());
    }
    let mut i: usize = 0;
    while i < 64
        invariant
            i <= 64,
            ac@.len() == 64,
            acs.len() == 64,
            forall|k: int| 0 <= k < 64 ==> #[trigger] ac@[k] as int == acs[k],
            forall|k: int|
                0 <= k < 64 ==> abs_int(#[trigger] ac@[k] as int)
                    <= 0x100_0000_0000_0000_0000_0000,
            s@.len() == i,
            gs.len() == i,
            forall|k: int| 0 <= k < i ==> #[trigger] s@[k] as int == gs[k],
            forall|k: int|
                0 <= k < i ==> abs_int(#[trigger] s@[k] as int) <= 0x100_0000_0000_0000_0000_0000,
            forall|a: int, b: int| 0 <= a < b < i ==> #[trigger] gs[a] <= #[trigger] gs[b],
            gs.to_multiset() == acs.take(i as int).to_multiset(),
        decreases 64 - i,
    {
        let x = ac[i];
        let mut pos: usize = 0;
        while pos < s.len() && s[pos] <= x
            invariant
                pos <= s@.len(),
                s@.len() == gs.len(),
                forall|k: int| 0 <= k < s@.len() ==> #[trigger] s@[k] as int == gs[k],
                forall|k: int| 0 <= k < pos ==> #[trigger] gs[k] <= x as int,
            decreases s@.len() - pos,
        {
            pos = pos + 1;
        }
        proof {
            let old_gs = gs;
            gs = gs.insert(pos as int, x as int);
            to_multiset_insert(old_gs, pos as int, x as int);
            assert(acs.take(i as int + 1) =~= acs.take(i as int).push(acs[i as int]));
            to_multiset_build(acs.take(i as int), acs[i as int]);
            if pos < old_gs.len() {
                assert(old_gs[pos as int] == s@[pos as int] as int);
                assert((x as int) < old_gs[pos as int]);
            }
            assert forall|a: int, b: int| 0 <= a < b < gs.len() implies #[trigger] gs[a]
                <= #[trigger] gs[b] by {
                if b < pos {
                    assert(gs[a] == old_gs[a] && gs[b] == old_gs[b]);
                } else if b == pos {
                    assert(gs[a] == old_gs[a]);
                } else if a < pos {
                    assert(gs[a] == old_gs[a] && gs[b] == old_gs[b - 1]);
                    assert(old_gs[a] <= x as int);
                } else if a == pos {
                    assert(gs[b] == old_gs[b - 1]);
                    if pos < b - 1 {
                        assert(old_gs[pos as int] <= old_gs[b - 1]);
                    }
                } else {
                    assert(gs[a] == old_gs[a - 1] && gs[b] == old_gs[b - 1]);
                }
            }
        }
        s.insert(pos, x);
        proof {
            assert forall|k: int| 0 <= k < s@.len() implies #[trigger] s@[k] as int == gs[k] by {
            }
        }
        i = i + 1;
    }
    proof {
        assert(acs.take(64) =~= acs);
        acs.lemma_sort_ensures();
        lemma_int_leq_total();
        assert(sorted_by(gs, |x: int, y: int| x <= y));
        lemma_sorted_unique(gs, acs.sort(), |x: int, y: int| x <= y);
        assert(acs.sort().len() == 64);
    }
    s
}

proof fn lemma_set_bit(h: u64, i: u64, j: u64)
    by (bit_vector)
    requires
        i < 64,
        j < 64,
    ensures
        ((h | (1u64 << i)) >> j) & 1 == (if i == j {
            1
        } else {
            (h >> j) & 1
        }),
{
}

proof fn lemma_zero_bits(j: u64)
    by (bit_vector)
    requires
        j < 64,
    ensures
        (0u64 >> j) & 1 == 0,
{
}

/// Whether every pixel of the frame has the same value.
pub open spec fn is_uniform(g: Seq<u8>) -> bool {
    forall|i: int| 0 <= i < g.len() ==> #[trigger] g[i] == g[0]
}

/// Bit `i` of the hash of frame `g`.  A uniform frame has no AC energy, so
/// none of its bits is set; otherwise bit `i` is set exactly when AC
/// coefficient `i` lies strictly above the median.
pub open spec fn hash_bit(g: Seq<u8>, i: int) -> bool {
    !is_uniform(g) && phash_bit(g, i)
}

/// Compute a 64-bit perceptual hash from a 32×32 grayscale image (row-major,
/// 1024 bytes).  Bit `i` is set exactly when AC coefficient `i` (sweep order:
/// vertical frequency outer, horizontal inner) lies strictly above the median of
/// the 64 coefficients; a uniform frame hashes to 0.
pub fn compute_phash(gray: &[u8; 1024]) -> (h: u64)
    ensures
        forall|i: int| 0 <= i < 64 ==> (#[trigger] bit_of(h, i) <==> hash_bit(gray@, i)),
        is_uniform(gray@) ==> h == 0,
{
    proof {
        assert(gray@.len() == 1024);
    }
    let first = gray[0];
    let mut p: usize = 1;
    while p < 1024 && gray[p] == first
        invariant
            1 <= p <= 1024,
            gray@.len() == 1024,
            first == gray@[0],
            forall|k: int| 0 <= k < p ==> gray@[k] == first,
        decreases 1024 - p,
    {
        p = p + 1;
    }
    if p == 1024 {
        proof {
            assert forall|j: int| 0 <= j < 64 implies !#[trigger] bit_of(0u64, j) by {
                lemma_zero_bits(j as u64);
            }
        }
        return 0;
    }
    proof {
        assert(gray@[p as int] != gray@[0]);
        assert(!is_uniform(gray@));
    }
    let temp = row_pass(gray);
    let ac = column_pass(gray, &temp);
    let ghost acs = ac_seq(gray@);
    let s = sorted_coefficients(&ac, Ghost(acs));
    proof {
        assert(abs_int(s@[31] as int) <= 0x100_0000_0000_0000_0000_0000);
        assert(abs_int(s@[32] as int) <= 0x100_0000_0000_0000_0000_0000);
    }
    let m = round24_exec(s[31] + s[32]);
    proof {
        assert(s@[31] as int == acs.sort()[31]);
        assert(s@[32] as int == acs.sort()[32]);
        assert(m as int == median_twice(gray@));
    }
    let mut h: u64 = 0;
    proof {
        assert forall|j: int| 0 <= j < 64 implies !#[trigger] bit_of(h, j) by {
            lemma_zero_bits(j as u64);
        }
    }
    let mut i: usize = 0;
    while i < 64
        invariant
            i <= 64,
            ac@.len() == 64,
            forall|k: int| 0 <= k < 64 ==> #[trigger] ac@[k] as int == ac_coeff(gray@, k),
            forall|k: int|
                0 <= k < 64 ==> abs_int(#[trigger] ac@[k] as int) <= 0x100_0000_0000_0000_0000_0000,
            m as int == median_twice(gray@),
            !is_uniform(gray@),
            forall|j: int| 0 <= j < i ==> (#[trigger] bit_of(h, j) <==> hash_bit(gray@, j)),
            forall|j: int| i <= j < 64 ==> !#[trigger] bit_of(h, j),
        decreases 64 - i,
    {
        let a = ac[i];
        proof {
            assert(abs_int(ac@[i as int] as int) <= 0x100_0000_0000_0000_0000_0000);
        }
        if 2 * a > m {
            let old_h = h;
            h = h | (1u64 << (i as u64));
            proof {
                assert forall|j: int| 0 <= j < 64 implies #[trigger] bit_of(h, j) == (if j == i {
                    true
                } else {
                    bit_of(old_h, j)
                }) by {
                    lemma_set_bit(old_h, i as u64, j as u64);
                }
            }
        }
        i = i + 1;
    }
    h
}


/// Number of bit positions below `n` at which `a` and `b` differ.
pub open spec fn diff_bits(a: u64, b: u64, n: int) -> nat
    decreases n,
{
    if n <= 0 {
        0
    } else {
        diff_bits(a, b, n - 1) + if bit_of(a, n - 1) != bit_of(b, n - 1) {
            1nat
        } else {
            0nat
        }
    }
}

proof fn lemma_xor_bit(a: u64, b: u64, j: u64)
    by (bit_vector)
    requires
        j < 64,
    ensures
        ((a ^ b) >> j) & 1 == 1 <==> (((a >> j) & 1 == 1) != ((b >> j) & 1 == 1)),
{
}

/// Hamming distance between two pHash values: the number of bit positions at
/// which they differ.
pub fn hamming(a: u64, b: u64) -> (r: u32)
    ensures
        r == diff_bits(a, b, 64),
        r <= 64,
{
    let x = a ^ b;
    let mut count: u32 = 0;
    let mut i: u64 = 0;
    while i < 64
        invariant
            i <= 64,
            x == a ^ b,
            count == diff_bits(a, b, i as int),
            count <= i,
        decreases 64 - i,
    {
        proof {
            lemma_xor_bit(a, b, i);
        }
        if (x >> i) & 1 == 1 {
            count = count + 1;
        }
        i = i + 1;
    }
    count
}

proof fn lemma_diff_bits_facts(a: u64, b: u64, c: u64, n: int)
    requires
        0 <= n,
    ensures
        diff_bits(a, b, n) == diff_bits(b, a, n),
        diff_bits(a, a, n) == 0,
        diff_bits(a, c, n) <= diff_bits(a, b, n) + diff_bits(b, c, n),
        diff_bits(a, b, n) <= n,
    decreases n,
{
    if n > 0 {
        lemma_diff_bits_facts(a, b, c, n - 1);
    }
}

/// The Hamming distance is a metric on 64-bit hashes: it is zero on equal
/// arguments, symmetric, bounded by 64, and satisfies the triangle
/// inequality.
pub proof fn lemma_hamming_metric(a: u64, b: u64, c: u64)
    ensures
        diff_bits(a, a, 64) == 0,
        diff_bits(a, b, 64) == diff_bits(b, a, 64),
        diff_bits(a, b, 64) <= 64,
        diff_bits(a, c, 64) <= diff_bits(a, b, 64) + diff_bits(b, c, 64),
{
    lemma_diff_bits_facts(a, b, c, 64);
}

/// Two hashes at distance zero are equal.
pub proof fn lemma_hamming_zero_iff_equal(a: u64, b: u64)
    ensures
        diff_bits(a, b, 64) == 0 <==> a == b,
{
    lemma_diff_bits_facts(a, b, b, 64);
    if diff_bits(a, b, 64) == 0 {
        lemma_no_diff_bits(a, b, 64);
        assert forall|j: u64| j < 64 implies ((a >> j) & 1) == ((b >> j) & 1) by {
            assert(bit_of(a, j as int) == bit_of(b, j as int));
            lemma_bit_is_one_or_zero(a, j);
            lemma_bit_is_one_or_zero(b, j);
        }
        lemma_equal_bits_equal(a, b);
    }
}

proof fn lemma_no_diff_bits(a: u64, b: u64, n: int)
    requires
        0 <= n <= 64,
        diff_bits(a, b, n) == 0,
    ensures
        forall|j: int| 0 <= j < n ==> bit_of(a, j) == bit_of(b, j),
    decreases n,
{
    if n > 0 {
        lemma_no_diff_bits(a, b, n - 1);
    }
}

proof fn lemma_bit_is_one_or_zero(a: u64, j: u64)
    by (bit_vector)
    requires
        j < 64,
    ensures
        (a >> j) & 1 == 0 || (a >> j) & 1 == 1,
{
}

proof fn lemma_shift_step(a: u64, b: u64, j: u64, i: u64)
    by (bit_vector)
    requires
        i < 63,
        j == i + 1,
        a >> j == b >> j,
        (a >> i) & 1 == (b >> i) & 1,
    ensures
        a >> i == b >> i,
{
}

proof fn lemma_top_bit(a: u64, b: u64)
    by (bit_vector)
    requires
        (a >> 63u64) & 1 == (b >> 63u64) & 1,
    ensures
        a >> 63u64 == b >> 63u64,
{
}

proof fn lemma_shift_zero(a: u64)
    by (bit_vector)
    ensures
        a >> 0u64 == a,
{
}

proof fn lemma_equal_from(a: u64, b: u64, j: u64)
    requires
        j < 64,
        forall|k: u64| k < 64 ==> #[trigger] ((a >> k) & 1) == ((b >> k) & 1),
    ensures
        a >> j == b >> j,
    decreases 64 - j,
{
    if j == 63 {
        lemma_top_bit(a, b);
    } else {
        lemma_equal_from(a, b, (j + 1) as u64);
        assert(((a >> j) & 1) == ((b >> j) & 1));
        lemma_shift_step(a, b, (j + 1) as u64, j);
    }
}

proof fn lemma_equal_bits_equal(a: u64, b: u64)
    requires
        forall|j: u64| j < 64 ==> #[trigger] ((a >> j) & 1) == ((b >> j) & 1),
    ensures
        a == b,
{
    lemma_equal_from(a, b, 0);
    lemma_shift_zero(a);
    lemma_shift_zero(b);
}

} // verus!
