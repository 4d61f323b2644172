//! Rounding of exact dyadic values to a binary floating-point significand.
//!
//! A binary floating-point value whose exact value is an integer multiple of a
//! fixed power of two can be held as that integer.  Scaling by a power of two
//! does not change which significand is nearest, so round-to-nearest-even
//! becomes an operation on integers: keep the leading bits, round the rest to
//! nearest, and break a tie towards an even significand.  A significand limit
//! `lim` (2^24 for binary32, 2^53 for binary64) gives the number of bits kept.

use vstd::arithmetic::div_mod::{lemma_div_denominator, lemma_fundamental_div_mod};
use vstd::prelude::*;

verus! {

/// 2^24: one more than the largest binary32 significand.
pub open spec fn sig_limit() -> nat {
    0x100_0000
}

/// The power of two by which `a` has to be divided so that the quotient is
/// below `lim`.
pub open spec fn scale_sig(a: nat, lim: nat) -> nat
    decreases a,
{
    if a < lim || lim < 2 {
        1
    } else {
        2 * scale_sig(a / 2, lim)
    }
}

/// `a / p` rounded to the nearest integer, ties to the even one.
pub open spec fn rne_div(a: nat, p: nat) -> nat {
    let q = a / p;
    let r = a % p;
    if 2 * r > p || (2 * r == p && q % 2 == 1) {
        q + 1
    } else {
        q
    }
}

/// The magnitude `a` rounded to a significand below `lim`, ties to even.
pub open spec fn round_sig_nat(a: nat, lim: nat) -> nat {
    rne_div(a, scale_sig(a, lim)) * scale_sig(a, lim)
}

/// The magnitude `a` rounded to 24 significant bits, ties to even.
pub open spec fn round24_nat(a: nat) -> nat {
    round_sig_nat(a, sig_limit())
}

/// Round-to-nearest-even of a scaled value to 24 significant bits; the sign is
/// kept, as binary32 rounding is symmetric.
pub open spec fn round24(x: int) -> int {
    if x >= 0 {
        round24_nat(x as nat) as int
    } else {
        -(round24_nat((-x) as nat) as int)
    }
}

proof fn lemma_scale_facts(a: nat, lim: nat)
    requires
        lim >= 2,
        lim % 2 == 0,
    ensures
        scale_sig(a, lim) >= 1,
        a < lim ==> scale_sig(a, lim) == 1,
        a >= lim ==> scale_sig(a, lim) >= 2,
        a >= lim ==> lim / 2 <= a / scale_sig(a, lim) < lim,
        a < lim ==> a / scale_sig(a, lim) == a,
    decreases a,
{
    if a >= lim {
        let h = a / 2;
        lemma_scale_facts(h, lim);
        let s = scale_sig(h, lim);
        assert(scale_sig(a, lim) == 2 * s);
        lemma_div_denominator(a as int, 2, s as int);
        assert((a / 2) / s == a / (2 * s));
        if h < lim {
            assert(s == 1);
            assert(a / scale_sig(a, lim) == h);
        }
    }
}

/// Facts that bound the rounded magnitude.
proof fn lemma_round_sig_bounds(a: nat, lim: nat)
    requires
        lim >= 2,
        lim % 2 == 0,
    ensures
        a < lim ==> round_sig_nat(a, lim) == a,
        round_sig_nat(a, lim) * (lim / 2) <= a * (lim / 2 + 1),
        round_sig_nat(a, lim) <= 2 * a,
{
    lemma_scale_facts(a, lim);
    let p = scale_sig(a, lim);
    let q = a / p;
    let r = a % p;
    let h = lim / 2;
    lemma_fundamental_div_mod(a as int, p as int);
    assert(a == p * q + r);
    assert(0 <= r < p);
    if a < lim {
        assert(p == 1);
        assert(q == a);
        assert(r == 0);
        assert(rne_div(a, p) == a);
        assert(a * h <= a * (h + 1)) by (nonlinear_arith)
            requires
                h >= 1,
        ;
    } else {
        assert(h <= q);
        let rq = rne_div(a, p);
        assert(rq <= q + 1);
        assert(round_sig_nat(a, lim) == rq * p);
        assert(p * h <= p * q) by (nonlinear_arith)
            requires
                h <= q,
                p >= 1,
        ;
        assert(rq * p <= q * p + p) by (nonlinear_arith)
            requires
                rq <= q + 1,
                p >= 1,
        ;
        assert(rq * p * h <= a * (h + 1)) by (nonlinear_arith)
            requires
                rq * p <= q * p + p,
                p * h <= p * q,
                a == p * q + r,
                r >= 0,
                h >= 1,
        ;
        assert(rq * p <= 2 * a) by (nonlinear_arith)
            requires
                rq * p <= q * p + p,
                p * h <= p * q,
                a == p * q + r,
                r >= 0,
                h >= 1,
        ;
    }
}

/// Facts that bound the rounded binary32 magnitude.
pub proof fn lemma_round24_nat_bounds(a: nat)
    ensures
        a < sig_limit() ==> round24_nat(a) == a,
        round24_nat(a) * 0x80_0000 <= a * 0x80_0001,
{
    lemma_round_sig_bounds(a, sig_limit());
}

/// A bound on the magnitude of a rounded value: rounding enlarges a
/// magnitude by at most one part in 2^23.
pub proof fn lemma_round24_bound(x: int)
    ensures
        x >= 0 ==> round24(x) >= 0,
        x <= 0 ==> round24(x) <= 0,
        abs_int(round24(x)) * 0x80_0000 <= abs_int(x) * 0x80_0001,
        abs_int(x) < sig_limit() ==> round24(x) == x,
{
    if x >= 0 {
        lemma_round24_nat_bounds(x as nat);
    } else {
        lemma_round24_nat_bounds((-x) as nat);
    }
}

pub open spec fn abs_int(x: int) -> int {
    if x >= 0 {
        x
    } else {
        -x
    }
}

fn scale_exec(a: u128, lim: u128) -> (p: u128)
    requires
        lim >= 2,
        lim % 2 == 0,
    ensures
        p == scale_sig(a as nat, lim as nat),
        p >= 1,
        a >= lim ==> p * (lim / 2) <= a,
    decreases a,
{
    proof {
        lemma_scale_facts(a as nat, lim as nat);
    }
    if a < lim {
        1
    } else {
        let s = scale_exec(a / 2, lim);
        proof {
            lemma_scale_facts((a / 2) as nat, lim as nat);
            lemma_fundamental_div_mod(a as int, scale_sig(a as nat, lim as nat) as int);
            let p = scale_sig(a as nat, lim as nat);
            let q = (a as nat) / p;
            let h = (lim / 2) as nat;
            assert(p * h <= p * q) by (nonlinear_arith)
                requires
                    h <= q,
                    p >= 1,
            ;
            assert(p * q <= a) by (nonlinear_arith)
                requires
                    a == p * q + (a as nat) % p,
                    (a as nat) % p >= 0,
            ;
            assert(p <= a) by (nonlinear_arith)
                requires
                    p * h <= a,
                    h >= 1,
            ;
            assert(p == 2 * s);
        }
        2 * s
    }
}

/// Round the magnitude `a` to a significand below `lim`, ties to even.
pub fn round_sig_exec(a: u128, lim: u128) -> (r: u128)
    requires
        lim >= 2,
        lim % 2 == 0,
        a < 0x8000_0000_0000_0000_0000_0000_0000_0000,
    ensures
        r == round_sig_nat(a as nat, lim as nat),
        r <= 2 * a,
{
    let p = scale_exec(a, lim);
    let q = a / p;
    let rem = a % p;
    proof {
        lemma_scale_facts(a as nat, lim as nat);
        lemma_round_sig_bounds(a as nat, lim as nat);
        if a >= lim {
            assert(p <= a) by (nonlinear_arith)
                requires
                    p * (lim / 2) <= a,
                    lim / 2 >= 1,
            ;
        }
        assert(rem < p);
        assert(rem <= a);
    }
    let rq: u128 = if 2 * rem > p || (2 * rem == p && q % 2 == 1) {
        q + 1
    } else {
        q
    };
    proof {
        assert(rq == rne_div(a as nat, p as nat));
    }
    rq * p
}

/// Round a scaled value to 24 significant bits, ties to even.
pub fn round24_exec(x: i128) -> (r: i128)
    requires
        -0x1000_0000_0000_0000_0000_0000_0000_0000 < x < 0x1000_0000_0000_0000_0000_0000_0000_0000,
    ensures
        r == round24(x as int),
{
    let a: u128 = if x >= 0 {
        x as u128
    } else {
        (-x) as u128
    };
    let m = round_sig_exec(a, 0x100_0000);
    if x >= 0 {
        m as i128
    } else {
        -(m as i128)
    }
}

} // verus!
