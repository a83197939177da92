//! Fixed-point scalar arithmetic: truncating division, integer square root,
//! and the bounds that keep every computation inside machine integers.

use vstd::prelude::*;
use vstd::arithmetic::div_mod::{
    lemma_div_is_ordered, lemma_div_nonincreasing, lemma_div_pos_is_pos,
};

verus! {

/// Number of fixed-point units per whole geometric unit: every coordinate,
/// radius and ray parameter is an integer count of millionths.
pub const SCALE: i64 = 1_000_000;

/// Largest coordinate magnitude (in fixed-point units) the library accepts;
/// the bound is what lets every intermediate product fit in machine integers.
pub const MAX_COORD: i64 = 100_000_000;

/// Truncating (round-toward-zero) division, the rounding rule every
/// fixed-point operation of this library follows.
pub open spec fn tdiv(p: int, q: int) -> int {
    if p >= 0 {
        p / q
    } else {
        -((-p) / q)
    }
}

/// `s` is the integer square root of `n`: the floor of the real square root.
pub open spec fn is_sqrt(n: int, s: int) -> bool {
    0 <= s && s * s <= n && n < (s + 1) * (s + 1)
}

/// The integer square root of `n` (meaningful for `n >= 0`, where it exists
/// and is unique).
pub open spec fn sqrt_floor(n: int) -> int {
    choose|s: int| is_sqrt(n, s)
}

/// Truncating division by a positive divisor never grows a magnitude bound:
/// if `|p| <= b` then `|tdiv(p, q)| <= b / q <= b`.
pub proof fn lemma_tdiv_mag(p: int, q: int, b: int)
    requires
        q >= 1,
        -b <= p <= b,
    ensures
        -(b / q) <= tdiv(p, q) <= b / q,
        0 <= b / q <= b,
{
    lemma_div_pos_is_pos(b, q);
    lemma_div_nonincreasing(b, q);
    if p >= 0 {
        lemma_div_is_ordered(p, b, q);
        lemma_div_pos_is_pos(p, q);
    } else {
        lemma_div_is_ordered(-p, b, q);
        lemma_div_pos_is_pos(-p, q);
    }
}

/// Truncating division by a positive divisor is monotone in the numerator.
pub proof fn lemma_tdiv_ordered(p1: int, p2: int, q: int)
    requires
        q >= 1,
        p1 <= p2,
    ensures
        tdiv(p1, q) <= tdiv(p2, q),
{
    if p1 >= 0 {
        lemma_div_is_ordered(p1, p2, q);
    } else if p2 >= 0 {
        lemma_div_pos_is_pos(-p1, q);
        lemma_div_pos_is_pos(p2, q);
    } else {
        lemma_div_is_ordered(-p2, -p1, q);
    }
}

/// Squaring after truncating division loses less than one divisor's worth:
/// `(q * tdiv(p, q))^2` never exceeds `p^2` and falls short of it by at
/// most `2 * q * |p|`.
pub proof fn lemma_tdiv_sq(p: int, q: int)
    requires
        q >= 1,
    ensures
        0 <= p * p - (q * tdiv(p, q)) * (q * tdiv(p, q)),
        p * p - (q * tdiv(p, q)) * (q * tdiv(p, q)) <= 2 * q * (if p >= 0 {
            p
        } else {
            -p
        }),
{
    if p >= 0 {
        vstd::arithmetic::div_mod::lemma_fundamental_div_mod(p, q);
        vstd::arithmetic::div_mod::lemma_mod_division_less_than_divisor(p, q);
        lemma_div_pos_is_pos(p, q);
        let d = p / q;
        let m = p % q;
        assert(p * p - (q * d) * (q * d) == m * (2 * p - m) && 0 <= m * (2 * p - m) && m * (2
            * p - m) <= 2 * q * p) by (nonlinear_arith)
            requires
                0 <= m < q,
                p == q * d + m,
                d >= 0,
                q >= 1,
                p >= 0,
        ;
    } else {
        vstd::arithmetic::div_mod::lemma_fundamental_div_mod(-p, q);
        vstd::arithmetic::div_mod::lemma_mod_division_less_than_divisor(-p, q);
        lemma_div_pos_is_pos(-p, q);
        let d = (-p) / q;
        let m = (-p) % q;
        assert(tdiv(p, q) == -d);
        assert(p * p - (q * (-d)) * (q * (-d)) == m * (2 * (-p) - m) && 0 <= m * (2 * (-p)
            - m) && m * (2 * (-p) - m) <= 2 * q * (-p)) by (nonlinear_arith)
            requires
                0 <= m < q,
                -p == q * d + m,
                d >= 0,
                q >= 1,
                p < 0,
        ;
    }
}

/// The integer square root is unique.
pub proof fn lemma_sqrt_unique(n: int, s1: int, s2: int)
    requires
        is_sqrt(n, s1),
        is_sqrt(n, s2),
    ensures
        s1 == s2,
{
    if s1 < s2 {
        assert((s1 + 1) * (s1 + 1) <= s2 * s2) by (nonlinear_arith)
            requires
                0 <= s1,
                s1 < s2,
        ;
    } else if s2 < s1 {
        assert((s2 + 1) * (s2 + 1) <= s1 * s1) by (nonlinear_arith)
            requires
                0 <= s2,
                s2 < s1,
        ;
    }
}

/// Magnitude bounds multiply: `|x| <= bx` and `|y| <= by` bound `|x * y|`
/// by `bx * by`.
pub proof fn lemma_mul_mag(x: int, bx: int, y: int, by: int)
    requires
        -bx <= x <= bx,
        -by <= y <= by,
    ensures
        -(bx * by) <= x * y <= bx * by,
{
    if x >= 0 {
        if y >= 0 {
            assert(0 <= x * y <= bx * by) by (nonlinear_arith)
                requires
                    0 <= x <= bx,
                    0 <= y <= by,
            ;
        } else {
            assert(-(bx * by) <= x * y <= 0) by (nonlinear_arith)
                requires
                    0 <= x <= bx,
                    -by <= y <= 0,
            ;
        }
    } else {
        if y >= 0 {
            assert(-(bx * by) <= x * y <= 0) by (nonlinear_arith)
                requires
                    -bx <= x <= 0,
                    0 <= y <= by,
            ;
        } else {
            assert(0 <= x * y <= bx * by) by (nonlinear_arith)
                requires
                    -bx <= x <= 0,
                    -by <= y <= 0,
            ;
        }
    }
}

/// Every nonnegative integer has an integer square root.
pub proof fn lemma_sqrt_exists(n: int)
    requires
        0 <= n,
    ensures
        is_sqrt(n, sqrt_floor(n)),
    decreases n,
{
    if n == 0 {
        assert(is_sqrt(0, 0));
    } else {
        lemma_sqrt_exists(n - 1);
        let s = sqrt_floor(n - 1);
        if (s + 1) * (s + 1) <= n {
            assert(n == (s + 1) * (s + 1));
            assert((s + 1) * (s + 1) < (s + 2) * (s + 2)) by (nonlinear_arith)
                requires
                    0 <= s,
            ;
            assert(is_sqrt(n, s + 1));
        } else {
            assert(is_sqrt(n, s));
        }
    }
    assert(exists|s: int| is_sqrt(n, s));
}

/// Any witness of `is_sqrt` is the `sqrt_floor`.
pub proof fn lemma_sqrt_floor_is(n: int, s: int)
    requires
        is_sqrt(n, s),
    ensures
        sqrt_floor(n) == s,
{
    assert(is_sqrt(n, sqrt_floor(n)));
    lemma_sqrt_unique(n, sqrt_floor(n), s);
}

/// Truncating division of machine integers, the exact executable
/// counterpart of `tdiv`.
pub fn div_trunc(p: i128, q: i128) -> (r: i128)
    requires
        1 <= q,
        i128::MIN < p,
    ensures
        r == tdiv(p as int, q as int),
{
    if p >= 0 {
        let d: u128 = (p as u128) / (q as u128);
        proof {
            lemma_div_nonincreasing(p as int, q as int);
            lemma_div_pos_is_pos(p as int, q as int);
        }
        d as i128
    } else {
        let m: u128 = ((-p) as u128) / (q as u128);
        proof {
            lemma_div_nonincreasing(-p as int, q as int);
            lemma_div_pos_is_pos(-p as int, q as int);
        }
        -(m as i128)
    }
}

/// Integer square root by bisection.
pub fn isqrt(n: u128) -> (r: u128)
    requires
        n < 0x10000000000000000000000000,
    ensures
        is_sqrt(n as int, r as int),
        r == sqrt_floor(n as int),
{
    let mut lo: u128 = 0;
    let mut hi: u128 = 0x4000000000000;
    proof {
        assert(hi * hi == 0x10000000000000000000000000) by (nonlinear_arith)
            requires
                hi == 0x4000000000000,
        ;
    }
    while lo + 1 < hi
        invariant
            0 <= lo < hi <= 0x4000000000000,
            lo * lo <= n,
            n < hi * hi,
        decreases hi - lo,
    {
        let mid: u128 = lo + (hi - lo) / 2;
        proof {
            assert(lo < mid < hi);
            assert(mid * mid < 0x10000000000000000000000000) by (nonlinear_arith)
                requires
                    0 <= mid,
                    mid < 0x4000000000000,
            ;
        }
        if mid * mid <= n {
            lo = mid;
        } else {
            hi = mid;
        }
    }
    proof {
        lemma_sqrt_floor_is(n as int, lo as int);
    }
    lo
}

/// Fixed-point quotient: divides two fixed-point scalars by a positive
/// divisor, truncating toward zero.
pub fn fxdiv(a: i64, b: i64) -> (r: i64)
    requires
        1 <= b,
        i64::MIN <= tdiv(a as int * SCALE as int, b as int) <= i64::MAX,
    ensures
        r == tdiv(a as int * SCALE as int, b as int),
{
    proof {
        lemma_mul_mag(a as int, 0x8000000000000000, SCALE as int, 0x8000000000000000);
    }
    let p: i128 = (a as i128) * (SCALE as i128);
    let d: i128 = div_trunc(p, b as i128);
    d as i64
}

} // verus!
