//! Rounding a quotient to the nearest integer.
//!
//! One policy serves every shape: a position is rounded to the nearest integer,
//! and a position exactly halfway between two integers goes to the one further
//! from zero (2.5 to 3, -2.5 to -3).

use vstd::prelude::*;
use vstd::arithmetic::div_mod::{
    lemma_fundamental_div_mod,
    lemma_fundamental_div_mod_converse,
    lemma_mod_bound,
    lemma_mod_multiples_basic,
};

verus! {

/// The integer nearest to `n / d`, for a positive `d`; halves go away from
/// zero.
pub open spec fn nearest(n: int, d: int) -> int {
    if n >= 0 {
        (2 * n + d) / (2 * d)
    } else {
        -((d - 2 * n) / (2 * d))
    }
}

/// What rounding adds to the whole part `q` of a position `q + r / d`, where
/// `0 <= r < d`: 1 if the position rounds up, else 0.
pub open spec fn carry(q: int, r: int, d: int) -> int {
    if 2 * r > d || (2 * r == d && q >= 0) {
        1
    } else {
        0
    }
}

/// A number given as whole part and remainder rounds to the whole part plus
/// its carry.
pub proof fn lemma_nearest_of_parts(n: int, d: int, q: int, r: int)
    requires
        d > 0,
        0 <= r < d,
        n == q * d + r,
    ensures
        nearest(n, d) == q + carry(q, r, d),
{
    assert(n >= 0 <==> q >= 0) by (nonlinear_arith)
        requires
            d > 0,
            0 <= r < d,
            n == q * d + r,
    ;
    if n >= 0 {
        if 2 * r >= d {
            assert(2 * n + d == (q + 1) * (2 * d) + (2 * r - d)) by (nonlinear_arith)
                requires
                    n == q * d + r,
            ;
            lemma_fundamental_div_mod_converse(2 * n + d, 2 * d, q + 1, 2 * r - d);
        } else {
            assert(2 * n + d == q * (2 * d) + (2 * r + d)) by (nonlinear_arith)
                requires
                    n == q * d + r,
            ;
            lemma_fundamental_div_mod_converse(2 * n + d, 2 * d, q, 2 * r + d);
        }
    } else {
        if 2 * r > d {
            assert(d - 2 * n == (-q - 1) * (2 * d) + (3 * d - 2 * r)) by (nonlinear_arith)
                requires
                    n == q * d + r,
            ;
            lemma_fundamental_div_mod_converse(d - 2 * n, 2 * d, -q - 1, 3 * d - 2 * r);
        } else {
            assert(d - 2 * n == (-q) * (2 * d) + (d - 2 * r)) by (nonlinear_arith)
                requires
                    n == q * d + r,
            ;
            lemma_fundamental_div_mod_converse(d - 2 * n, 2 * d, -q, d - 2 * r);
        }
    }
}

/// A number between `a * d` and `b * d` has its whole part between `a` and
/// `b`, and no remainder where the whole part is `b`.
pub proof fn lemma_parts_between(a: int, b: int, n: int, d: int, q: int, r: int)
    requires
        d > 0,
        0 <= r < d,
        n == q * d + r,
        a * d <= n <= b * d,
    ensures
        a <= q <= b,
        q == b ==> r == 0,
{
    assert(a <= q) by (nonlinear_arith)
        requires
            d > 0,
            r < d,
            a * d <= q * d + r,
    ;
    assert(q <= b && (q == b ==> r == 0)) by (nonlinear_arith)
        requires
            d > 0,
            0 <= r,
            q * d + r <= b * d,
    ;
}

/// Rounding is exact on whole numbers.
pub proof fn lemma_nearest_exact(k: int, d: int)
    requires
        d > 0,
    ensures
        nearest(k * d, d) == k,
{
    lemma_nearest_of_parts(k * d, d, k, 0);
}

/// Rounding does not leave the interval between two whole numbers.
pub proof fn lemma_nearest_between(a: int, b: int, n: int, d: int)
    requires
        d > 0,
        a * d <= n <= b * d,
    ensures
        a <= nearest(n, d) <= b,
{
    let q = n / d;
    let r = n % d;
    lemma_fundamental_div_mod(n, d);
    lemma_mod_bound(n, d);
    assert(n == q * d + r) by (nonlinear_arith)
        requires
            n == d * q + r,
    ;
    lemma_nearest_of_parts(n, d, q, r);
    lemma_parts_between(a, b, n, d, q, r);
}

/// Rounding moves a position by half a unit at most.
pub proof fn lemma_nearest_close(n: int, d: int)
    requires
        d > 0,
    ensures
        -d <= 2 * (d * nearest(n, d) - n) <= d,
{
    let q = n / d;
    let r = n % d;
    lemma_fundamental_div_mod(n, d);
    lemma_mod_bound(n, d);
    assert(n == q * d + r) by (nonlinear_arith)
        requires
            n == d * q + r,
    ;
    lemma_nearest_of_parts(n, d, q, r);
    let c = carry(q, r, d);
    assert(d * (q + c) - n == c * d - r) by (nonlinear_arith)
        requires
            n == q * d + r,
    ;
}

/// Two positions less than one unit apart round to the same number or to
/// two numbers next to each other, and so do two whole positions one unit
/// apart.
pub proof fn lemma_nearest_step(n: int, e: int, d: int)
    requires
        d > 0,
        -d <= e <= d,
        e == d || e == -d ==> n % d == 0,
    ensures
        -1 <= nearest(n + e, d) - nearest(n, d) <= 1,
{
    let here = nearest(n, d);
    let there = nearest(n + e, d);
    if e == d || e == -d {
        let k = n / d;
        lemma_fundamental_div_mod(n, d);
        assert(n == k * d && n + d == (k + 1) * d && n - d == (k - 1) * d) by (nonlinear_arith)
            requires
                n == d * k,
        ;
        lemma_nearest_exact(k, d);
        lemma_nearest_exact(k + 1, d);
        lemma_nearest_exact(k - 1, d);
    } else {
        lemma_nearest_close(n, d);
        lemma_nearest_close(n + e, d);
        assert(-2 < there - here < 2) by (nonlinear_arith)
            requires
                d > 0,
                -d < e < d,
                -d <= 2 * (d * here - n) <= d,
                -d <= 2 * (d * there - (n + e)) <= d,
        ;
    }
}

/// A whole position has no remainder.
pub proof fn lemma_whole_position(k: int, d: int)
    requires
        d > 0,
    ensures
        (k * d) % d == 0,
{
    lemma_mod_multiples_basic(k, d);
}

/// The rounded value of the position `q + r / d`.
pub(crate) fn rounded(q: i64, r: i64, d: i64) -> (v: i64)
    requires
        0 <= r < d <= 0x1_0000_0000,
        q < 0x1_0000_0000,
    ensures
        v == q + carry(q as int, r as int, d as int),
{
    if 2 * r > d || (2 * r == d && q >= 0) {
        q + 1
    } else {
        q
    }
}

} // verus!
