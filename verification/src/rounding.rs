//! Rounding division: the engine rounds every computed share to the nearest
//! cent, halves away from zero, which on cents is division of exact numerators
//! by the divisor with round-half-away-from-zero.

use vstd::prelude::*;
use vstd::arithmetic::div_mod::{lemma_fundamental_div_mod, lemma_mod_bound};

verus! {

/// Largest magnitude the executable rounding division accepts, comfortably
/// above every numerator the engine forms and far below `i128::MAX`.
pub const ROUND_DIV_BOUND: i128 = 1_000_000_000_000_000_000_000_000_000_000;

/// `a / b` rounded to the nearest integer, halves away from zero.
/// Meaningful for `b >= 1`.
pub open spec fn round_div(a: int, b: int) -> int
    recommends
        b >= 1,
{
    if a >= 0 {
        (2 * a + b) / (2 * b)
    } else {
        -((2 * (-a) + b) / (2 * b))
    }
}

/// The rounded quotient is within half of `b` of the exact quotient:
/// `|a - b * round_div(a, b)| <= b / 2`, stated without division.
pub proof fn lemma_round_div_close(a: int, b: int)
    requires
        b >= 1,
    ensures
        -b <= 2 * (a - b * round_div(a, b)),
        2 * (a - b * round_div(a, b)) <= b,
{
    if a >= 0 {
        let q = (2 * a + b) / (2 * b);
        let r = (2 * a + b) % (2 * b);
        lemma_fundamental_div_mod(2 * a + b, 2 * b);
        lemma_mod_bound(2 * a + b, 2 * b);
        assert((2 * b) * q == 2 * (b * q)) by (nonlinear_arith);
        assert(2 * (a - b * q) == r - b);
    } else {
        let m = -a;
        let q = (2 * m + b) / (2 * b);
        let r = (2 * m + b) % (2 * b);
        lemma_fundamental_div_mod(2 * m + b, 2 * b);
        lemma_mod_bound(2 * m + b, 2 * b);
        assert((2 * b) * q == 2 * (b * q)) by (nonlinear_arith);
        assert(round_div(a, b) == -q);
        assert(b * -q == -(b * q)) by (nonlinear_arith);
        assert(2 * (a - b * (-q)) == b - r);
    }
}

/// A bound on the numerator bounds the rounded quotient:
/// `|a| <= c * b` gives `|round_div(a, b)| <= c`.
pub proof fn lemma_round_div_bound(a: int, b: int, c: int)
    requires
        b >= 1,
        c >= 0,
        -(c * b) <= a,
        a <= c * b,
    ensures
        -c <= round_div(a, b),
        round_div(a, b) <= c,
{
    lemma_round_div_close(a, b);
    let q = round_div(a, b);
    assert(-c <= q && q <= c) by (nonlinear_arith)
        requires
            b >= 1,
            c >= 0,
            -(c * b) <= a,
            a <= c * b,
            -b <= 2 * (a - b * q),
            2 * (a - b * q) <= b;
}

/// A non-negative numerator gives a rounded quotient between 0 and itself.
pub proof fn lemma_round_div_range(a: int, b: int)
    requires
        b >= 1,
        a >= 0,
    ensures
        0 <= round_div(a, b),
        round_div(a, b) <= a,
{
    assert(a <= a * b && -(a * b) <= a) by (nonlinear_arith)
        requires
            b >= 1,
            a >= 0;
    lemma_round_div_bound(a, b, a);
}

/// When `b` divides `a`, rounding changes nothing.
pub proof fn lemma_round_div_exact(a: int, b: int)
    requires
        b >= 1,
        a % b == 0,
    ensures
        round_div(a, b) == a / b,
{
    lemma_round_div_close(a, b);
    lemma_fundamental_div_mod(a, b);
    let d = a / b;
    let q = round_div(a, b);
    assert(d == q) by (nonlinear_arith)
        requires
            b >= 1,
            a == b * d,
            -b <= 2 * (a - b * q),
            2 * (a - b * q) <= b;
}

/// `a / b` rounded to the nearest integer, halves away from zero.
pub fn round_div_exec(a: i128, b: i128) -> (r: i128)
    requires
        1 <= b <= ROUND_DIV_BOUND,
        -ROUND_DIV_BOUND <= a <= ROUND_DIV_BOUND,
    ensures
        r == round_div(a as int, b as int),
{
    let neg: bool = a < 0;
    let mag: u128 = if neg {
        (-a) as u128
    } else {
        a as u128
    };
    let bu: u128 = b as u128;
    let q: u128 = (2 * mag + bu) / (2 * bu);
    proof {
        lemma_round_div_range(mag as int, b as int);
        assert(q == round_div(mag as int, b as int));
    }
    let qi: i128 = q as i128;
    if neg {
        -qi
    } else {
        qi
    }
}

} // verus!
