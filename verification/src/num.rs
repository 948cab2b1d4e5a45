//! Truncating integer division (the machine's signed division, which rounds
//! toward zero) and the bounds the drawing code needs of it.

use vstd::prelude::*;

verus! {

/// Integer division rounding toward zero, for positive divisors: what the
/// machine's signed division computes.
pub open spec fn tdiv(a: int, b: int) -> int {
    if a >= 0 {
        a / b
    } else {
        -((-a) / b)
    }
}

/// Truncating division of `a` by a positive `b`.
pub fn div_trunc(a: i64, b: i64) -> (q: i64)
    requires
        b > 0,
        a > i64::MIN,
    ensures
        q == tdiv(a as int, b as int),
{
    if a >= 0 {
        a / b
    } else {
        -((-a) / b)
    }
}

/// Truncating division shrinks toward zero: a bound on the dividend gives
/// the same bound, scaled down, on the quotient.
pub proof fn lemma_tdiv_bound(a: int, b: int, m: int)
    requires
        b > 0,
        m >= 0,
        -(m * b) <= a <= m * b,
    ensures
        -m <= tdiv(a, b) <= m,
{
    if a >= 0 {
        vstd::arithmetic::div_mod::lemma_div_is_ordered(a, m * b, b);
        vstd::arithmetic::div_mod::lemma_div_multiples_vanish(m, b);
        vstd::arithmetic::div_mod::lemma_div_pos_is_pos(a, b);
    } else {
        vstd::arithmetic::div_mod::lemma_div_is_ordered(-a, m * b, b);
        vstd::arithmetic::div_mod::lemma_div_multiples_vanish(m, b);
        vstd::arithmetic::div_mod::lemma_div_pos_is_pos(-a, b);
    }
}

/// Truncating division is monotone in the dividend, for nonnegative
/// dividends.
pub proof fn lemma_tdiv_ordered(a1: int, a2: int, b: int)
    requires
        b > 0,
        0 <= a1 <= a2,
    ensures
        0 <= tdiv(a1, b) <= tdiv(a2, b),
{
    vstd::arithmetic::div_mod::lemma_div_is_ordered(a1, a2, b);
    vstd::arithmetic::div_mod::lemma_div_pos_is_pos(a1, b);
}

} // verus!
