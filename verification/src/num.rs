//! Integer helpers: absolute value and division that rounds toward zero.
//!
//! All velocity and position updates quantize exact rational values onto the
//! integer grid by truncating toward zero, so the whole simulation needs just
//! this one rounding primitive, together with a few facts about how it
//! relates to the exact quotient.

use vstd::arithmetic::div_mod::{
    lemma_div_by_multiple, lemma_div_is_ordered, lemma_div_pos_is_pos,
};
use vstd::prelude::*;

verus! {

/// Absolute value of a mathematical integer.
pub open spec fn iabs(n: int) -> int {
    if n >= 0 {
        n
    } else {
        -n
    }
}

/// Quotient of `n / d` rounded toward zero (`d > 0`).
///
/// Ghost `/` is Euclidean division, which rounds down; executable Rust
/// division truncates toward zero, and this spec mirrors the executable
/// behaviour for positive divisors.
pub open spec fn tdiv(n: int, d: int) -> int {
    if n >= 0 {
        n / d
    } else {
        -((-n) / d)
    }
}

/// Truncating division never grows the magnitude, keeps the sign, and
/// stays below any bound `b` with `iabs(n) <= b * d`.
pub proof fn lemma_tdiv_bounds(n: int, d: int, b: int)
    requires
        d >= 1,
        b >= 0,
        iabs(n) <= b * d,
    ensures
        iabs(tdiv(n, d)) <= b,
        iabs(tdiv(n, d)) <= iabs(n),
        n >= 0 ==> tdiv(n, d) >= 0,
        n <= 0 ==> tdiv(n, d) <= 0,
{
    let m = iabs(n);
    assert(m <= m * d) by (nonlinear_arith)
        requires
            m >= 0,
            d >= 1,
    ;
    lemma_div_pos_is_pos(m, d);
    lemma_div_is_ordered(m, b * d, d);
    lemma_div_by_multiple(b, d);
    lemma_div_is_ordered(m, m * d, d);
    lemma_div_by_multiple(m, d);
}

/// For `0 <= n < b * d` the truncated quotient is strictly below `b`.
pub proof fn lemma_tdiv_strict(n: int, d: int, b: int)
    requires
        d >= 1,
        b >= 1,
        iabs(n) < b * d,
    ensures
        iabs(tdiv(n, d)) < b,
{
    let m = iabs(n);
    lemma_div_pos_is_pos(m, d);
    assert(m / d < b) by {
        vstd::arithmetic::div_mod::lemma_fundamental_div_mod(m, d);
        vstd::arithmetic::div_mod::lemma_mod_bound(m, d);
        assert(d * (m / d) <= m);
        assert(m / d < b) by (nonlinear_arith)
            requires
                d * (m / d) <= m,
                m < b * d,
                d >= 1,
                m / d >= 0,
        ;
    }
}

/// Scaling the truncated quotient back up never exceeds the dividend.
pub proof fn lemma_tdiv_mul_le(n: int, d: int)
    requires
        d >= 1,
    ensures
        iabs(tdiv(n, d)) * d <= iabs(n),
{
    let m = iabs(n);
    vstd::arithmetic::div_mod::lemma_fundamental_div_mod(m, d);
    vstd::arithmetic::div_mod::lemma_mod_bound(m, d);
    lemma_div_pos_is_pos(m, d);
    assert(iabs(tdiv(n, d)) == m / d);
    assert((m / d) * d <= m) by (nonlinear_arith)
        requires
            d * (m / d) + m % d == m,
            m % d >= 0,
    ;
}

/// Division that rounds toward zero, matching the spec-level `tdiv`.
pub fn div_trunc(n: i128, d: i128) -> (r: i128)
    requires
        1 <= d,
        iabs(n as int) < 0x4000_0000_0000_0000_0000_0000_0000_0000,
    ensures
        r == tdiv(n as int, d as int),
{
    proof {
        let m = iabs(n as int);
        assert(m <= m * d) by (nonlinear_arith)
            requires
                m >= 0,
                d >= 1,
        ;
        lemma_tdiv_bounds(n as int, d as int, m);
    }
    if n >= 0 {
        n / d
    } else {
        -((-n) / d)
    }
}

} // verus!
