//! Decimal fixed-point base: values carry six fractional decimal digits,
//! so the integer `FP_ONE` stands for the real number 1.0.
//!
//! The helpers here pin down the two division conventions the pipeline
//! uses: truncation toward zero (how a fixed-point quantity becomes a
//! pixel coordinate) and flooring (used by the range reductions of the
//! transcendental routines).

use vstd::prelude::*;

verus! {

use vstd::arithmetic::div_mod::{
    lemma_fundamental_div_mod,
    lemma_fundamental_div_mod_converse,
};

/// The fixed-point unit: this integer stands for 1.0.
pub const FP_ONE: i64 = 1_000_000;

/// Larger of two integers.
pub open spec fn imax(a: int, b: int) -> int {
    if a >= b {
        a
    } else {
        b
    }
}

/// Smaller of two integers.
pub open spec fn imin(a: int, b: int) -> int {
    if a <= b {
        a
    } else {
        b
    }
}

/// Quotient of `n` by a positive `d`, rounded toward zero.  This is the
/// rounding Rust's native casts and divisions perform, and the one used
/// whenever a fixed-point value is reduced to whole pixels.
pub open spec fn div_trunc(n: int, d: int) -> int {
    if n >= 0 {
        n / d
    } else {
        -((-n) / d)
    }
}

/// Quotient of `n` by a positive `d`, rounded toward negative infinity.
/// For a positive divisor this is exactly the `int` division of
/// specifications.
pub open spec fn div_floor(n: int, d: int) -> int {
    n / d
}

/// Truncating division of wide intermediates, reduced to `i64`.
/// All scaling steps of the decoders go through this single routine.
pub fn scale_div(n: i128, d: i128) -> (r: i64)
    requires
        0 < d,
        i128::MIN < n,
        -(i64::MAX as i128) <= div_trunc(n as int, d as int) <= i64::MAX as i128,
    ensures
        r == div_trunc(n as int, d as int),
{
    if n >= 0 {
        let q: u128 = (n as u128) / (d as u128);
        assert(q == n as int / d as int);
        q as i64
    } else {
        let m: u128 = (-n) as u128;
        let q: u128 = m / (d as u128);
        assert(q == (-(n as int)) / (d as int));
        -(q as i64)
    }
}

/// Flooring division on `i64` with a positive divisor; matches the
/// `int` division of specifications.
pub fn floor_div_i64(x: i64, d: i64) -> (q: i64)
    requires
        i64::MIN < x,
        0 < d <= 0x4000_0000_0000_0000,
    ensures
        q == x as int / d as int,
{
    if x >= 0 {
        let r: u64 = (x as u64) / (d as u64);
        assert(r == x as int / d as int);
        r as i64
    } else {
        let m: u64 = (-x) as u64;
        let qq: u64 = (m + (d as u64) - 1) / (d as u64);
        proof {
            lemma_ceil_div_is_neg_floor(m as int, d as int);
            assert(m + d - 1 <= m * d) by (nonlinear_arith)
                requires
                    1 <= m,
                    1 <= d,
            ;
            assert(m * d / d as int == m as int) by {
                vstd::arithmetic::div_mod::lemma_div_by_multiple(m as int, d as int);
            }
            assert(qq <= m) by {
                vstd::arithmetic::div_mod::lemma_div_is_ordered(
                    (m + d - 1) as int,
                    (m * d) as int,
                    d as int,
                );
            }
        }
        -(qq as i64)
    }
}

/// A truncating quotient is bounded once the numerator is bounded by
/// the corresponding multiple of the divisor.
pub proof fn lemma_div_trunc_bound(n: int, d: int, b: int)
    requires
        0 < d,
        0 <= b,
        -(b * d) <= n <= b * d,
    ensures
        -b <= div_trunc(n, d) <= b,
        0 <= n ==> 0 <= div_trunc(n, d),
{
    if n >= 0 {
        vstd::arithmetic::div_mod::lemma_div_pos_is_pos(n, d);
        vstd::arithmetic::div_mod::lemma_div_is_ordered(n, b * d, d);
        vstd::arithmetic::div_mod::lemma_div_by_multiple(b, d);
    } else {
        vstd::arithmetic::div_mod::lemma_div_pos_is_pos(-n, d);
        vstd::arithmetic::div_mod::lemma_div_is_ordered(-n, b * d, d);
        vstd::arithmetic::div_mod::lemma_div_by_multiple(b, d);
    }
}

/// For positive `d` and positive `m`, the rounded-up quotient
/// `(m + d - 1) / d` equals the negated floor of `-m / d`.
proof fn lemma_ceil_div_is_neg_floor(m: int, d: int)
    requires
        0 < d,
        0 < m,
    ensures
        (m + d - 1) / d == -((-m) / d),
{
    let q0 = (-m) / d;
    let r0 = (-m) % d;
    lemma_fundamental_div_mod(-m, d);
    assert(-m == q0 * d + r0);
    assert(m + d - 1 == (-q0) * d + (d - 1 - r0)) by (nonlinear_arith)
        requires
            -m == q0 * d + r0,
    ;
    lemma_fundamental_div_mod_converse(m + d - 1, d, -q0, d - 1 - r0);
}

} // verus!
