//! Fixed-point exponential, logarithm, sigmoid and logit.
//!
//! The detection pipeline compares raw network scores against
//! probability thresholds in log-odds space and recovers box sizes from
//! log-space size predictions.  Each routine here is an exact integer
//! algorithm: its contract states precisely the value it returns, via a
//! spec-level mirror of the same range reduction and series evaluation.

use vstd::prelude::*;

verus! {

use crate::fp::{FP_ONE, div_floor};
use crate::fp::floor_div_i64;
use vstd::arithmetic::power2::{pow2, lemma_pow2_strictly_increases, lemma2_to64};
use vstd::arithmetic::div_mod::{
    lemma_fundamental_div_mod,
    lemma_div_pos_is_pos,
    lemma_div_is_ordered,
    lemma_div_by_multiple,
    lemma_div_is_ordered_by_denominator,
};
use vstd::arithmetic::mul::{lemma_mul_inequality, lemma_mul_upper_bound};

/// ln 2 in fixed point, rounded down.
pub const LN2_FP: i64 = 693_147;

/// Edge of the exponential's argument range: 20.0 in fixed point.
/// Beyond it the logistic routines are saturated instead.
pub const EXP_ARG_MAX: i64 = 20_000_000;

/// Number of Taylor terms (beyond the constant one) used by [`exp_fp`].
pub const EXP_TAYLOR_ROUNDS: u64 = 11;

/// Largest value [`exp_fp`] can return: the Taylor sum is below
/// 13.0 and is scaled by at most 2^28.
pub const EXP_RES_MAX: i64 = 13_000_000 * 268_435_456;

/// Term `j` of the truncated fixed-point Taylor series of e^(r / FP_ONE):
/// term 0 is 1.0 and each further term multiplies by `r / (FP_ONE * j)`.
pub open spec fn exp_taylor_term(r: int, j: nat) -> int
    decreases j,
{
    if j == 0 {
        FP_ONE as int
    } else {
        exp_taylor_term(r, (j - 1) as nat) * r / (FP_ONE * j)
    }
}

/// Sum of the Taylor terms 0 ..= j.
pub open spec fn exp_taylor_sum(r: int, j: nat) -> int
    decreases j,
{
    if j == 0 {
        exp_taylor_term(r, 0)
    } else {
        exp_taylor_sum(r, (j - 1) as nat) + exp_taylor_term(r, j)
    }
}

/// The value [`exp_fp`] computes for `x` in its argument range:
/// write `x = k ln2 + r` with `0 <= r < ln2`, evaluate the Taylor
/// series at `r` and scale by 2^k.
pub open spec fn exp_fp_spec(x: int) -> int {
    let k = div_floor(x, LN2_FP as int);
    let r = x - k * LN2_FP;
    let t = exp_taylor_sum(r, EXP_TAYLOR_ROUNDS as nat);
    if k >= 0 {
        t * pow2(k as nat)
    } else {
        t / (pow2((-k) as nat) as int)
    }
}

/// Each Taylor term lies in [0, FP_ONE] once the argument is inside
/// [0, FP_ONE); the first term is exactly FP_ONE.
proof fn lemma_taylor_term_bounds(r: int, j: nat)
    requires
        0 <= r < FP_ONE,
    ensures
        0 <= exp_taylor_term(r, j) <= FP_ONE,
    decreases j,
{
    if j > 0 {
        lemma_taylor_term_bounds(r, (j - 1) as nat);
        let prev = exp_taylor_term(r, (j - 1) as nat);
        let num = prev * r;
        let den = FP_ONE * j;
        assert(0 <= num <= FP_ONE * FP_ONE) by {
            lemma_mul_upper_bound(prev, FP_ONE as int, r, FP_ONE as int);
            lemma_mul_inequality(0, prev, r);
        }
        assert(FP_ONE * FP_ONE <= FP_ONE * den) by (nonlinear_arith)
            requires
                den == FP_ONE * j,
                j >= 1,
        ;
        assert(den >= FP_ONE) by (nonlinear_arith)
            requires
                den == FP_ONE * j,
                j >= 1,
        ;
        lemma_div_pos_is_pos(num, den);
        lemma_div_is_ordered(num, FP_ONE * den, den);
        lemma_div_by_multiple(FP_ONE as int, den);
    }
}

/// The Taylor sum stays within [FP_ONE, (j + 1) * FP_ONE] for an
/// argument in [0, FP_ONE).
proof fn lemma_taylor_sum_bounds(r: int, j: nat)
    requires
        0 <= r < FP_ONE,
    ensures
        FP_ONE <= exp_taylor_sum(r, j) <= (j + 1) * FP_ONE,
    decreases j,
{
    lemma_taylor_term_bounds(r, j);
    if j > 0 {
        lemma_taylor_sum_bounds(r, (j - 1) as nat);
    }
}

/// A Taylor term at argument 0 vanishes for every j > 0, so the sum at
/// 0 is exactly FP_ONE.
proof fn lemma_taylor_sum_at_zero(j: nat)
    ensures
        exp_taylor_sum(0, j) == FP_ONE,
    decreases j,
{
    if j > 0 {
        lemma_taylor_sum_at_zero((j - 1) as nat);
        assert(exp_taylor_term(0, j) == exp_taylor_term(0, (j - 1) as nat) * 0 / (FP_ONE * j));
    }
}

/// The exponential of 0.0 is exactly 1.0.
pub proof fn lemma_exp_at_zero()
    ensures
        exp_fp_spec(0) == FP_ONE,
{
    lemma_taylor_sum_at_zero(EXP_TAYLOR_ROUNDS as nat);
    let k = div_floor(0, LN2_FP as int);
    assert(k == 0) by {
        vstd::arithmetic::div_mod::lemma_div_of0(LN2_FP as int);
    }
    let r = 0 - k * LN2_FP;
    assert(r == 0);
    let t = exp_taylor_sum(r, EXP_TAYLOR_ROUNDS as nat);
    assert(t == FP_ONE);
    assert(pow2(0) == 1) by {
        lemma2_to64();
    }
    assert(exp_fp_spec(0) == t * pow2(0));
}

/// 2^e for e up to 62, as an executable value.
pub fn pow2_u64(e: u64) -> (r: u64)
    requires
        e <= 63,
    ensures
        r == pow2(e as nat),
        r >= 1,
{
    let mut r: u64 = 1;
    let mut i: u64 = 0;
    assert(pow2(0) == 1) by {
        lemma2_to64();
    }
    while i < e
        invariant
            i <= e <= 63,
            r == pow2(i as nat),
        decreases e - i,
    {
        proof {
            lemma2_to64();
            lemma2_to64_rest_bound(i as nat, e as nat);
        }
        r = r * 2;
        i = i + 1;
        assert(r == pow2(i as nat)) by {
            vstd::arithmetic::power2::lemma_pow2_unfold(i as nat);
        }
    }
    proof {
        if r == 0 {
            vstd::arithmetic::power2::lemma_pow2_pos(e as nat);
        }
    }
    r
}

/// pow2 of anything below 63 stays below 2^63, so doubling fits in u64.
proof fn lemma2_to64_rest_bound(i: nat, e: nat)
    requires
        i < e,
        e <= 63,
    ensures
        pow2(i) * 2 <= u64::MAX,
{
    vstd::arithmetic::power2::lemma_pow2_unfold((i + 1) as nat);
    if i + 1 < 64 {
        lemma_pow2_strictly_increases(i + 1, 64);
    }
    vstd::arithmetic::power2::lemma2_to64_rest();
    lemma2_to64();
}

/// Fixed-point exponential: returns `exp_fp_spec(x)`, the truncated
/// Taylor evaluation of e^(x / FP_ONE) scaled back by powers of two.
pub fn exp_fp(x: i64) -> (res: i64)
    requires
        -EXP_ARG_MAX <= x <= EXP_ARG_MAX,
    ensures
        res == exp_fp_spec(x as int),
        0 <= res <= EXP_RES_MAX,
        x <= 0 ==> res <= 13_000_000,
        x <= 10_000_000 ==> res <= 200_000_000_000,
{
    let k = floor_div_i64(x, LN2_FP);
    proof {
        lemma_fundamental_div_mod(x as int, LN2_FP as int);
        assert(-29 <= k <= 28);
    }
    let r = x - k * LN2_FP;
    proof {
        assert(r == x as int % LN2_FP as int);
    }
    let mut term: u64 = FP_ONE as u64;
    let mut acc: u64 = FP_ONE as u64;
    let mut j: u64 = 1;
    while j <= EXP_TAYLOR_ROUNDS
        invariant
            1 <= j <= EXP_TAYLOR_ROUNDS + 1,
            0 <= r < LN2_FP,
            term == exp_taylor_term(r as int, (j - 1) as nat),
            acc == exp_taylor_sum(r as int, (j - 1) as nat),
            acc <= j * FP_ONE,
        decreases EXP_TAYLOR_ROUNDS + 1 - j,
    {
        proof {
            lemma_taylor_term_bounds(r as int, (j - 1) as nat);
            lemma_taylor_term_bounds(r as int, j as nat);
            assert(term <= 1_000_000);
            assert(r < 1_000_000);
            lemma_mul_upper_bound(term as int, 1_000_000, r as int, 1_000_000);
        }
        let num: u64 = term * (r as u64);
        let den: u64 = (FP_ONE as u64) * j;
        term = num / den;
        acc = acc + term;
        j = j + 1;
    }
    proof {
        lemma_taylor_sum_bounds(r as int, EXP_TAYLOR_ROUNDS as nat);
    }
    if k >= 0 {
        let p = pow2_u64(k as u64);
        proof {
            if (k as nat) < 28 {
                lemma_pow2_strictly_increases(k as nat, 28);
            }
            assert(pow2(28) == 268_435_456) by {
                lemma2_to64();
                vstd::arithmetic::power2::lemma2_to64_rest();
            }
            lemma_mul_upper_bound(acc as int, 13_000_000, p as int, 268_435_456);
            lemma_mul_inequality(0, acc as int, p as int);
        }
        let res = acc * p;
        proof {
            if x <= 0 {
                assert(k == 0);
                assert(p == 1) by {
                    lemma2_to64();
                }
                vstd::arithmetic::mul::lemma_mul_basics(acc as int);
                assert(acc * p == acc * 1);
                assert(res == acc);
            }
            if x <= 10_000_000 {
                assert(k <= 14);
                assert(p <= 16384) by {
                    lemma2_to64();
                    if (k as nat) < 14 {
                        lemma_pow2_strictly_increases(k as nat, 14);
                    }
                }
                lemma_mul_upper_bound(acc as int, 12_000_000, p as int, 16384);
            }
        }
        res as i64
    } else {
        let p = pow2_u64((-k) as u64);
        let res = acc / p;
        proof {
            lemma_div_is_ordered_by_denominator(acc as int, 1, p as int);
            vstd::arithmetic::div_mod::lemma_div_basics(acc as int);
            assert(res <= acc);
        }
        res as i64
    }
}

/// Largest argument [`ln_fp`] accepts; covers every odds ratio the
/// logit can build from a probability in fixed point.
pub const LN_ARG_MAX: i64 = 2_000_000_000_000;

/// Number of series terms (beyond the first) used by the logarithm.
pub const LN_SERIES_ROUNDS: u64 = 6;

/// Halve a mantissa at or above 2.0 until it lies below 2.0, counting
/// the halvings.
pub open spec fn ln_reduce_down(m: int) -> (int, int)
    decreases m,
{
    if m >= 2 * FP_ONE {
        let (mm, e) = ln_reduce_down(m / 2);
        (mm, e + 1)
    } else {
        (m, 0)
    }
}

/// Double a positive mantissa below 1.0 until it reaches 1.0, counting
/// the doublings negatively.
pub open spec fn ln_reduce_up(m: int) -> (int, int)
    decreases crate::fp::imax(FP_ONE - m, 0),
{
    if m >= FP_ONE {
        (m, 0)
    } else if m <= 0 {
        (FP_ONE as int, 0)
    } else {
        let (mm, e) = ln_reduce_up(2 * m);
        (mm, e - 1)
    }
}

/// Odd power `j` of the series variable: term 0 is `t`, and each
/// further term multiplies by `t2 = t^2` in fixed point.
pub open spec fn ln_pow_term(t: int, t2: int, j: nat) -> int
    decreases j,
{
    if j == 0 {
        t
    } else {
        ln_pow_term(t, t2, (j - 1) as nat) * t2 / (FP_ONE as int)
    }
}

/// Partial sum of the series `atanh(t) = t + t^3/3 + t^5/5 + ...`.
pub open spec fn ln_series_sum(t: int, t2: int, j: nat) -> int
    decreases j,
{
    if j == 0 {
        t
    } else {
        ln_series_sum(t, t2, (j - 1) as nat) + ln_pow_term(t, t2, j) / (2 * (j as int) + 1)
    }
}

/// ln of a mantissa in [1.0, 2.0), via `ln m = 2 atanh((m-1)/(m+1))`.
pub open spec fn ln_mantissa_spec(m: int) -> int {
    let t = (m - FP_ONE) * FP_ONE / (m + FP_ONE);
    let t2 = t * t / (FP_ONE as int);
    2 * ln_series_sum(t, t2, LN_SERIES_ROUNDS as nat)
}

/// The value [`ln_fp`] computes: normalize the argument to a mantissa
/// in [1.0, 2.0) times a power of two, then `e * ln 2 + ln(mantissa)`.
pub open spec fn ln_fp_spec(y: int) -> int {
    let (m, e) = if y >= FP_ONE {
        ln_reduce_down(y)
    } else {
        ln_reduce_up(y)
    };
    e * LN2_FP + ln_mantissa_spec(m)
}

/// Each odd-power series term lies in [0, t] when the series variable
/// is inside [0, 1.0).
proof fn lemma_ln_pow_term_bounds(t: int, t2: int, j: nat)
    requires
        0 <= t < FP_ONE,
        0 <= t2 < FP_ONE,
    ensures
        0 <= ln_pow_term(t, t2, j) <= t,
    decreases j,
{
    if j > 0 {
        lemma_ln_pow_term_bounds(t, t2, (j - 1) as nat);
        let prev = ln_pow_term(t, t2, (j - 1) as nat);
        let num = prev * t2;
        if prev == 0 {
            vstd::arithmetic::mul::lemma_mul_basics(t2);
            assert(ln_pow_term(t, t2, j) == 0int / (FP_ONE as int));
            vstd::arithmetic::div_mod::lemma_div_of0(FP_ONE as int);
        } else {
            assert(0 <= num <= prev * FP_ONE) by {
                lemma_mul_inequality(0, prev, t2);
                vstd::arithmetic::mul::lemma_mul_left_inequality(prev, t2, FP_ONE as int);
            }
            lemma_div_pos_is_pos(num, FP_ONE as int);
            lemma_div_is_ordered(num, prev * FP_ONE, FP_ONE as int);
            lemma_div_by_multiple(prev, FP_ONE as int);
        }
    }
}

/// Fixed-point natural logarithm of `y / FP_ONE` for `y >= 1`, exactly
/// as `ln_fp_spec` describes it.
pub fn ln_fp(y: i64) -> (res: i64)
    requires
        1 <= y <= LN_ARG_MAX,
    ensures
        res == ln_fp_spec(y as int),
        -30_000_000 <= res <= 30_000_000,
{
    let mut m: u64 = y as u64;
    let mut e: i64 = 0;
    let y0: u64 = y as u64;
    if y >= FP_ONE {
        proof {
            vstd::arithmetic::mul::lemma_mul_basics(m as int);
            assert(pow2(0) == 1) by {
                lemma2_to64();
            }
        }
        while m >= 2 * 1_000_000u64
            invariant
                1_000_000 <= m,
                0 <= e <= 21,
                y0 == y,
                1_000_000 <= y0 <= LN_ARG_MAX as u64,
                ln_reduce_down(y0 as int).0 == ln_reduce_down(m as int).0,
                ln_reduce_down(y0 as int).1 == ln_reduce_down(m as int).1 + e,
                m * pow2(e as nat) <= y0,
            decreases m,
        {
            proof {
                let mi = m as int;
                let ei = e as nat;
                vstd::arithmetic::power2::lemma_pow2_unfold((ei + 1) as nat);
                assert((mi / 2) * 2 <= mi);
                assert((mi / 2) * (2 * pow2(ei)) == ((mi / 2) * 2) * pow2(ei)) by {
                    vstd::arithmetic::mul::lemma_mul_is_associative(mi / 2, 2, pow2(ei) as int);
                }
                lemma_mul_inequality((mi / 2) * 2, mi, pow2(ei) as int);
                assert((mi / 2) * pow2((ei + 1) as nat) <= mi * pow2(ei));
                assert(e < 21) by {
                    if e >= 21 {
                        if e > 21 {
                            lemma_pow2_strictly_increases(21, ei);
                        }
                        assert(pow2(21) == 0x200000) by {
                            lemma2_to64();
                        }
                        lemma_mul_inequality(2_000_000, mi, pow2(ei) as int);
                        vstd::arithmetic::mul::lemma_mul_is_commutative(mi, pow2(ei) as int);
                        lemma_mul_inequality(pow2(21) as int, pow2(ei) as int, 2_000_000);
                    }
                }
            }
            m = m / 2;
            e = e + 1;
        }
        proof {
            lemma_down_exit_bound(m as int, e as int, y0 as int);
        }
    } else {
        proof {
            vstd::arithmetic::mul::lemma_mul_basics(y0 as int);
            assert(pow2(0) == 1) by {
                lemma2_to64();
            }
        }
        while m < 1_000_000u64
            invariant
                1 <= m < 2 * 1_000_000,
                -21 <= e <= 0,
                y0 == y,
                1 <= y0,
                ln_reduce_up(y0 as int).0 == ln_reduce_up(m as int).0,
                ln_reduce_up(y0 as int).1 == ln_reduce_up(m as int).1 + e,
                m == y0 * pow2((-e) as nat),
            decreases 2_000_000 - m,
        {
            proof {
                let ei = (-e) as nat;
                vstd::arithmetic::power2::lemma_pow2_unfold((ei + 1) as nat);
                assert((m as int) * 2 == y0 * (pow2(ei) * 2)) by {
                    vstd::arithmetic::mul::lemma_mul_is_associative(
                        y0 as int,
                        pow2(ei) as int,
                        2,
                    );
                }
                assert(pow2(ei) * 2 == pow2((ei + 1) as nat));
                assert(-e < 21) by {
                    if -e >= 21 {
                        if -e > 21 {
                            lemma_pow2_strictly_increases(21, ei);
                        }
                        assert(pow2(21) == 0x200000) by {
                            lemma2_to64();
                        }
                        lemma_mul_inequality(1, y0 as int, pow2(ei) as int);
                        vstd::arithmetic::mul::lemma_mul_basics(pow2(ei) as int);
                    }
                }
            }
            m = m * 2;
            e = e - 1;
        }
        proof {
            assert(ln_reduce_up(m as int) == (m as int, 0int));
        }
    }
    let t: u64 = (m - 1_000_000) * 1_000_000 / (m + 1_000_000);
    proof {
        let mi = m as int;
        lemma_div_is_ordered_by_denominator(
            (mi - 1_000_000) * 1_000_000,
            1_000_000,
            mi + 1_000_000,
        );
        lemma_div_by_multiple(mi - 1_000_000, 1_000_000);
        assert(t < 1_000_000);
    }
    proof {
        let ti = t as int;
        lemma_mul_upper_bound(ti, 1_000_000, ti, 1_000_000);
        lemma_mul_inequality(ti, 1_000_000, ti);
        vstd::arithmetic::mul::lemma_mul_is_commutative(1_000_000, ti);
        lemma_mul_inequality(0, ti, ti);
    }
    let t2: u64 = t * t / 1_000_000;
    proof {
        let ti = t as int;
        lemma_div_is_ordered(ti * ti, ti * 1_000_000, 1_000_000);
        lemma_div_by_multiple(ti, 1_000_000);
        lemma_div_pos_is_pos(ti * ti, 1_000_000);
        assert(t2 <= t);
    }
    let mut p: u64 = t;
    let mut acc: u64 = t;
    let mut j: u64 = 1;
    while j <= LN_SERIES_ROUNDS
        invariant
            1 <= j <= LN_SERIES_ROUNDS + 1,
            0 <= t2 <= t < 1_000_000,
            p == ln_pow_term(t as int, t2 as int, (j - 1) as nat),
            acc == ln_series_sum(t as int, t2 as int, (j - 1) as nat),
            acc <= j * 1_000_000,
        decreases LN_SERIES_ROUNDS + 1 - j,
    {
        proof {
            lemma_ln_pow_term_bounds(t as int, t2 as int, (j - 1) as nat);
            lemma_ln_pow_term_bounds(t as int, t2 as int, j as nat);
            lemma_mul_upper_bound(p as int, 1_000_000, t2 as int, 1_000_000);
        }
        p = p * t2 / 1_000_000;
        acc = acc + p / (2 * j + 1);
        j = j + 1;
    }
    proof {
        assert(acc <= 7_000_000);
    }
    let res = e * LN2_FP + 2 * (acc as i64);
    res
}

/// After the halving loop exits, the spec-level reduction of the
/// current mantissa is the identity, and the exponent is small.
proof fn lemma_down_exit_bound(m: int, e: int, y0: int)
    requires
        1_000_000 <= m < 2_000_000,
        0 <= e,
        y0 <= LN_ARG_MAX,
        m * pow2(e as nat) <= y0,
    ensures
        ln_reduce_down(m) == (m, 0int),
        e <= 20,
{
    if e > 20 {
        if e > 21 {
            lemma_pow2_strictly_increases(21, e as nat);
        }
        assert(pow2(21) == 0x200000) by {
            lemma2_to64();
        }
        lemma_mul_inequality(1_000_000, m, pow2(e as nat) as int);
        vstd::arithmetic::mul::lemma_mul_is_commutative(m, pow2(e as nat) as int);
        lemma_mul_inequality(pow2(21) as int, pow2(e as nat) as int, 1_000_000);
    }
}

/// The value [`sigmoid_fp`] computes: the logistic function of
/// `x / FP_ONE`, saturated to 0.0 or 1.0 outside the exponential's
/// argument range, and otherwise evaluated in whichever of the two
/// algebraically equal forms keeps the intermediate exponential small.
pub open spec fn sigmoid_fp_spec(x: int) -> int {
    if x >= EXP_ARG_MAX {
        FP_ONE as int
    } else if x <= -EXP_ARG_MAX {
        0
    } else if x >= 0 {
        FP_ONE * FP_ONE / (FP_ONE + exp_fp_spec(-x))
    } else {
        exp_fp_spec(x) * FP_ONE / (FP_ONE + exp_fp_spec(x))
    }
}

/// Fixed-point logistic function, total on all of `i64`; the result is
/// always a valid probability.
pub fn sigmoid_fp(x: i64) -> (res: i64)
    ensures
        res == sigmoid_fp_spec(x as int),
        0 <= res <= FP_ONE,
{
    if x >= EXP_ARG_MAX {
        FP_ONE
    } else if x <= -EXP_ARG_MAX {
        0
    } else if x >= 0 {
        let ex = exp_fp(-x);
        let denom: u64 = (FP_ONE as u64) + (ex as u64);
        let q: u64 = 1_000_000_000_000u64 / denom;
        proof {
            let di = denom as int;
            lemma_div_is_ordered(1_000_000_000_000, 1_000_000 * di, di);
            lemma_div_by_multiple(1_000_000, di);
            assert(q <= 1_000_000);
        }
        q as i64
    } else {
        let ex = exp_fp(x);
        let num: u64 = (ex as u64) * 1_000_000;
        let denom: u64 = (FP_ONE as u64) + (ex as u64);
        let q: u64 = num / denom;
        proof {
            let di = denom as int;
            lemma_mul_inequality(ex as int, di, 1_000_000);
            vstd::arithmetic::mul::lemma_mul_is_commutative(ex as int, 1_000_000);
            vstd::arithmetic::mul::lemma_mul_is_commutative(di, 1_000_000);
            lemma_div_is_ordered(num as int, 1_000_000 * di, di);
            lemma_div_by_multiple(1_000_000, di);
            assert(q <= 1_000_000);
        }
        q as i64
    }
}

/// The value [`logit_fp`] computes: the log-odds of a fixed-point
/// probability, saturated to the representable minimum and maximum for
/// arguments at or beyond 0.0 and 1.0.
pub open spec fn logit_fp_spec(p: int) -> int {
    if p <= 0 {
        i64::MIN as int
    } else if p >= FP_ONE {
        i64::MAX as int
    } else {
        ln_fp_spec(p * FP_ONE / (FP_ONE - p))
    }
}

/// Fixed-point logit (inverse sigmoid), total on all of `i64`.
/// Probabilities at or below 0.0 map to `i64::MIN`; at or above 1.0 to
/// `i64::MAX`; strictly inside, the log of the odds ratio.
pub fn logit_fp(p: i64) -> (res: i64)
    ensures
        res == logit_fp_spec(p as int),
        p <= 0 ==> res == i64::MIN,
        p >= FP_ONE ==> res == i64::MAX,
{
    if p <= 0 {
        i64::MIN
    } else if p >= FP_ONE {
        i64::MAX
    } else {
        let num: u64 = (p as u64) * 1_000_000;
        let d: u64 = (FP_ONE - p) as u64;
        let y: u64 = num / d;
        proof {
            let ni = num as int;
            let di = d as int;
            vstd::arithmetic::div_mod::lemma_div_non_zero(ni, di);
            lemma_div_is_ordered_by_denominator(ni, 1, di);
            vstd::arithmetic::div_mod::lemma_div_basics(ni);
            assert(1 <= y <= LN_ARG_MAX);
        }
        ln_fp(y as i64)
    }
}

/// The logit saturates at the extremes: probabilities at or below 0.0
/// give the representable minimum, at or above 1.0 the maximum, and
/// the sigmoid of those saturated values gives back exactly 0.0 and
/// 1.0.
pub proof fn lemma_sigmoid_logit_saturates(p: int)
    ensures
        p <= 0 ==> logit_fp_spec(p) == i64::MIN,
        p >= FP_ONE ==> logit_fp_spec(p) == i64::MAX,
        p <= 0 ==> sigmoid_fp_spec(logit_fp_spec(p)) == 0,
        p >= FP_ONE ==> sigmoid_fp_spec(logit_fp_spec(p)) == FP_ONE,
{
}

} // verus!
