// Fixed-point exponential, sigmoid and logit behaviour on concrete
// values, including the saturation at the extremes and the round trip
// through log-odds space.

use detpost::fp::FP_ONE;
use detpost::numeric::{exp_fp, ln_fp, logit_fp, sigmoid_fp, EXP_ARG_MAX};

#[test]
fn exp_of_zero_is_one() {
    assert_eq!(exp_fp(0), FP_ONE);
}

#[test]
fn exp_matches_known_values() {
    // e^1 and e^-1 in fixed point, as the series evaluates them.
    assert_eq!(exp_fp(1_000_000), 2_718_278);
    assert_eq!(exp_fp(-1_000_000), 367_878);
    // close to the true values 2.718282 and 0.367879
    assert!((exp_fp(1_000_000) - 2_718_282i64).abs() < 10);
    assert!((exp_fp(-1_000_000) - 367_879i64).abs() < 10);
}

#[test]
fn ln_matches_known_values() {
    // ln 1 = 0, ln 2 ~ 0.693147, ln e ~ 1
    assert_eq!(ln_fp(1_000_000), 0);
    assert!((ln_fp(2_000_000) - 693_147i64).abs() < 10);
    assert!((ln_fp(2_718_282) - 1_000_000i64).abs() < 10);
}

#[test]
fn sigmoid_matches_known_values() {
    assert_eq!(sigmoid_fp(0), 500_000);
    assert_eq!(sigmoid_fp(1_000_000), 731_059);
    assert_eq!(sigmoid_fp(-1_000_000), 268_940);
}

#[test]
fn sigmoid_is_a_probability() {
    for &x in &[i64::MIN, -30_000_000, -1, 0, 1, 999, 30_000_000, i64::MAX] {
        let s = sigmoid_fp(x);
        assert!(0 <= s && s <= FP_ONE);
    }
}

#[test]
fn sigmoid_saturates_outside_the_exp_range() {
    assert_eq!(sigmoid_fp(EXP_ARG_MAX), FP_ONE);
    assert_eq!(sigmoid_fp(-EXP_ARG_MAX), 0);
    assert_eq!(sigmoid_fp(i64::MAX), FP_ONE);
    assert_eq!(sigmoid_fp(i64::MIN), 0);
}

#[test]
fn logit_saturates_at_the_extremes() {
    assert_eq!(logit_fp(0), i64::MIN);
    assert_eq!(logit_fp(-5), i64::MIN);
    assert_eq!(logit_fp(FP_ONE), i64::MAX);
    assert_eq!(logit_fp(FP_ONE + 7), i64::MAX);
    // and the sigmoid of the saturated value gives the extreme back
    assert_eq!(sigmoid_fp(logit_fp(0)), 0);
    assert_eq!(sigmoid_fp(logit_fp(FP_ONE)), FP_ONE);
}

#[test]
fn logit_matches_known_values() {
    assert_eq!(logit_fp(500_000), 0);
    assert_eq!(logit_fp(400_000), -405_471);
    assert_eq!(logit_fp(900_000), 2_197_221);
}

#[test]
fn exp_at_the_argument_edges() {
    // e^20 ~ 4.85e8 with relative error in the millionths
    let top = exp_fp(EXP_ARG_MAX);
    assert_eq!(top, 485_166_485_078_016);
    assert!((top - 485_165_193_771_160i64).abs() < top / 100_000);
    // e^-20 underflows the six decimal places entirely
    assert_eq!(exp_fp(-EXP_ARG_MAX), 0);
    // e^10 stays within the size-prediction budget
    assert_eq!(exp_fp(10_000_000), 22_026_452_992);
}

#[test]
fn ln_at_the_argument_edges() {
    // ln of one millionth and of two million
    assert_eq!(ln_fp(1), -13_815_508);
    assert_eq!(ln_fp(2_000_000_000_000), 14_508_650);
}

#[test]
fn sigmoid_of_logit_recovers_the_probability() {
    // strictly inside (0, 1) the round trip is exact to a few
    // millionths
    for &p in &[
        1i64, 10, 1000, 100_000, 250_000, 400_000, 500_000, 600_000, 750_000, 900_000, 999_000,
        999_999,
    ] {
        let rt = sigmoid_fp(logit_fp(p));
        assert!((rt - p).abs() <= 3, "p = {}, round trip = {}", p, rt);
    }
}
