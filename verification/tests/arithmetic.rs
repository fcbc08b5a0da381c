use smarty_pants::power::{bit_length, pow2_u128};
use smarty_pants::random::DRAW_LIMIT;
use smarty_pants::scalar::Scalar;

fn s(x: f64) -> Scalar {
    Scalar::from_bits(x.to_bits())
}

fn f(x: Scalar) -> f64 {
    f64::from_bits(x.to_bits())
}

/// The same number: the same pattern, or two NaNs.
fn same(got: Scalar, expected: f64) -> bool {
    if expected.is_nan() {
        f(got).is_nan()
    } else {
        got.to_bits() == expected.to_bits()
    }
}

fn check_pair(a: f64, b: f64) {
    assert!(same(s(a).plus(s(b)), a + b), "{:e} + {:e}", a, b);
    assert!(same(s(a).times(s(b)), a * b), "{:e} * {:e}", a, b);
}

fn step(state: &mut u64) -> u64 {
    *state ^= *state << 13;
    *state ^= *state >> 7;
    *state ^= *state << 17;
    *state
}

fn samples() -> Vec<f64> {
    vec![
        0.0,
        -0.0,
        1.0,
        -1.0,
        2.0,
        0.5,
        1.5,
        3.0,
        0.1,
        0.2,
        0.3,
        -0.7,
        10.0,
        42.4242424242,
        1e16,
        1e-16,
        9007199254740992.0,
        9007199254740994.0,
        4503599627370497.0,
        4503599627370496.5,
        1.0000000000000002,
        0.9999999999999999,
        f64::MAX,
        -f64::MAX,
        f64::MIN_POSITIVE,
        -f64::MIN_POSITIVE,
        f64::from_bits(1),
        f64::from_bits(2),
        f64::from_bits(3),
        -f64::from_bits(1),
        f64::from_bits(0x000f_ffff_ffff_ffff),
        f64::from_bits(0x0010_0000_0000_0001),
        f64::from_bits(0x7fe0_0000_0000_0000),
        f64::EPSILON,
        1e308,
        1e-308,
        1e-320,
        1.3407807929942597e154,
        1.4916681462400413e-154,
        f64::INFINITY,
        f64::NEG_INFINITY,
        f64::NAN,
    ]
}

#[test]
fn arithmetic_agrees_with_the_machine_on_samples() {
    let xs = samples();
    for a in xs.iter() {
        for b in xs.iter() {
            check_pair(*a, *b);
        }
    }
}

#[test]
fn arithmetic_agrees_with_the_machine_on_random_patterns() {
    let mut state: u64 = 0x9e37_79b9_7f4a_7c15;
    for _ in 0..200_000 {
        let a = f64::from_bits(step(&mut state));
        let b = f64::from_bits(step(&mut state));
        check_pair(a, b);
    }
}

#[test]
fn sum_agrees_with_the_machine_on_near_exponents() {
    let mut state: u64 = 0x2545_f491_4f6c_dd1d;
    for _ in 0..200_000 {
        let a_bits = step(&mut state);
        let fraction = step(&mut state) & 0x000f_ffff_ffff_ffff;
        let gap = step(&mut state) % 140;
        let sign = step(&mut state) & 0x8000_0000_0000_0000;
        let exponent = (a_bits >> 52) & 0x7ff;
        let shifted = (exponent + 2047 + 70 - gap) % 2047;
        let b_bits = sign | (shifted << 52) | fraction;
        let a = f64::from_bits(a_bits);
        let b = f64::from_bits(b_bits);
        assert!(same(s(a).plus(s(b)), a + b), "{:e} + {:e}", a, b);
        assert!(same(s(b).plus(s(a)), b + a), "{:e} + {:e}", b, a);
    }
}

#[test]
fn sum_agrees_with_the_machine_on_sparse_significands() {
    // few set bits: ties and exact cancellations are common
    let mut state: u64 = 0x1234_5678_9abc_def1;
    for _ in 0..200_000 {
        let pick = step(&mut state);
        let a_fraction = (1u64 << (pick % 52)) | (1u64 << ((pick >> 8) % 52));
        let b_fraction = (1u64 << ((pick >> 16) % 52)) | (1u64 << ((pick >> 24) % 52));
        let a_exponent = 1000 + (pick >> 32) % 60;
        let b_exponent = 1000 + (pick >> 40) % 60;
        let a = f64::from_bits(((pick >> 62) << 63) | (a_exponent << 52) | (a_fraction & 0x000f_ffff_ffff_ffff));
        let b = f64::from_bits(((pick >> 63) << 63) | (b_exponent << 52) | (b_fraction & 0x000f_ffff_ffff_ffff));
        check_pair(a, b);
    }
}

#[test]
fn product_agrees_with_the_machine_near_the_smallest_numbers() {
    let mut state: u64 = 0x0f0f_1234_5678_9abc;
    for _ in 0..200_000 {
        let a_bits = step(&mut state);
        let b_fraction = step(&mut state) & 0x000f_ffff_ffff_ffff;
        let spread = step(&mut state) % 120;
        let a_exponent = (a_bits >> 52) & 0x7ff;
        // chosen so that the product's exponent lies near the subnormal range
        let b_exponent = (2047 + 1023 - 1022 - 60 + spread - a_exponent.min(1023 + 60)) % 2047;
        let a = f64::from_bits(a_bits);
        let b = f64::from_bits((b_exponent << 52) | b_fraction);
        assert!(same(s(a).times(s(b)), a * b), "{:e} * {:e}", a, b);
    }
}

#[test]
fn product_agrees_with_the_machine_near_the_largest_numbers() {
    let mut state: u64 = 0x7777_1234_5678_9abc;
    for _ in 0..200_000 {
        let a_bits = step(&mut state) & 0xbfff_ffff_ffff_ffff | 0x2000_0000_0000_0000;
        let b_fraction = step(&mut state) & 0x000f_ffff_ffff_ffff;
        let spread = step(&mut state) % 8;
        let a_exponent = (a_bits >> 52) & 0x7ff;
        let b_exponent = (2 * 1023 + 1020 + spread - a_exponent) % 2047;
        let a = f64::from_bits(a_bits);
        let b = f64::from_bits((b_exponent << 52) | b_fraction);
        assert!(same(s(a).times(s(b)), a * b), "{:e} * {:e}", a, b);
    }
}

#[test]
fn invalid_operations_give_the_quiet_nan() {
    let nan: u64 = 0x7ff8_0000_0000_0000;
    assert_eq!(s(f64::INFINITY).plus(s(f64::NEG_INFINITY)).to_bits(), nan);
    assert_eq!(s(f64::INFINITY).times(s(0.0)).to_bits(), nan);
    assert_eq!(s(-0.0).times(s(f64::NEG_INFINITY)).to_bits(), nan);
    assert_eq!(s(f64::NAN).plus(s(1.0)).to_bits(), nan);
    assert_eq!(s(1.0).times(Scalar::from_bits(0xfff0_0000_0000_0001)).to_bits(), nan);
    assert_eq!(Scalar::quiet_nan().to_bits(), nan);
    assert!(Scalar::quiet_nan().is_nan());
    assert!(!s(f64::INFINITY).is_nan());
}

#[test]
fn zeros_keep_their_signs() {
    assert_eq!(s(0.0).plus(s(-0.0)).to_bits(), 0);
    assert_eq!(s(-0.0).plus(s(0.0)).to_bits(), 0);
    assert_eq!(s(-0.0).plus(s(-0.0)).to_bits(), 0x8000_0000_0000_0000);
    assert_eq!(s(1.5).plus(s(-1.5)).to_bits(), 0);
    assert_eq!(s(-1.5).plus(s(1.5)).to_bits(), 0);
    assert_eq!(s(-2.0).times(s(0.0)).to_bits(), 0x8000_0000_0000_0000);
    assert_eq!(s(-2.0).times(s(-0.0)).to_bits(), 0);
    assert_eq!(Scalar::zero().to_bits(), 0);
}

#[test]
fn ties_go_to_the_even_significand() {
    // 2^53 + 1 lies halfway between 2^53 and 2^53 + 2
    assert_eq!(f(s(9007199254740992.0).plus(s(1.0))), 9007199254740992.0);
    // 2^53 + 3 lies halfway between 2^53 + 2 and 2^53 + 4
    assert_eq!(f(s(9007199254740994.0).plus(s(1.0))), 9007199254740996.0);
    // (2^52 + 1) * 1.5 = 1.5 * 2^52 + 1.5
    assert_eq!(f(s(4503599627370497.0).times(s(1.5))), 6755399441055746.0);
}

#[test]
fn results_overflow_to_infinity() {
    assert_eq!(f(s(f64::MAX).plus(s(f64::MAX))), f64::INFINITY);
    assert_eq!(f(s(-f64::MAX).plus(s(-f64::MAX))), f64::NEG_INFINITY);
    assert_eq!(f(s(1e200).times(s(-1e200))), f64::NEG_INFINITY);
    // half an ulp above the largest number rounds up, less does not
    assert_eq!(f(s(f64::MAX).plus(s(9.979201547673599e291))), f64::INFINITY);
    assert_eq!(f(s(f64::MAX).plus(s(9.979201547673598e291))), f64::MAX);
}

#[test]
fn results_underflow_gradually() {
    let least = f64::from_bits(1);
    assert_eq!(f(s(least).times(s(0.5))), 0.0);
    assert_eq!(f(s(least).times(s(0.75))), least);
    assert_eq!(f(s(least).times(s(1.5))), f64::from_bits(2));
    assert_eq!(f(s(f64::from_bits(3)).times(s(0.5))), f64::from_bits(2));
    assert_eq!(f(s(f64::MIN_POSITIVE).plus(s(-least))), f64::from_bits(0x000f_ffff_ffff_ffff));
    assert_eq!(f(s(1e-200).times(s(1e-200))), 0.0);
}

#[test]
fn round_gives_the_nearest_number() {
    assert_eq!(f(Scalar::round(false, 1, 0)), 1.0);
    assert_eq!(f(Scalar::round(true, 3, 0)), -3.0);
    assert_eq!(f(Scalar::round(false, 3, -1)), 1.5);
    assert_eq!(f(Scalar::round(false, 1, -1074)), f64::from_bits(1));
    assert_eq!(f(Scalar::round(false, 1, -1075)), 0.0);
    assert_eq!(f(Scalar::round(false, 3, -1075)), f64::from_bits(2));
    assert_eq!(f(Scalar::round(false, 1, 1023)), 8.98846567431158e307);
    assert_eq!(f(Scalar::round(false, 1, 1024)), f64::INFINITY);
    assert_eq!(f(Scalar::round(false, 1, 4096)), f64::INFINITY);
    assert_eq!(f(Scalar::round(false, 1, -4096)), 0.0);
    assert_eq!(Scalar::round(true, 0, 7).to_bits(), 0x8000_0000_0000_0000);
    assert_eq!(f(Scalar::round(false, (1u128 << 53) + 1, 0)), 9007199254740992.0);
    assert_eq!(f(Scalar::round(false, (1u128 << 53) + 3, 0)), 9007199254740996.0);
    assert_eq!(f(Scalar::round(false, (1u128 << 120) - 1, 0)), 1.329227995784916e36);
    assert_eq!(f(Scalar::round(false, u128::MAX, -128)), 1.0);
    assert_eq!(f(Scalar::round(true, u128::MAX, 0)), -3.402823669209385e38);
    assert_eq!(f(Scalar::round(false, u128::MAX, -1202)), f64::from_bits(1));
    assert_eq!(f(Scalar::round(false, 1u128 << 127, -1202)), 0.0);
    assert_eq!(f(Scalar::round(false, (1u128 << 127) + 1, -1202)), f64::from_bits(1));
    assert_eq!(f(Scalar::round(false, u128::MAX, -1203)), 0.0);
    assert_eq!(f(Scalar::round(false, u128::MAX, i64::MIN)), 0.0);
    assert_eq!(f(Scalar::round(true, 1, i64::MAX)), f64::NEG_INFINITY);
    assert_eq!(f(Scalar::round(false, u128::MAX, 896)), f64::INFINITY);
    assert_eq!(f(Scalar::round(false, u128::MAX - (1 << 74), 896)), f64::MAX);
    assert_eq!(f(Scalar::round(false, 10_000_000_000_000_000_000_000, 0)), 1e22);
}

#[test]
fn the_parts_of_a_number() {
    let x = s(-6.5);
    assert!(x.is_negative());
    assert!(x.is_finite());
    assert!(!x.is_nan());
    assert_eq!(x.magnitude_bits(), 6.5f64.to_bits());
    // 6.5 = 13 * 2^-1 = (13 * 2^49) * 2^-50
    assert_eq!(x.significand_bits(), 13 << 49);
    assert_eq!(x.exponent_value(), -50);
    let least = Scalar::from_bits(1);
    assert_eq!(least.significand_bits(), 1);
    assert_eq!(least.exponent_value(), -1074);
    assert_eq!(s(f64::MIN_POSITIVE).significand_bits(), 1 << 52);
    assert_eq!(s(f64::MIN_POSITIVE).exponent_value(), -1074);
    assert!(!s(f64::INFINITY).is_finite());
}

#[test]
fn draws_stand_for_the_points_of_the_unit_interval() {
    assert_eq!(DRAW_LIMIT, 1 << 53);
    assert_eq!(f(Scalar::from_draw(0)), -1.0);
    assert_eq!(f(Scalar::from_draw(DRAW_LIMIT)), 1.0);
    assert_eq!(Scalar::from_draw(1 << 52).to_bits(), 0);
    assert_eq!(f(Scalar::from_draw((1 << 52) + (1 << 51))), 0.5);
    assert_eq!(f(Scalar::from_draw(1 << 50)), -0.75);
    assert_eq!(f(Scalar::from_draw((1 << 52) + 1)), 2.220446049250313e-16);
    assert_eq!(f(Scalar::from_draw((1 << 52) - 1)), -2.220446049250313e-16);
    assert_eq!(f(Scalar::from_draw(u64::MAX)), 4095.0);
}

#[test]
fn perturb_moves_by_the_rate_times_the_point() {
    assert_eq!(f(s(1.0).perturb(s(0.5), DRAW_LIMIT)), 1.5);
    assert_eq!(f(s(1.0).perturb(s(0.5), 0)), 0.5);
    assert_eq!(f(s(1.0).perturb(s(0.5), 1 << 52)), 1.0);
    assert_eq!(f(s(1.0).perturb(s(-0.5), DRAW_LIMIT)), 0.5);
    assert_eq!(f(s(-3.0).perturb(s(10.0), (1 << 52) + (1 << 50))), -0.5);
    assert_eq!(f(s(1.0).perturb(s(0.1), (1 << 52) + (1 << 51))), 1.0 + 0.1 * 0.5);
}

#[test]
fn powers_of_two() {
    assert_eq!(pow2_u128(0), 1);
    assert_eq!(pow2_u128(10), 1024);
    for k in 0..128u32 {
        assert_eq!(pow2_u128(k), 1u128 << k);
    }
}

#[test]
fn bit_lengths() {
    assert_eq!(bit_length(0), 0);
    assert_eq!(bit_length(1), 1);
    assert_eq!(bit_length(5), 3);
    assert_eq!(bit_length(u128::MAX), 128);
    for k in 0..128u32 {
        assert_eq!(bit_length(1u128 << k), k + 1);
        assert_eq!(bit_length((1u128 << k) - 1), k);
    }
}

#[test]
fn scalars_are_equal_by_pattern() {
    assert_eq!(s(1.5), Scalar::from_bits(0x3ff8_0000_0000_0000));
    assert_eq!(s(f64::NAN), s(f64::NAN));
    assert_ne!(s(0.0), s(-0.0));
    assert_eq!(s(2.5).bits, 0x4004_0000_0000_0000);
}
