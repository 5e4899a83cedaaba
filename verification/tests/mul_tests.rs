use std::str::FromStr;

use troy::mul::{div_exact_1e9, mul_wide, INV_5_9, LIMIT_1E9};
use troy::Dec;

fn dec(text: &str) -> Dec {
    Dec::from_str(text).unwrap()
}

#[test]
fn test_the_magic_constants_match_their_definitions() {
    // INV_5_9 is the inverse of the odd part of 10^9 modulo 2^128
    let five_pow_nine: u128 = 5_u128.pow(9);
    assert_eq!(INV_5_9.wrapping_mul(five_pow_nine), 1);
    assert_eq!(LIMIT_1E9, u128::MAX / 1_000_000_000);
}

#[test]
fn test_exact_division_matches_plain_division() {
    for value in [0_u128, 1_000_000_000, 123_456_789_000_000_000, u128::MAX / 2] {
        let expected = match value % 1_000_000_000 == 0 {
            true => Some(value / 1_000_000_000),
            false => None,
        };
        assert_eq!(div_exact_1e9(value), expected, "{value}");
    }
    assert_eq!(div_exact_1e9(7), None);
    assert_eq!(div_exact_1e9(999_999_999), None);
}

#[test]
fn mul_test_market_precision_takes_the_fast_path() {
    assert!(div_exact_1e9(dec("104_237.25").into_raw().unsigned_abs()).is_some());
    assert!(div_exact_1e9(dec("0.00135").into_raw().unsigned_abs()).is_some());
    assert_eq!(dec("104_237.25") * dec("0.00135"), dec("140.72028750"));
}

#[test]
fn mul_test_finer_than_nine_decimals_takes_the_wide_path() {
    let fine = Dec::from_str("0.0000000001").unwrap();
    assert!(div_exact_1e9(fine.into_raw().unsigned_abs()).is_none());
    assert_eq!(fine * dec("3"), Dec::from_str("0.0000000003").unwrap());
    assert_eq!(Dec::epsilon() * dec("1000"), Dec::from_raw(1_000));
}

#[test]
fn test_both_paths_agree() {
    for (left, right) in [
        ("1", "1"),
        ("2.5", "4"),
        ("-3.75", "8"),
        ("0.1", "0.1"),
        ("104237.25", "0.00135"),
        ("10000000000", "10000000000"),
        ("0.000000001", "0.000000001"),
    ] {
        let a = Dec::from_str(left).unwrap();
        let b = Dec::from_str(right).unwrap();
        let wide = mul_wide(
            a.into_raw().unsigned_abs(),
            b.into_raw().unsigned_abs(),
            (a.into_raw() < 0) != (b.into_raw() < 0),
        );
        assert_eq!(Some((a * b).into_raw()), wide, "{left} * {right}");
    }
}

#[test]
fn test_signs_identities_and_overflow() {
    assert_eq!(dec("-2") * dec("3"), dec("-6"));
    assert_eq!(dec("-2") * dec("-3"), dec("6"));
    assert_eq!(dec("7.5") * Dec::one(), dec("7.5"));
    assert_eq!(dec("7.5") * Dec::zero(), Dec::zero());
    assert_eq!(dec("7.5") * Dec::neg_one(), dec("-7.5"));
    assert_eq!(Dec::max_value().checked_mul(Dec::max_value()), None);
    assert_eq!(Dec::max_value().checked_mul(dec("-2")), None);
    assert_eq!(Dec::max_value().saturating_mul(dec("-2")), Dec::min_value());

    let mut value = dec("3");
    value *= dec("4");
    assert_eq!(value, dec("12"));
}

#[test]
fn test_the_operators_answer_nan_where_checked_answers_none() {
    // a product past the range, a sum past it and a difference past it
    assert!((Dec::max_value() * dec("2")).is_nan());
    assert!((Dec::max_value() + Dec::one()).is_nan());
    assert!((Dec::min_value() - Dec::one()).is_nan());
    assert!((Dec::nan() * dec("0")).is_nan());
    assert!((Dec::nan() - Dec::nan()).is_nan());
    assert_eq!(Dec::nan().checked_add(Dec::one()), None);
    assert!(Dec::nan().saturating_add(Dec::one()).is_nan());
    assert!(Dec::nan().saturating_mul(dec("2")).is_nan());
    assert_eq!(dec("1.5").checked_mul(dec("2")), Some(dec("3")));
}
