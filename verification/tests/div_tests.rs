use std::str::FromStr;

use troy::div::{long_division, scale_by, wide, CHUNK, CHUNK_LIMIT};
use troy::Dec;

const ONE_U: u128 = 1_000_000_000_000_000_000;
const MAX_RAW: i128 = i128::MAX;

fn parse(text: &str) -> Dec {
    Dec::from_str(text).unwrap()
}

fn dec(text: &str) -> Dec {
    parse(text)
}

#[test]
fn div_test_market_precision_takes_the_fast_path() {
    // every price, size and tick carries at most 9 decimals, so its raw is
    // a multiple of 10^9 and the divisor cancels before it is scaled
    for text in ["0.00135", "104237.25", "1", "0.000000001"] {
        let raw = parse(text).into_raw().unsigned_abs();
        assert!(raw % CHUNK == 0, "{text}");
    }
    assert_eq!(dec("104_237.25") / dec("0.00135"), parse("77212777.777777777777777778"));
}

#[test]
fn div_test_finer_than_nine_decimals_takes_the_wide_path() {
    let fine = parse("0.0000000001");
    assert!(fine.into_raw().unsigned_abs() % CHUNK != 0);
    assert_eq!(dec("1") / fine, parse("10000000000"));
    assert_eq!(Dec::one() / Dec::epsilon(), parse("1000000000000000000"));
}

#[test]
fn test_a_huge_divisor_with_fine_decimals_takes_the_long_path() {
    // past this the 10^9 steps overflow and the scaling walks bit by bit
    let divisor = parse("400000000000.000000000000000001");
    assert!(divisor.into_raw().unsigned_abs() > CHUNK_LIMIT);
    assert_eq!(dec("1") / divisor, parse("0.0000000000025"));
    assert_eq!(divisor / dec("3"), parse("133333333333.333333333333333334"));
}

#[test]
fn test_the_bit_walk_agrees_with_the_chunked_steps() {
    for (left, right) in [
        ("1", "3"),
        ("2", "3"),
        ("104237.25", "0.0000000000007"),
        ("-7.5", "2.0000000000000001"),
        ("0.000000000000000001", "1.0000000000000003"),
        ("170141183460469231731.687303715884105727", "99999999.9999999999999"),
    ] {
        let a = parse(left).into_raw().unsigned_abs();
        let b = parse(right).into_raw().unsigned_abs();
        assert!(b <= CHUNK_LIMIT, "{right} is outside the chunked range");
        let (quotient, remainder) = (a / b, a % b);
        let whole = quotient.checked_mul(ONE_U).unwrap();
        assert_eq!(wide(a, b), long_division(whole, remainder, b), "{left} / {right}");
    }
}

#[test]
fn test_the_paths_agree_over_random_inputs() {
    let mut state = 0x2545_F491_4F6C_DD1D_u64;
    let mut checked = 0;
    for _ in 0..20_000 {
        state ^= state << 13;
        state ^= state >> 7;
        state ^= state << 17;
        let a = (state as u128) * (state as u128 | 1);
        let b = match state % 3 {
            // a divisor small enough for every path to handle it
            0 => (state >> 20) as u128 | 1,
            1 => ((state >> 20) as u128 | 1) * CHUNK,
            _ => (state >> 8) as u128 | 1,
        };
        if b > CHUNK_LIMIT || a > MAX_RAW as u128 {
            continue;
        }
        let whole = match (a / b).checked_mul(ONE_U) {
            Some(whole) => whole,
            None => continue,
        };
        let expected = long_division(whole, a % b, b);
        assert_eq!(wide(a, b), expected, "wide {a} / {b}");
        if b % CHUNK == 0 {
            assert_eq!(scale_by(a, b / CHUNK, CHUNK), expected, "fast {a} / {b}");
        }
        checked += 1;
    }
    assert!(checked > 5_000, "only {checked} cases were in range");
}

#[test]
fn test_ties_round_half_away_from_zero() {
    assert_eq!(dec("1") / dec("3"), parse("0.333333333333333333"));
    assert_eq!(dec("2") / dec("3"), parse("0.666666666666666667"));
    assert_eq!(dec("1") / dec("7"), parse("0.142857142857142857"));
    // an exact half at the last place goes away from zero on both signs
    assert_eq!(Dec::from_raw(1) / dec("2"), Dec::from_raw(1));
    assert_eq!(Dec::from_raw(-1) / dec("2"), Dec::from_raw(-1));
    assert_eq!(Dec::from_raw(3) / dec("2"), Dec::from_raw(2));
}

#[test]
fn test_signs_and_identities() {
    assert_eq!(dec("10") / dec("4"), dec("2.5"));
    assert_eq!(dec("-7.5") / dec("2"), dec("-3.75"));
    assert_eq!(dec("7.5") / dec("-2"), dec("-3.75"));
    assert_eq!(dec("-7.5") / dec("-2"), dec("3.75"));
    assert_eq!(dec("7.5") / Dec::one(), dec("7.5"));
    assert_eq!(dec("7.5") / dec("7.5"), Dec::one());
    assert_eq!(Dec::zero() / dec("7.5"), Dec::zero());
    assert_eq!(dec("7.5") / Dec::neg_one(), dec("-7.5"));
    assert_eq!(Dec::max_value() / dec("2"), parse("85070591730234615865.843651857942052864"));

    let mut value = dec("12");
    value /= dec("4");
    assert_eq!(value, dec("3"));
}

#[test]
fn test_dividing_by_zero_is_nan_rather_than_infinity() {
    assert!((dec("1") / Dec::zero()).is_nan());
    assert!((dec("-1") / Dec::zero()).is_nan());
    assert!((Dec::zero() / Dec::zero()).is_nan());
    assert_eq!(dec("1").checked_div(Dec::zero()), None);
    assert!(dec("1").saturating_div(Dec::zero()).is_nan());
}

#[test]
fn test_nan_propagates_through_division() {
    assert!((Dec::nan() / dec("2")).is_nan());
    assert!((dec("2") / Dec::nan()).is_nan());
    assert_eq!(Dec::nan().checked_div(dec("2")), None);
    assert_eq!(dec("2").checked_div(Dec::nan()), None);
    assert!(Dec::nan().saturating_div(dec("2")).is_nan());
}

#[test]
fn test_a_quotient_past_the_range_overflows() {
    assert_eq!(Dec::max_value().checked_div(dec("0.5")), None);
    assert_eq!(Dec::max_value().checked_div(Dec::epsilon()), None);
    assert!((Dec::max_value() / dec("0.5")).is_nan());
    assert_eq!(Dec::max_value().saturating_div(dec("0.5")), Dec::max_value());
    assert_eq!(Dec::max_value().saturating_div(dec("-0.5")), Dec::min_value());
    assert_eq!(Dec::min_value().saturating_div(dec("0.5")), Dec::min_value());
}

#[test]
fn test_dividing_then_multiplying_returns_the_value() {
    for (left, right) in [
        ("104237.25", "0.00135"),
        ("1", "8"),
        ("-12345.6789", "2.5"),
        ("0.000000000000000004", "2"),
    ] {
        let (a, b) = (parse(left), parse(right));
        assert_eq!((a / b) * b, a, "{left} / {right}");
    }
}
