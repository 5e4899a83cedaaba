use std::str::FromStr;

use troy::sqrt::{simple, sqrt_raw, square_at_most, wide, SIMPLE_MAX};
use troy::Dec;

const ONE_U: u128 = 1_000_000_000_000_000_000;

fn parse(text: &str) -> Dec {
    Dec::from_str(text).unwrap()
}

fn dec(text: &str) -> Dec {
    parse(text)
}

#[test]
fn test_the_threshold_splits_the_paths_where_the_product_stops_fitting() {
    // one below it the product still fits a u128, one above it does not
    assert!(SIMPLE_MAX.checked_mul(ONE_U).is_some());
    assert_eq!((SIMPLE_MAX + 1).checked_mul(ONE_U), None);
    assert!(dec("100").into_raw() as u128 <= SIMPLE_MAX);
    assert!(dec("104_237.25").into_raw() as u128 > SIMPLE_MAX);
}

#[test]
fn test_the_two_paths_agree_where_both_are_valid() {
    let mut state = 0x2545_F491_4F6C_DD1D_u64;
    for _ in 0..20_000 {
        state ^= state << 13;
        state ^= state >> 7;
        state ^= state << 17;
        let raw = ONE_U + (state as u128) % (SIMPLE_MAX - ONE_U);
        assert_eq!(simple(raw), wide(raw), "{raw}");
    }
    for raw in [ONE_U, ONE_U + 1, SIMPLE_MAX - 1, SIMPLE_MAX] {
        assert_eq!(simple(raw), wide(raw), "{raw}");
    }
}

#[test]
fn test_a_perfect_square_is_exact() {
    for text in ["0", "1", "4", "16", "100", "2.25", "0.25", "0.000000000001"] {
        let value = parse(text);
        assert_eq!(value.sqrt() * value.sqrt(), value, "{text}");
    }
    assert_eq!(dec("16").sqrt(), dec("4"));
    assert_eq!(dec("2.25").sqrt(), dec("1.5"));
    assert_eq!(Dec::zero().sqrt(), Dec::zero());
    assert_eq!(Dec::one().sqrt(), Dec::one());
}

#[test]
fn test_an_irrational_root_rounds_half_away_from_zero() {
    assert_eq!(dec("2").sqrt(), parse("1.414213562373095049"));
    assert_eq!(dec("3").sqrt(), parse("1.732050807568877294"));
    assert_eq!(dec("10").sqrt(), parse("3.162277660168379332"));
}

#[test]
fn test_the_root_brackets_the_value() {
    let mut state = 0x1234_5678_9abc_def1_u64;
    for _ in 0..20_000 {
        state ^= state << 13;
        state ^= state >> 7;
        state ^= state << 17;
        let raw = (state as u128) * (state as u128 | 1) % (Dec::max_value().into_raw() as u128);
        let root = sqrt_raw(raw) as u128;
        let floor = match square_at_most(root, 0, raw) {
            true => root,
            // rounded up, so the floor is one below
            false => root - 1,
        };
        assert!(square_at_most(floor, 0, raw), "{raw}");
        assert!(!square_at_most(floor + 1, 0, raw), "{raw}");
    }
}

#[test]
fn test_the_root_is_monotonic() {
    let mut previous = Dec::zero();
    for raw in (0..2_000).map(|step: u32| step as i128 * (Dec::max_value().into_raw() / 2_000)) {
        let root = Dec::from_raw(raw).sqrt();
        assert!(root >= previous, "{raw}");
        previous = root;
    }
}

#[test]
fn test_the_largest_value_has_a_root_far_inside_the_range() {
    let root = Dec::max_value().sqrt();
    assert!(root.is_finite());
    assert_eq!(root, parse("13043817825.332782212349571806"));
    assert!(root * root <= Dec::max_value());
}

#[test]
fn test_the_smallest_value_has_a_root() {
    assert_eq!(Dec::epsilon().sqrt(), parse("0.000000001"));
    assert_eq!(Dec::from_raw(2).sqrt(), parse("0.000000001414213562"));
}

#[test]
fn test_a_negative_value_is_nan_rather_than_a_complex_number() {
    assert!(dec("-1").sqrt().is_nan());
    assert!(dec("-0.000000000000000001").sqrt().is_nan());
    assert!(Dec::min_value().sqrt().is_nan());
    assert_eq!(dec("-1").checked_sqrt(), None);
    assert_eq!(Dec::min_value().checked_sqrt(), None);
}

#[test]
fn test_nan_propagates_through_the_root() {
    assert!(Dec::nan().sqrt().is_nan());
    assert_eq!(Dec::nan().checked_sqrt(), None);
}

#[test]
fn test_the_root_is_available_in_a_const() {
    let root = dec("6.25").sqrt();
    assert_eq!(root, dec("2.5"));
}

#[test]
fn test_checked_sqrt_agrees_with_sqrt() {
    for text in ["0", "2", "6.25", "104237.25"] {
        assert_eq!(dec(text).checked_sqrt(), Some(dec(text).sqrt()), "{text}");
    }
}
