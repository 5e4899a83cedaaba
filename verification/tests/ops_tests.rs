use std::str::FromStr;

use troy::Dec;

fn dec(text: &str) -> Dec {
    Dec::from_str(text).unwrap()
}

#[test]
fn test_integer_conversions() {
    assert_eq!(Dec::from_int(-7), dec("-7"));
    assert_eq!(Dec::from(3_i32), dec("3"));
    assert_eq!(Dec::from(3_u32), dec("3"));
    assert_eq!(Dec::from(3_i64), dec("3"));
    assert_eq!(Dec::from(3_u64), dec("3"));
    assert_eq!(Dec::from(i64::MAX).to_string(), "9223372036854775807");
    assert_eq!(Dec::from(u64::MAX).to_string(), "18446744073709551615");
}

#[test]
fn test_raw_round_trip() {
    assert_eq!(Dec::from_raw(dec("1.5").into_raw()), dec("1.5"));
    assert_eq!(Dec::one().into_raw(), 1_000_000_000_000_000_000);
}

#[test]
fn test_i128_min_is_the_one_raw_outside_the_range() {
    assert!(Dec::from_raw(i128::MIN).is_nan());
    assert_eq!(Dec::from_raw(i128::MAX), Dec::max_value());
    assert_eq!(Dec::from_raw(Dec::min_value().into_raw()), Dec::min_value());

    assert_eq!(Dec::from_raw_saturating(i128::MIN), Dec::min_value());
    assert_eq!(Dec::from_raw_saturating(i128::MAX), Dec::max_value());
}

#[test]
fn test_the_range_is_symmetric() {
    assert_eq!(-Dec::min_value(), Dec::max_value());
    assert_eq!(-Dec::max_value(), Dec::min_value());
    assert_eq!(Dec::min_value().into_raw(), -Dec::max_value().into_raw());
}

#[test]
fn test_default_is_zero() {
    assert_eq!(Dec::default(), Dec::zero());
}

#[test]
fn test_checked_add_reports_overflow() {
    assert_eq!(dec("1").checked_add(dec("2")), Some(dec("3")));
    assert_eq!(dec("1.5").checked_add(dec("-2.5")), Some(dec("-1")));
    assert_eq!(Dec::max_value().checked_add(Dec::epsilon()), None);
    assert_eq!(Dec::min_value().checked_add(-Dec::epsilon()), None);
    assert_eq!(Dec::max_value().checked_add(Dec::zero()), Some(Dec::max_value()));
}

#[test]
fn test_checked_sub_reports_overflow() {
    assert_eq!(dec("3").checked_sub(dec("1")), Some(dec("2")));
    assert_eq!(Dec::min_value().checked_sub(Dec::epsilon()), None);
    assert_eq!(Dec::max_value().checked_sub(-Dec::epsilon()), None);
    assert_eq!(Dec::min_value().checked_sub(Dec::zero()), Some(Dec::min_value()));
}

#[test]
fn test_saturating_methods_clamp_at_the_bounds() {
    assert_eq!(Dec::max_value().saturating_add(Dec::one()), Dec::max_value());
    assert_eq!(Dec::min_value().saturating_sub(Dec::one()), Dec::min_value());
    assert_eq!(dec("1").saturating_add(dec("2")), dec("3"));
    assert_eq!(dec("1").saturating_sub(dec("2")), dec("-1"));
}

#[test]
fn test_assign_operators() {
    let mut value = dec("1");
    value += dec("0.5");
    assert_eq!(value, dec("1.5"));
    value -= dec("2");
    assert_eq!(value, dec("-0.5"));

    let mut product = dec("3");
    product *= dec("4");
    assert_eq!(product, dec("12"));
}

#[test]
fn test_sum_over_values_and_references() {
    let values = [dec("0.1"), dec("0.2"), dec("0.3")];
    assert_eq!(Dec::sum_of(&values), dec("0.6"));
    assert_eq!(Dec::sum_of(&values[..]), dec("0.6"));
    assert_eq!(Dec::sum_of(&[]), Dec::zero());
}

#[test]
fn test_a_sum_past_the_range_stays_nan() {
    let values = [Dec::max_value(), Dec::one(), Dec::neg_one()];
    assert!(Dec::sum_of(&values).is_nan());
    assert_eq!(dec("1").sum(dec("2")), dec("3"));
}
