use std::str::FromStr;

use rust_decimal::Decimal;
use troy::{Dec, ParseDecError};

fn decimal(text: &str) -> Decimal {
    Decimal::from_str(text).unwrap()
}

fn dec(text: &str) -> Dec {
    Dec::from_str(text).unwrap()
}

#[test]
fn test_round_trip_of_values_inside_both_ranges() {
    for text in [
        "0",
        "1",
        "-1",
        "0.5",
        "-0.5",
        "123.456",
        "-12345.6789",
        "0.000000000000000001",
        "79228162514.264337593543950335",
    ] {
        let value = Dec::from_decimal(decimal(text)).unwrap();
        assert_eq!(value, Dec::from_str(text).unwrap(), "from {text}");
        assert_eq!(value.to_decimal().unwrap(), decimal(text), "to {text}");
    }
}

#[test]
fn test_excess_places_round_half_away_from_zero() {
    assert_eq!(Dec::from_decimal(decimal("1.0000000000000000005")).unwrap(), dec("1.000000000000000001"));
    assert_eq!(Dec::from_decimal(decimal("-1.0000000000000000005")).unwrap(), dec("-1.000000000000000001"));
    assert_eq!(Dec::from_decimal(decimal("1.0000000000000000004")).unwrap(), dec("1"));
}

#[test]
fn test_a_decimal_beyond_the_dec_range_overflows() {
    assert_eq!(Dec::from_decimal(Decimal::MAX), None);
    assert_eq!(Dec::from_decimal(Decimal::MIN), None);
    assert_eq!(Dec::try_from(Decimal::MAX).unwrap_err(), ParseDecError::Overflow);
}

#[test]
fn test_a_dec_beyond_the_decimal_mantissa_overflows() {
    assert_eq!(Dec::max_value().to_decimal(), None);
    assert_eq!(Dec::min_value().to_decimal(), None);
    assert_eq!(Decimal::try_from(Dec::max_value()).unwrap_err(), ParseDecError::Overflow);
}

#[test]
fn test_conversions_are_available_as_traits() {
    let value: Dec = Decimal::from_str("2.5").unwrap().try_into().unwrap();
    assert_eq!(value, dec("2.5"));
    let back: Decimal = value.try_into().unwrap();
    assert_eq!(back, decimal("2.5"));
}

#[test]
fn test_from_parts_scales_and_rounds() {
    assert_eq!(Dec::from_parts(25, 1), Some(dec("2.5")));
    assert_eq!(Dec::from_parts(-15, 19), Some(dec("-0.000000000000000002")));
    assert_eq!(Dec::from_parts(14, 19), Some(dec("0.000000000000000001")));
    assert_eq!(Dec::from_parts(1, 60), Some(Dec::zero()));
    assert_eq!(Dec::from_parts(i128::MAX, 0), None);
    assert_eq!(Dec::from_parts(170_141_183_460_469_231_731, 0), Some(dec("170141183460469231731")));
    assert_eq!(Dec::from_parts(170_141_183_460_469_231_732, 0), None);
}

#[test]
fn test_to_decimal_holds_the_raw_at_the_native_scale() {
    for text in ["0", "-12345.6789", "0.000000000000000001", "79228162514.264337593543950335"] {
        let value = dec(text);
        let decimal = value.to_decimal().unwrap();
        assert_eq!(decimal.mantissa(), value.into_raw(), "{text}");
        assert_eq!(decimal.scale(), 18, "{text}");
        assert_eq!(Dec::from_decimal(decimal), Some(value), "{text}");
    }
}
