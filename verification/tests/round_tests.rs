use std::str::FromStr;

use troy::round::pow10_exponent;
use troy::{Dec, RoundingStrategy};
use troy::RoundingStrategy::{
    AwayFromZero, MidpointAwayFromZero, MidpointNearestEven, ToNegativeInfinity, ToPositiveInfinity, ToZero,
};

fn dec(text: &str) -> Dec {
    Dec::from_str(text).unwrap()
}

fn values() -> [Dec; 9] {
    [
        Dec::zero(),
        dec("0.5"),
        dec("-0.5"),
        dec("2.5"),
        dec("1.234567"),
        dec("-1.234567"),
        dec("1234.98765"),
        Dec::max_value(),
        Dec::min_value(),
    ]
}

const ALL: [RoundingStrategy; 6] =
    [MidpointAwayFromZero, MidpointNearestEven, ToZero, AwayFromZero, ToNegativeInfinity, ToPositiveInfinity];

#[test]
fn test_powers_of_ten_match_round_dp() {
    for value in values() {
        for dp in 0..=Dec::SCALE {
            let step = Dec::from_raw(10_i128.pow(Dec::SCALE - dp));
            assert_eq!(value.round_to_step(step), value.round_dp(dp), "value {value:?} step {step:?}");
        }
    }
}

#[test]
fn test_arbitrary_steps() {
    assert_eq!(dec("1.6543").round_to_step(dec("0.25")), dec("1.75"));
    assert_eq!(dec("-1.6543").round_to_step(dec("0.25")), dec("-1.75"));
    assert_eq!(dec("103").round_to_step(dec("5")), dec("105"));
    assert_eq!(dec("102").round_to_step(dec("5")), dec("100"));
}

#[test]
fn test_halves_round_away_from_zero() {
    assert_eq!(dec("1.125").round_to_step(dec("0.01")), dec("1.13"));
    assert_eq!(dec("-1.125").round_to_step(dec("0.01")), dec("-1.13"));
    assert_eq!(dec("0.5").round_to_step(Dec::one()), Dec::one());
    assert_eq!(dec("-0.5").round_to_step(Dec::one()), Dec::neg_one());
}

#[test]
fn test_a_rounded_up_fraction_carries() {
    assert_eq!(dec("1.999").round_to_step(dec("0.01")), dec("2"));
    assert_eq!(dec("-1.999").round_to_step(dec("0.01")), dec("-2"));
    assert_eq!(dec("0.9999").round_to_step(dec("0.001")), Dec::one());
}

#[test]
fn test_a_step_of_ten_or_more_rounds_the_integer_part() {
    assert_eq!(dec("104").round_to_step(dec("10")), dec("100"));
    assert_eq!(dec("105").round_to_step(dec("10")), dec("110"));
    assert_eq!(dec("1449").round_to_step(dec("100")), dec("1400"));
}

#[test]
fn test_a_non_positive_step_is_a_no_op() {
    assert_eq!(dec("1.5").round_to_step(Dec::zero()), dec("1.5"));
    assert_eq!(dec("1.5").round_to_step(dec("-0.01")), dec("1.5"));
}

#[test]
fn test_the_extremes_become_nan() {
    assert!(Dec::max_value().round_to_step(Dec::one()).is_nan());
    assert!(Dec::min_value().round_to_step(Dec::one()).is_nan());
    assert!(Dec::max_value().round_to_step(dec("0.25")).is_nan());
    assert!(Dec::min_value().round_to_step(dec("0.25")).is_nan());
}

#[test]
fn test_nan_survives_both_rounding_paths() {
    assert!(Dec::nan().round_to_step(Dec::one()).is_nan());
    assert!(Dec::nan().round_to_step(dec("0.25")).is_nan());
    assert!(dec("1.5").round_to_step(Dec::nan()).is_nan());
    assert!(Dec::nan().round_dp(2).is_nan());
    assert!(Dec::nan().round_dp(Dec::SCALE).is_nan());
}

#[test]
fn test_pow10_exponent_finds_every_power() {
    for exponent in 0..=38_u32 {
        let power = 10_i128.pow(exponent);
        assert_eq!(pow10_exponent(power), Some(exponent));
    }
    assert_eq!(pow10_exponent(25), None);
    assert_eq!(pow10_exponent(999), None);
    assert_eq!(pow10_exponent(i128::MAX), None);
}

#[test]
fn test_each_strategy_resolves_a_fraction_its_own_way() {
    for (value, expected) in [
        ("1.284", ["1.28", "1.28", "1.28", "1.29", "1.28", "1.29"]),
        ("1.286", ["1.29", "1.29", "1.28", "1.29", "1.28", "1.29"]),
        ("-1.284", ["-1.28", "-1.28", "-1.28", "-1.29", "-1.29", "-1.28"]),
        ("-1.286", ["-1.29", "-1.29", "-1.28", "-1.29", "-1.29", "-1.28"]),
    ] {
        for (strategy, expected) in ALL.into_iter().zip(expected) {
            assert_eq!(dec(value).round_dp_with(2, strategy), dec(expected), "{value} at 2 places {strategy:?}");
        }
    }
}

#[test]
fn test_a_tie_splits_the_two_nearest_strategies() {
    assert_eq!(dec("0.5").round_dp_with(0, MidpointNearestEven), Dec::zero());
    assert_eq!(dec("1.5").round_dp_with(0, MidpointNearestEven), dec("2"));
    assert_eq!(dec("2.5").round_dp_with(0, MidpointNearestEven), dec("2"));
    assert_eq!(dec("3.5").round_dp_with(0, MidpointNearestEven), dec("4"));
    assert_eq!(dec("-2.5").round_dp_with(0, MidpointNearestEven), dec("-2"));
    assert_eq!(dec("-3.5").round_dp_with(0, MidpointNearestEven), dec("-4"));

    assert_eq!(dec("2.5").round_dp_with(0, MidpointAwayFromZero), dec("3"));
    assert_eq!(dec("-2.5").round_dp_with(0, MidpointAwayFromZero), dec("-3"));
}

#[test]
fn test_nearest_even_holds_on_an_odd_step() {
    for raw in -40_i128..=40 {
        let value = Dec::from_raw(raw);
        let step = Dec::from_raw(3);
        assert_eq!(
            value.round_to_step_with(step, MidpointNearestEven),
            value.round_to_step_with(step, MidpointAwayFromZero),
            "raw {raw} to a step of 3"
        );
    }
}

#[test]
fn test_the_zero_place_strategies_are_floor_ceil_and_trunc() {
    for value in [dec("2.5"), dec("-2.5"), dec("1.0001"), dec("-1.0001"), dec("7"), Dec::zero()] {
        assert_eq!(value.round_dp_with(0, ToNegativeInfinity), value.floor(), "{value:?}");
        assert_eq!(value.round_dp_with(0, ToPositiveInfinity), value.ceil(), "{value:?}");
        assert_eq!(value.round_dp_with(0, ToZero), value.trunc(), "{value:?}");
    }
}

#[test]
fn test_the_default_is_what_the_plain_methods_do() {
    assert_eq!(RoundingStrategy::default(), MidpointAwayFromZero);
    for value in [dec("1.125"), dec("-1.125"), dec("104_237.286"), Dec::max_value(), Dec::min_value()] {
        for dp in 0..=Dec::SCALE {
            assert_eq!(
                value.round_dp_with(dp, RoundingStrategy::default()),
                value.round_dp(dp),
                "{value:?} at {dp} places"
            );
        }
        assert_eq!(
            value.round_to_step_with(dec("0.25"), RoundingStrategy::default()),
            value.round_to_step(dec("0.25")),
            "{value:?} to a step of 0.25"
        );
    }
}

#[test]
fn test_an_exact_value_never_moves() {
    for strategy in ALL {
        for value in [dec("1.25"), dec("-1.25"), dec("100"), Dec::zero()] {
            assert_eq!(value.round_to_step_with(dec("0.25"), strategy), value, "{value:?} {strategy:?}");
        }
    }
}

#[test]
fn test_a_directed_strategy_carries_into_the_integer_part() {
    assert_eq!(dec("1.991").round_dp_with(2, ToPositiveInfinity), dec("2"));
    assert_eq!(dec("-1.991").round_dp_with(2, ToNegativeInfinity), dec("-2"));
    assert_eq!(dec("0.9991").round_dp_with(3, AwayFromZero), Dec::one());
    assert_eq!(dec("-0.9991").round_dp_with(3, AwayFromZero), Dec::neg_one());
}

#[test]
fn test_towards_zero_never_leaves_the_range() {
    for value in [Dec::max_value(), Dec::min_value()] {
        assert!(value.round_dp_with(0, ToZero).is_finite(), "{value:?}");
        assert!(value.round_dp_with(0, AwayFromZero).is_nan(), "{value:?}");
    }
    assert!(Dec::max_value().round_dp_with(0, ToPositiveInfinity).is_nan());
    assert!(Dec::max_value().round_dp_with(0, ToNegativeInfinity).is_finite());
    assert!(Dec::min_value().round_dp_with(0, ToNegativeInfinity).is_nan());
    assert!(Dec::min_value().round_dp_with(0, ToPositiveInfinity).is_finite());
}

#[test]
fn test_nan_survives_every_strategy() {
    for strategy in ALL {
        assert!(Dec::nan().round_dp_with(2, strategy).is_nan(), "{strategy:?}");
        assert!(Dec::nan().round_dp_with(Dec::SCALE, strategy).is_nan(), "{strategy:?}");
        assert!(Dec::nan().round_to_step_with(Dec::one(), strategy).is_nan(), "{strategy:?}");
        assert!(Dec::nan().round_to_step_with(dec("0.25"), strategy).is_nan(), "{strategy:?}");
        assert!(dec("1.5").round_to_step_with(Dec::nan(), strategy).is_nan(), "{strategy:?}");
    }
}

#[test]
fn test_a_non_positive_step_stays_a_no_op() {
    for strategy in ALL {
        assert_eq!(dec("1.5").round_to_step_with(Dec::zero(), strategy), dec("1.5"));
        assert_eq!(dec("1.5").round_to_step_with(dec("-0.01"), strategy), dec("1.5"));
    }
}

#[test]
fn test_rounding_twice_changes_nothing() {
    for value in values() {
        for dp in [0_u32, 2, 9, 18] {
            let once = value.round_dp(dp);
            assert_eq!(once.round_dp(dp), once, "{value:?} at {dp}");
        }
    }
}
