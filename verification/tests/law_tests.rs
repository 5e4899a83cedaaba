use std::str::FromStr;

use troy::{Dec, OrderBookSide, RoundingStrategy};

fn dec(text: &str) -> Dec {
    Dec::from_str(text).unwrap()
}

fn raws() -> Vec<i128> {
    let mut raws = vec![0, 1, -1, i128::MAX, -i128::MAX, 1_000_000_000_000_000_000, -500_000_000_000_000_000];
    let mut state = 0x9e37_79b9_7f4a_7c15_u64;
    for _ in 0..2_000 {
        state ^= state << 13;
        state ^= state >> 7;
        state ^= state << 17;
        let wide = ((state as u128) << 64 | state.rotate_left(17) as u128) >> (state % 100);
        let raw = (wide % i128::MAX as u128) as i128;
        raws.push(if state & 1 == 0 { raw } else { -raw });
    }
    raws
}

#[test]
fn test_every_finite_value_parses_back_from_its_text() {
    for raw in raws() {
        let value = Dec::from_raw(raw);
        assert_eq!(Dec::parse(&value.to_string()), Ok(value), "{raw}");
    }
}

#[test]
fn test_adding_and_subtracting_undo_each_other() {
    for raw in raws() {
        let (a, b) = (Dec::from_raw(raw), dec("104237.25"));
        if let Some(sum) = a.checked_add(b) {
            assert_eq!(sum - b, a, "{raw}");
        }
        if let Some(difference) = a.checked_sub(b) {
            assert_eq!(difference + b, a, "{raw}");
        }
    }
}

#[test]
fn test_the_midpoint_lies_between() {
    let values: Vec<Dec> = raws().into_iter().map(Dec::from_raw).collect();
    for pair in values.windows(2) {
        let (a, b) = (pair[0], pair[1]);
        let mid = a.midpoint(b);
        assert_eq!(mid, b.midpoint(a));
        assert!(a.min(b) <= mid && mid <= a.max(b), "{a:?} {b:?}");
    }
}

#[test]
fn test_rounding_lands_on_a_step_within_reach() {
    let strategies = [
        RoundingStrategy::MidpointAwayFromZero,
        RoundingStrategy::MidpointNearestEven,
        RoundingStrategy::ToZero,
        RoundingStrategy::AwayFromZero,
        RoundingStrategy::ToNegativeInfinity,
        RoundingStrategy::ToPositiveInfinity,
    ];
    let step = dec("0.25");
    for raw in raws() {
        let value = Dec::from_raw(raw);
        for strategy in strategies {
            let rounded = value.round_to_step_with(step, strategy);
            if rounded.is_nan() {
                continue;
            }
            assert_eq!(rounded.into_raw() % step.into_raw(), 0, "{raw} {strategy:?}");
            let distance = (rounded.into_raw() - raw).abs();
            assert!(distance < step.into_raw(), "{raw} {strategy:?}");
            assert_eq!(rounded.round_to_step_with(step, strategy), rounded, "{raw} {strategy:?}");
            match strategy {
                RoundingStrategy::ToNegativeInfinity => assert!(rounded <= value),
                RoundingStrategy::ToPositiveInfinity => assert!(rounded >= value),
                RoundingStrategy::ToZero => assert!(rounded.abs() <= value.abs()),
                RoundingStrategy::AwayFromZero => assert!(rounded.abs() >= value.abs()),
                _ => assert!(2 * distance <= step.into_raw()),
            }
        }
    }
}

#[test]
fn test_floor_and_ceil_bracket_every_value() {
    for raw in raws() {
        let value = Dec::from_raw(raw);
        let (floor, ceil) = (value.floor(), value.ceil());
        if floor.is_finite() {
            assert!(floor <= value && value.into_raw() - floor.into_raw() < 1_000_000_000_000_000_000, "{raw}");
        }
        if ceil.is_finite() {
            assert!(value <= ceil && ceil.into_raw() - value.into_raw() < 1_000_000_000_000_000_000, "{raw}");
        }
    }
}

#[test]
fn test_the_volume_never_falls_with_depth() {
    let mut side = OrderBookSide::bids(None);
    for (price, amount) in [("100", "1"), ("99", "2.5"), ("98", "0.25"), ("97", "4")] {
        side.set_price_amount(dec(price), dec(amount));
    }
    assert_eq!(side.volume_at(1), Some(side.best().unwrap().amount));
    let mut previous = Dec::zero();
    for depth in 1..=side.len() {
        let volume = side.volume_at(depth).unwrap();
        assert!(volume > previous, "{depth}");
        previous = volume;
    }
    assert_eq!(side.volume_at(side.len()), Some(dec("7.75")));
}

#[test]
fn test_float_parts_make_the_value_they_name() {
    assert_eq!(Dec::from_float_parts(1, 500_000_000_000_000_000), Some(dec("1.5")));
    assert_eq!(Dec::from_float_parts(-2, -250_000_000_000_000_000), Some(dec("-2.25")));
    // a fraction of 10^17 or more keeps fifteen of its eighteen digits
    assert_eq!(Dec::from_float_parts(0, 123_456_789_012_345_678), Some(Dec::from_raw(123_456_789_012_346_000)));
    assert_eq!(Dec::from_float_parts(0, 12_345_678_901_234_567), Some(Dec::from_raw(12_345_678_901_234_600)));
    assert_eq!(Dec::from_float_parts(0, 1_234_567_890_123_456), Some(Dec::from_raw(1_234_567_890_123_460)));
    assert_eq!(Dec::from_float_parts(0, 123_456_789_012_345), Some(Dec::from_raw(123_456_789_012_345)));
    assert_eq!(Dec::from_float_parts(i128::MAX, 0), None);
    assert_eq!(Dec::from_float_parts(170_141_183_460_469_231_732, 0), None);
    assert_eq!(Dec::from_float_parts(170_141_183_460_469_231_731, 0), Some(dec("170141183460469231731")));
}

#[test]
fn test_nano_units_count_values_of_nine_decimals() {
    assert_eq!(dec("104237.25").nano_units(), Some(104_237_250_000_000));
    assert_eq!(dec("-0.000000001").nano_units(), Some(-1));
    assert_eq!(dec("0.0000000001").nano_units(), None);
    assert_eq!(Dec::nan().nano_units(), None);
    assert_eq!(Dec::max_value().nano_units(), None);
    assert_eq!(Dec::from_raw(9_223_372_036_854_775_807_000_000_000).nano_units(), Some(i64::MAX));
    assert_eq!(Dec::from_raw(9_223_372_036_854_775_808_000_000_000).nano_units(), None);
}

#[test]
fn test_whole_numbers_from_wide_integers() {
    assert_eq!(Dec::checked_from_i128(5), Some(dec("5")));
    assert_eq!(Dec::checked_from_i128(-5), Some(dec("-5")));
    assert_eq!(Dec::checked_from_i128(i128::MAX), None);
    assert_eq!(Dec::checked_from_i128(170_141_183_460_469_231_731), Some(dec("170141183460469231731")));
    assert_eq!(Dec::checked_from_u128(3), Some(dec("3")));
    assert_eq!(Dec::checked_from_u128(u128::MAX), None);
}

#[test]
fn test_excess_places_round_half_away_by_one_unit() {
    assert_eq!(dec("1.000000000000000000499"), Dec::one());
    assert_eq!(dec("1.000000000000000000500"), Dec::from_raw(1_000_000_000_000_000_001));
    assert_eq!(dec("-1.000000000000000000500"), Dec::from_raw(-1_000_000_000_000_000_001));
    assert_eq!(dec("-0.000000000000000000499"), Dec::zero());
    for raw in raws() {
        let value = Dec::from_raw(raw / 2);
        let m = value.into_raw().unsigned_abs();
        let sign = if value.into_raw() < 0 { "-" } else { "" };
        for tail in [0_u32, 499, 500, 999] {
            let text = format!("{}{}.{:018}{:03}", sign, m / 1_000_000_000_000_000_000, m % 1_000_000_000_000_000_000, tail);
            let moved = if tail < 500 { 0 } else if value.into_raw() < 0 { -1 } else { 1 };
            assert_eq!(Dec::parse(&text), Ok(Dec::from_raw(value.into_raw() + moved)), "{text}");
        }
    }
}

#[test]
fn test_the_plain_text_is_canonical() {
    for raw in raws() {
        let text = Dec::from_raw(raw).to_string();
        let body = text.strip_prefix('-').unwrap_or(&text);
        assert_eq!(text.starts_with('-'), raw < 0, "{text}");
        let (whole, fraction) = match body.split_once('.') {
            Some((whole, fraction)) => (whole, Some(fraction)),
            None => (body, None),
        };
        assert!(!whole.is_empty() && whole.chars().all(|c| c.is_ascii_digit()), "{text}");
        assert!(whole == "0" || !whole.starts_with('0'), "{text}");
        if let Some(fraction) = fraction {
            assert!(!fraction.is_empty() && fraction.len() <= 18, "{text}");
            assert!(fraction.chars().all(|c| c.is_ascii_digit()) && !fraction.ends_with('0'), "{text}");
        }
    }
}

#[test]
fn test_a_precision_parses_back_to_round_dp() {
    for raw in raws() {
        let value = Dec::from_raw(raw);
        for dp in [0_usize, 1, 2, 9, 17, 18, 20, 24] {
            let mut options = troy::FormatOptions::new();
            options.precision = Some(dp);
            let text = value.to_string_with(&options);
            match text.split_once('.') {
                Some((_, fraction)) => assert_eq!(fraction.len(), dp, "{text}"),
                None => assert_eq!(dp, 0, "{text}"),
            }
            assert_eq!(text.starts_with('-'), raw < 0, "{text}");
            let rounded = value.round_dp(dp as u32);
            if dp > 18 {
                continue;
            }
            if rounded.is_finite() {
                assert_eq!(Dec::parse(&text), Ok(rounded), "{text}");
            } else {
                assert_eq!(Dec::parse(&text), Err(troy::ParseDecError::Overflow), "{text}");
            }
        }
    }
}
