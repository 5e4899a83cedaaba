//! The integer half of the conversions between `Dec` and `f64`. What touches
//! a double stays with the caller; what is decided on integers is here.
use vstd::prelude::*;
use crate::mul::div_exact_1e9;
use crate::num::{abs_int, check_raw, in_range, one_raw, round_half_up, unsigned_abs, with_sign, Dec, ONE_RAW};

verus! {

/// `n` clamped to the `i64` range.
pub open spec fn clamp_i64(n: int) -> int {
    if n > i64::MAX {
        i64::MAX as int
    } else if n < i64::MIN {
        i64::MIN as int
    } else {
        n
    }
}

/// `n / d` rounded half away from zero, for `d > 0`.
pub open spec fn div_round_half_away(n: int, d: int) -> int {
    with_sign(n < 0, round_half_up(abs_int(n), d))
}

/// A fraction scaled by `10^18` with the digits a double cannot carry
/// rounded away: a double holds about fifteen significant digits, so a
/// fraction of `10^17` or more keeps fifteen of its eighteen, one of `10^16`
/// or more sixteen, one of `10^15` or more seventeen, half away from zero.
pub open spec fn trimmed_fraction(fraction: int) -> int {
    let magnitude = abs_int(fraction);
    if magnitude >= 100_000_000_000_000_000 {
        clamp_i64(div_round_half_away(fraction, 1000) * 1000)
    } else if magnitude >= 10_000_000_000_000_000 {
        clamp_i64(div_round_half_away(fraction, 100) * 100)
    } else if magnitude >= 1_000_000_000_000_000 {
        clamp_i64(div_round_half_away(fraction, 10) * 10)
    } else {
        fraction
    }
}

/// The raw of `integer + fraction / 10^18` with the fraction trimmed, or
/// `None` where it leaves the finite range.
pub open spec fn float_parts_raw(integer: int, fraction: int) -> Option<int> {
    let whole = integer * one_raw();
    let raw = whole + trimmed_fraction(fraction);
    if i128::MIN <= whole <= i128::MAX && in_range(raw) {
        Some(raw)
    } else {
        None
    }
}

fn div_round_i64(numerator: i64, divisor: i64) -> (r: i64)
    requires
        divisor >= 2,
    ensures
        r == div_round_half_away(numerator as int, divisor as int),
{
    // on the magnitude, where a half rounds up, and the sign put back
    let magnitude = unsigned_abs(numerator as i128);
    let divisor = divisor as u128;
    let quotient = magnitude / divisor;
    let remainder = magnitude % divisor;
    let rounded = if remainder * 2 >= divisor {
        quotient + 1
    } else {
        quotient
    };
    proof {
        assert(quotient <= magnitude) by (nonlinear_arith)
            requires
                divisor > 0,
                quotient == magnitude / divisor,
        ;
        assert(quotient * divisor <= magnitude) by (nonlinear_arith)
            requires
                divisor > 0,
                quotient == magnitude / divisor,
        ;
        assert(quotient * 2 <= magnitude) by (nonlinear_arith)
            requires
                divisor >= 2,
                quotient * divisor <= magnitude,
        ;
    }
    if numerator < 0 {
        -(rounded as i64)
    } else {
        rounded as i64
    }
}

// `value * factor`, saturating at the bounds of an `i64`
fn saturating_scale(value: i64, factor: i64) -> (r: i64)
    requires
        0 < factor <= 1000,
    ensures
        r == clamp_i64(value * factor),
{
    proof {
        assert(-9_223_372_036_854_775_808 * 1000 <= value * factor <= 9_223_372_036_854_775_807 * 1000)
            by (nonlinear_arith)
            requires
                0 < factor <= 1000,
                -9_223_372_036_854_775_808 <= value <= 9_223_372_036_854_775_807,
        ;
    }
    let wide = value as i128 * factor as i128;
    if wide > 9_223_372_036_854_775_807 {
        9_223_372_036_854_775_807
    } else if wide < -9_223_372_036_854_775_808 {
        -9_223_372_036_854_775_808
    } else {
        wide as i64
    }
}

// an f64 carries about fifteen significant digits; a scaled fraction
// holding more has invented the rest, so drop them
fn trim_f64_noise(fraction: i64) -> (r: i64)
    ensures
        r == trimmed_fraction(fraction as int),
{
    let magnitude = unsigned_abs(fraction as i128);
    if magnitude >= 100_000_000_000_000_000 {
        saturating_scale(div_round_i64(fraction, 1_000), 1_000)
    } else if magnitude >= 10_000_000_000_000_000 {
        saturating_scale(div_round_i64(fraction, 100), 100)
    } else if magnitude >= 1_000_000_000_000_000 {
        saturating_scale(div_round_i64(fraction, 10), 10)
    } else {
        fraction
    }
}

impl Dec {
    /// The value whose whole part is `integer` and whose fraction, scaled by
    /// `10^18`, is `fraction`, with the digits past a double's precision
    /// rounded away; `None` where it leaves the finite range. This is the
    /// decision of a conversion from `f64`, taken on the double's whole part
    /// and scaled fraction.
    pub fn from_float_parts(integer: i128, fraction: i64) -> (r: Option<Dec>)
        ensures
            r is Some <==> float_parts_raw(integer as int, fraction as int) is Some,
            r matches Some(d) ==> float_parts_raw(integer as int, fraction as int) == Some(d.raw()),
    {
        let whole = match integer.checked_mul(ONE_RAW) {
            Some(whole) => whole,
            None => return None,
        };
        let trimmed = trim_f64_noise(fraction);
        match whole.checked_add(trimmed as i128) {
            Some(raw) => match check_raw(raw) {
                Some(raw) => Some(Dec::from_raw(raw)),
                None => None,
            },
            None => None,
        }
    }

    /// The value counted in units of `10^-9`, where it carries at most nine
    /// decimals and that count fits an `i64`: every price and size does, and
    /// a double divides such a count by `10^9` in one step.
    pub fn nano_units(self) -> (r: Option<i64>)
        ensures
            r is Some <==> (self.raw() % 1_000_000_000 == 0 && i64::MIN < self.raw() / 1_000_000_000
                <= i64::MAX),
            r matches Some(n) ==> n * 1_000_000_000 == self.raw(),
    {
        let magnitude = match div_exact_1e9(unsigned_abs(self.into_raw())) {
            Some(magnitude) => magnitude,
            None => return None,
        };
        if magnitude > 9_223_372_036_854_775_807 {
            return None;
        }
        let narrow = magnitude as i64;
        if self.into_raw() < 0 {
            Some(-narrow)
        } else {
            Some(narrow)
        }
    }
}

} // verus!
