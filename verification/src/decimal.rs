//! Conversions between `Dec` and `rust_decimal`'s `Decimal`, a 96-bit
//! mantissa under a decimal scale.
use vstd::prelude::*;
use rust_decimal::Decimal;
use vstd::std_specs::convert::TryFromSpecImpl;
use crate::num::{abs_int, lemma_pow10_values, pow10, round_half_up, unsigned_abs, with_sign, Dec};
use crate::parse::{div_round_u128, ParseDecError};
use crate::round::{lemma_pow10_monotone, pow10_i128, pow10_u128};

verus! {

#[verifier::external_type_specification]
#[verifier::external_body]
pub struct ExDecimal(Decimal);

#[verifier::external_type_specification]
#[verifier::external_body]
pub struct ExDecimalError(rust_decimal::Error);

/// The largest mantissa magnitude a `Decimal` holds, `2^96 - 1`.
pub open spec fn decimal_mantissa_max() -> int {
    0xFFFF_FFFF_FFFF_FFFF_FFFF_FFFF
}

/// The raw of the `Dec` nearest `mantissa / 10^scale`: exact at up to
/// [`Dec::SCALE`] places, and `None` where that leaves an `i128`; past them
/// the excess rounds half away from zero, and a scale so fine that every
/// mantissa rounds away gives zero.
pub open spec fn decimal_raw(mantissa: int, scale: int) -> Option<int> {
    if scale <= 18 {
        let exact = mantissa * pow10((18 - scale) as nat);
        if -0x8000_0000_0000_0000_0000_0000_0000_0000 <= exact <= 0x7FFF_FFFF_FFFF_FFFF_FFFF_FFFF_FFFF_FFFF {
            Some(exact)
        } else {
            None
        }
    } else if scale - 18 > 38 {
        Some(0)
    } else {
        Some(with_sign(mantissa < 0, round_half_up(abs_int(mantissa), pow10((scale - 18) as nat) as int)))
    }
}

/// The mantissa and the scale a `Decimal` holds: it is worth
/// `mantissa / 10^scale`.
pub uninterp spec fn decimal_parts(value: Decimal) -> (int, int);

/// `Decimal::scale`, which reads the scale out of the eight bits of the
/// flags word that hold it, so it is at most 255.
#[verifier::external_body]
fn decimal_scale(value: &Decimal) -> (scale: u32)
    ensures
        scale == decimal_parts(*value).1,
        scale <= 255,
{
    value.scale()
}

/// `Decimal::mantissa`, which joins the three 32-bit words of the magnitude
/// and gives it the sign, so it is at most `2^96 - 1` either way.
#[verifier::external_body]
fn decimal_mantissa(value: &Decimal) -> (mantissa: i128)
    ensures
        mantissa == decimal_parts(*value).0,
        -decimal_mantissa_max() <= mantissa <= decimal_mantissa_max(),
{
    value.mantissa()
}

/// `Decimal::try_from_i128_with_scale`, which succeeds exactly when the
/// scale is at most 28 and the magnitude fits 96 bits, and then stores
/// `num` as the mantissa and `scale` as the scale.
#[verifier::external_body]
fn decimal_from_i128_with_scale(num: i128, scale: u32) -> (r: Result<Decimal, rust_decimal::Error>)
    ensures
        r is Ok <==> (scale <= 28 && -decimal_mantissa_max() <= num <= decimal_mantissa_max()),
        r matches Ok(d) ==> decimal_parts(d) == (num as int, scale as int),
{
    Decimal::try_from_i128_with_scale(num, scale)
}

impl Dec {
    /// The `Dec` holding `mantissa / 10^scale`, as [`Dec::from_decimal`]
    /// takes it from a `Decimal`'s parts: exact up to [`Dec::SCALE`] places
    /// and `None` where that leaves an `i128`, the excess past them rounded
    /// half away from zero.
    pub fn from_parts(mantissa: i128, scale: u32) -> (r: Option<Dec>)
        ensures
            r is Some <==> decimal_raw(mantissa as int, scale as int) is Some,
            r matches Some(d) ==> decimal_raw(mantissa as int, scale as int) == Some(d.raw()),
    {
        if scale <= Dec::SCALE {
            let factor = pow10_i128(Dec::SCALE - scale);
            return match mantissa.checked_mul(factor) {
                Some(raw) => Some(Dec::from_raw(raw)),
                None => None,
            };
        }
        let excess = scale - Dec::SCALE;
        if excess > 38 {
            return Some(Dec::zero());
        }
        let factor = pow10_u128(excess);
        proof {
            lemma_pow10_monotone(1, excess as nat);
            lemma_pow10_values();
        }
        let magnitude = div_round_u128(unsigned_abs(mantissa), factor);
        proof {
            let n = abs_int(mantissa as int);
            let f = factor as int;
            assert(n <= 0x8000_0000_0000_0000_0000_0000_0000_0000);
            assert(magnitude <= n / f + 1);
            assert(n / f <= n / 10) by (nonlinear_arith)
                requires
                    f >= 10,
                    n >= 0,
            ;
        }
        let signed = magnitude as i128;
        if mantissa < 0 {
            Some(Dec::from_raw(-signed))
        } else {
            Some(Dec::from_raw(signed))
        }
    }

    /// Rescale a `Decimal`, exact unless it carries more than [`Dec::SCALE`]
    /// decimal places, where the excess rounds half away from zero; `None`
    /// where the value leaves the range.
    pub fn from_decimal(value: Decimal) -> (r: Option<Dec>)
        ensures
            r is Some <==> decimal_raw(decimal_parts(value).0, decimal_parts(value).1) is Some,
            r matches Some(d) ==> decimal_raw(decimal_parts(value).0, decimal_parts(value).1) == Some(d.raw()),
    {
        let scale = decimal_scale(&value);
        let mantissa = decimal_mantissa(&value);
        Dec::from_parts(mantissa, scale)
    }

    /// Widen to a `Decimal` at [`Dec::SCALE`] decimal places, or `None` when
    /// the value needs more than the 96 bits a `Decimal` mantissa holds, as
    /// [`Dec::nan`] does.
    pub fn to_decimal(self) -> (r: Option<Decimal>)
        ensures
            r is Some <==> -decimal_mantissa_max() <= self.raw() <= decimal_mantissa_max(),
            r matches Some(d) ==> decimal_parts(d) == (self.raw(), 18int),
    {
        match decimal_from_i128_with_scale(self.into_raw(), Dec::SCALE) {
            Ok(value) => Some(value),
            Err(_) => None,
        }
    }
}

/// [`Dec::from_decimal`], its `None` reported as an overflow.
impl TryFrom<Decimal> for Dec {
    type Error = ParseDecError;

    fn try_from(value: Decimal) -> (r: Result<Dec, ParseDecError>)
        ensures
            r is Ok <==> decimal_raw(decimal_parts(value).0, decimal_parts(value).1) is Some,
            r matches Ok(d) ==> decimal_raw(decimal_parts(value).0, decimal_parts(value).1) == Some(d.raw()),
            r matches Err(e) ==> e == ParseDecError::Overflow,
    {
        match Dec::from_decimal(value) {
            Some(d) => Ok(d),
            None => Err(ParseDecError::Overflow),
        }
    }
}

impl TryFromSpecImpl<Decimal> for Dec {
    open spec fn obeys_try_from_spec() -> bool {
        true
    }

    closed spec fn try_from_spec(value: Decimal) -> Result<Dec, ParseDecError> {
        match decimal_raw(decimal_parts(value).0, decimal_parts(value).1) {
            Some(raw) => Ok(Dec(raw as i128)),
            None => Err(ParseDecError::Overflow),
        }
    }
}

/// [`Dec::to_decimal`], its `None` reported as an overflow.
impl TryFrom<Dec> for Decimal {
    type Error = ParseDecError;

    fn try_from(value: Dec) -> (r: Result<Decimal, ParseDecError>)
        ensures
            r is Ok <==> -decimal_mantissa_max() <= value.raw() <= decimal_mantissa_max(),
            r matches Ok(d) ==> decimal_parts(d) == (value.raw(), 18int),
            r matches Err(e) ==> e == ParseDecError::Overflow,
    {
        match value.to_decimal() {
            Some(d) => Ok(d),
            None => Err(ParseDecError::Overflow),
        }
    }
}

// A `Decimal` has no constructor in the model, so no single result is
// named: what `try_from` gives is stated over its parts in its own ensures,
// above.
impl TryFromSpecImpl<Dec> for Decimal {
    open spec fn obeys_try_from_spec() -> bool {
        false
    }

    closed spec fn try_from_spec(value: Dec) -> Result<Decimal, ParseDecError> {
        vstd::pervasive::arbitrary()
    }
}

} // verus!
