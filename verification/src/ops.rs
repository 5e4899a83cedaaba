//! Multiplication and division on `Dec`, and the arithmetic operators. An
//! operator answers NaN exactly where its `checked_` counterpart answers
//! `None`, and the same value everywhere else.
use vstd::prelude::*;
use crate::div::div_raw;
use crate::mul::mul_raw;
use crate::num::{
    nan_raw, one_raw, raw_difference, raw_product, raw_quotient, raw_sum, unwrap_or_nan, Dec, MAX_RAW,
    NAN_RAW,
};
use vstd::std_specs::convert::FromSpecImpl;
use vstd::std_specs::ops::{AddSpecImpl, DivSpecImpl, MulSpecImpl, NegSpecImpl, SubSpecImpl};

verus! {

impl Dec {
    /// The product, or `None` if it leaves the finite range or either side is
    /// [`Dec::nan`]. Exact, with the excess below [`Dec::SCALE`] rounded half
    /// away from zero.
    pub fn checked_mul(self, rhs: Dec) -> (r: Option<Dec>)
        ensures
            r is Some <==> raw_product(self.raw(), rhs.raw()) is Some,
            r matches Some(d) ==> raw_product(self.raw(), rhs.raw()) == Some(d.raw()),
    {
        match mul_raw(self.0, rhs.0) {
            Some(raw) => Some(Dec(raw)),
            None => None,
        }
    }

    /// The quotient, or `None` on division by zero, if it leaves the finite
    /// range, or if either side is [`Dec::nan`].
    pub fn checked_div(self, rhs: Dec) -> (r: Option<Dec>)
        ensures
            r is Some <==> raw_quotient(self.raw(), rhs.raw()) is Some,
            r matches Some(d) ==> raw_quotient(self.raw(), rhs.raw()) == Some(d.raw()),
    {
        match div_raw(self.0, rhs.0) {
            Some(raw) => Some(Dec(raw)),
            None => None,
        }
    }

    /// The product, clamped to [`Dec::min_value`] or [`Dec::max_value`] on
    /// overflow. A [`Dec::nan`] operand still gives NaN: there is no sign to
    /// clamp towards.
    pub fn saturating_mul(self, rhs: Dec) -> (d: Dec)
        ensures
            d.raw() == if self.raw() == nan_raw() || rhs.raw() == nan_raw() {
                nan_raw()
            } else {
                match raw_product(self.raw(), rhs.raw()) {
                    Some(x) => x,
                    None => if (self.raw() < 0) != (rhs.raw() < 0) {
                        -crate::num::max_raw()
                    } else {
                        crate::num::max_raw()
                    },
                }
            },
    {
        if self.0 == NAN_RAW || rhs.0 == NAN_RAW {
            return Dec::nan();
        }
        match self.checked_mul(rhs) {
            Some(value) => value,
            None => if (self.0 < 0) != (rhs.0 < 0) {
                Dec::min_value()
            } else {
                Dec::max_value()
            },
        }
    }

    /// The quotient, clamped to [`Dec::min_value`] or [`Dec::max_value`] on
    /// overflow. Division by zero has no side to clamp towards and still gives
    /// [`Dec::nan`], as does a NaN operand.
    pub fn saturating_div(self, rhs: Dec) -> (d: Dec)
        ensures
            d.raw() == if self.raw() == nan_raw() || rhs.raw() == nan_raw() || rhs.raw() == 0 {
                nan_raw()
            } else {
                match raw_quotient(self.raw(), rhs.raw()) {
                    Some(x) => x,
                    None => if (self.raw() < 0) != (rhs.raw() < 0) {
                        -crate::num::max_raw()
                    } else {
                        crate::num::max_raw()
                    },
                }
            },
    {
        if self.0 == NAN_RAW || rhs.0 == NAN_RAW || rhs.0 == 0 {
            return Dec::nan();
        }
        match self.checked_div(rhs) {
            Some(value) => value,
            None => if (self.0 < 0) != (rhs.0 < 0) {
                Dec::min_value()
            } else {
                Dec::max_value()
            },
        }
    }

    /// The NaN-propagating sum, the value of `self + rhs`.
    pub fn sum(self, rhs: Dec) -> (d: Dec)
        ensures
            d.raw() == raw_sum(self.raw(), rhs.raw()),
    {
        match self.checked_add(rhs) {
            Some(value) => value,
            None => Dec::nan(),
        }
    }

    /// The sum of every value in the slice, left to right, NaN once any
    /// partial sum leaves the range. Zero for an empty slice.
    pub fn sum_of(values: &[Dec]) -> (d: Dec)
        ensures
            d.raw() == sum_seq(values@),
    {
        let mut total = Dec::zero();
        let mut index: usize = 0;
        while index < values.len()
            invariant
                index <= values@.len(),
                total.raw() == sum_seq(values@.take(index as int)),
            decreases values@.len() - index,
        {
            proof {
                assert(values@.take(index as int + 1).drop_last() == values@.take(index as int));
            }
            total = total.sum(values[index]);
            index = index + 1;
        }
        proof {
            assert(values@.take(values@.len() as int) == values@);
        }
        total
    }
}

/// The NaN-propagating sum of a sequence of values, folded from the left.
pub open spec fn sum_seq(values: Seq<Dec>) -> int
    decreases values.len(),
{
    if values.len() == 0 {
        0
    } else {
        raw_sum(sum_seq(values.drop_last()), values.last().raw())
    }
}

/// NaN where the sum leaves the finite range or an operand is NaN.
impl core::ops::Add for Dec {
    type Output = Dec;

    fn add(self, rhs: Dec) -> (d: Dec)
        ensures
            d.raw() == raw_sum(self.raw(), rhs.raw()),
    {
        self.sum(rhs)
    }
}

impl AddSpecImpl for Dec {
    open spec fn obeys_add_spec() -> bool {
        true
    }

    open spec fn add_req(self, rhs: Dec) -> bool {
        true
    }

    closed spec fn add_spec(self, rhs: Dec) -> Dec {
        Dec(raw_sum(self.raw(), rhs.raw()) as i128)
    }
}

/// NaN where the difference leaves the finite range or an operand is NaN.
impl core::ops::Sub for Dec {
    type Output = Dec;

    fn sub(self, rhs: Dec) -> (d: Dec)
        ensures
            d.raw() == raw_difference(self.raw(), rhs.raw()),
    {
        match self.checked_sub(rhs) {
            Some(value) => value,
            None => Dec::nan(),
        }
    }
}

impl SubSpecImpl for Dec {
    open spec fn obeys_sub_spec() -> bool {
        true
    }

    open spec fn sub_req(self, rhs: Dec) -> bool {
        true
    }

    closed spec fn sub_spec(self, rhs: Dec) -> Dec {
        Dec(raw_difference(self.raw(), rhs.raw()) as i128)
    }
}

/// NaN where the product leaves the finite range or an operand is NaN.
impl core::ops::Mul for Dec {
    type Output = Dec;

    fn mul(self, rhs: Dec) -> (d: Dec)
        ensures
            d.raw() == unwrap_or_nan(raw_product(self.raw(), rhs.raw())),
    {
        match self.checked_mul(rhs) {
            Some(value) => value,
            None => Dec::nan(),
        }
    }
}

impl MulSpecImpl for Dec {
    open spec fn obeys_mul_spec() -> bool {
        true
    }

    open spec fn mul_req(self, rhs: Dec) -> bool {
        true
    }

    closed spec fn mul_spec(self, rhs: Dec) -> Dec {
        Dec(unwrap_or_nan(raw_product(self.raw(), rhs.raw())) as i128)
    }
}

/// NaN on division by zero, where the quotient leaves the finite range, or
/// where an operand is NaN: the type has no infinity.
impl core::ops::Div for Dec {
    type Output = Dec;

    fn div(self, rhs: Dec) -> (d: Dec)
        ensures
            d.raw() == unwrap_or_nan(raw_quotient(self.raw(), rhs.raw())),
    {
        match self.checked_div(rhs) {
            Some(value) => value,
            None => Dec::nan(),
        }
    }
}

impl DivSpecImpl for Dec {
    open spec fn obeys_div_spec() -> bool {
        true
    }

    open spec fn div_req(self, rhs: Dec) -> bool {
        true
    }

    closed spec fn div_spec(self, rhs: Dec) -> Dec {
        Dec(unwrap_or_nan(raw_quotient(self.raw(), rhs.raw())) as i128)
    }
}

/// `*self = *self + rhs`.
impl core::ops::AddAssign for Dec {
    fn add_assign(&mut self, rhs: Dec)
        ensures
            final(self).raw() == raw_sum(old(self).raw(), rhs.raw()),
    {
        *self = self.sum(rhs);
    }
}

/// `*self = *self - rhs`.
impl core::ops::SubAssign for Dec {
    fn sub_assign(&mut self, rhs: Dec)
        ensures
            final(self).raw() == raw_difference(old(self).raw(), rhs.raw()),
    {
        *self = *self - rhs;
    }
}

/// `*self = *self * rhs`.
impl core::ops::MulAssign for Dec {
    fn mul_assign(&mut self, rhs: Dec)
        ensures
            final(self).raw() == unwrap_or_nan(raw_product(old(self).raw(), rhs.raw())),
    {
        *self = *self * rhs;
    }
}

/// `*self = *self / rhs`.
impl core::ops::DivAssign for Dec {
    fn div_assign(&mut self, rhs: Dec)
        ensures
            final(self).raw() == unwrap_or_nan(raw_quotient(old(self).raw(), rhs.raw())),
    {
        *self = *self / rhs;
    }
}

/// Exact and total: the range is symmetric, so every value has a negation,
/// and NaN maps to itself.
impl core::ops::Neg for Dec {
    type Output = Dec;

    fn neg(self) -> (d: Dec)
        ensures
            d.raw() == if self.raw() == nan_raw() {
                nan_raw()
            } else {
                -self.raw()
            },
    {
        Dec(crate::num::wrapping_neg(self.0))
    }
}

impl NegSpecImpl for Dec {
    open spec fn obeys_neg_spec() -> bool {
        true
    }

    open spec fn neg_req(self) -> bool {
        true
    }

    closed spec fn neg_spec(self) -> Dec {
        Dec(if self.raw() == nan_raw() {
            nan_raw()
        } else {
            -self.raw()
        } as i128)
    }
}

/// An exact whole number.
impl From<i64> for Dec {
    fn from(value: i64) -> (d: Dec)
        ensures
            d.raw() == value * one_raw(),
    {
        Dec::from_int(value)
    }
}

impl FromSpecImpl<i64> for Dec {
    open spec fn obeys_from_spec() -> bool {
        true
    }

    closed spec fn from_spec(v: i64) -> Dec {
        Dec((v * one_raw()) as i128)
    }
}

/// An exact whole number.
impl From<i32> for Dec {
    fn from(value: i32) -> (d: Dec)
        ensures
            d.raw() == value * one_raw(),
    {
        Dec::from_int(value as i64)
    }
}

impl FromSpecImpl<i32> for Dec {
    open spec fn obeys_from_spec() -> bool {
        true
    }

    closed spec fn from_spec(v: i32) -> Dec {
        Dec((v * one_raw()) as i128)
    }
}

/// An exact whole number.
impl From<u32> for Dec {
    fn from(value: u32) -> (d: Dec)
        ensures
            d.raw() == value * one_raw(),
    {
        Dec::from_int(value as i64)
    }
}

impl FromSpecImpl<u32> for Dec {
    open spec fn obeys_from_spec() -> bool {
        true
    }

    closed spec fn from_spec(v: u32) -> Dec {
        Dec((v * one_raw()) as i128)
    }
}

/// An exact whole number.
impl From<u64> for Dec {
    fn from(value: u64) -> (d: Dec)
        ensures
            d.raw() == value * one_raw(),
    {
        Dec::from_u64(value)
    }
}

impl FromSpecImpl<u64> for Dec {
    open spec fn obeys_from_spec() -> bool {
        true
    }

    closed spec fn from_spec(v: u64) -> Dec {
        Dec((v * one_raw()) as i128)
    }
}

} // verus!
