//! `Dec`, a fixed-scale decimal: an `i128` holding the value scaled by
//! `10^18`. `i128::MIN` is held out of the finite range as the not-a-number
//! state, so the finite range `[-i128::MAX, i128::MAX]` is symmetric.
use vstd::prelude::*;

verus! {

pub(crate) const ONE_RAW: i128 = 1_000_000_000_000_000_000;

pub(crate) const ONE_U: u128 = 1_000_000_000_000_000_000;

pub(crate) const MAX_RAW: i128 = 170_141_183_460_469_231_731_687_303_715_884_105_727;

pub(crate) const MIN_RAW: i128 = -170_141_183_460_469_231_731_687_303_715_884_105_727;

pub(crate) const NAN_RAW: i128 = -170_141_183_460_469_231_731_687_303_715_884_105_728;

// ---------------------------------------------------------------------------
// The mathematical model
// ---------------------------------------------------------------------------

/// The largest finite raw, `i128::MAX`.
pub open spec fn max_raw() -> int {
    170_141_183_460_469_231_731_687_303_715_884_105_727
}

/// The raw of the not-a-number state, `i128::MIN`.
pub open spec fn nan_raw() -> int {
    -170_141_183_460_469_231_731_687_303_715_884_105_728
}

/// The raw of one whole unit, `10^18`.
pub open spec fn one_raw() -> int {
    1_000_000_000_000_000_000
}

/// Whether a raw lies in the symmetric finite range.
pub open spec fn in_range(x: int) -> bool {
    -max_raw() <= x <= max_raw()
}

/// The raw an exact result becomes: itself inside the finite range, NaN
/// outside it.
pub open spec fn or_nan(x: int) -> int {
    if in_range(x) {
        x
    } else {
        nan_raw()
    }
}

/// An exact result clamped to the finite range.
pub open spec fn clamp_range(x: int) -> int {
    if x > max_raw() {
        max_raw()
    } else if x < -max_raw() {
        -max_raw()
    } else {
        x
    }
}

pub open spec fn abs_int(x: int) -> int {
    if x < 0 {
        -x
    } else {
        x
    }
}

/// `n / d` rounded towards zero, for a positive `d`.
pub open spec fn trunc_div(n: int, d: int) -> int {
    if n >= 0 {
        n / d
    } else {
        -((-n) / d)
    }
}

/// `n / d` rounded to the nearest integer, a half rounding up, for `n >= 0`
/// and `d > 0`: on a magnitude this is half away from zero.
pub open spec fn round_half_up(n: int, d: int) -> int {
    n / d + if 2 * (n % d) >= d {
        1int
    } else {
        0int
    }
}

/// A magnitude carrying a sign.
pub open spec fn with_sign(negative: bool, magnitude: int) -> int {
    if negative {
        -magnitude
    } else {
        magnitude
    }
}

/// A signed result whose magnitude must not pass the finite range.
pub open spec fn signed_or_none(negative: bool, magnitude: int) -> Option<int> {
    if magnitude > max_raw() {
        None
    } else {
        Some(with_sign(negative, magnitude))
    }
}

/// `10^e`.
pub open spec fn pow10(e: nat) -> nat
    decreases e,
{
    if e == 0 {
        1
    } else {
        10 * pow10((e - 1) as nat)
    }
}

pub proof fn lemma_pow10_positive(e: nat)
    ensures
        pow10(e) >= 1,
    decreases e,
{
    if e > 0 {
        lemma_pow10_positive((e - 1) as nat);
    }
}

/// The powers of ten the crate names, evaluated.
pub proof fn lemma_pow10_values()
    ensures
        pow10(0) == 1,
        pow10(1) == 10,
        pow10(2) == 100,
        pow10(3) == 1000,
        pow10(9) == 1_000_000_000,
        pow10(18) == 1_000_000_000_000_000_000,
        pow10(38) == 100_000_000_000_000_000_000_000_000_000_000_000_000,
{
    reveal_with_fuel(pow10, 39);
}

/// The exact sum of two raws, NaN propagating.
pub open spec fn raw_sum(a: int, b: int) -> int {
    if a == nan_raw() || b == nan_raw() {
        nan_raw()
    } else {
        or_nan(a + b)
    }
}

/// The exact difference of two raws, NaN propagating.
pub open spec fn raw_difference(a: int, b: int) -> int {
    if a == nan_raw() || b == nan_raw() {
        nan_raw()
    } else {
        or_nan(a - b)
    }
}

/// `a * b / 10^18` on raws, half away from zero, or `None` for a NaN operand
/// or a product past the finite range.
pub open spec fn raw_product(a: int, b: int) -> Option<int> {
    if a == nan_raw() || b == nan_raw() {
        None
    } else {
        signed_or_none(
            (a < 0) != (b < 0),
            round_half_up(abs_int(a) * abs_int(b), one_raw()),
        )
    }
}

/// `a * 10^18 / b` on raws, half away from zero, or `None` for a zero
/// divisor, a NaN operand, or a quotient past the finite range.
pub open spec fn raw_quotient(a: int, b: int) -> Option<int> {
    if b == 0 || a == nan_raw() || b == nan_raw() {
        None
    } else {
        signed_or_none(
            (a < 0) != (b < 0),
            round_half_up(abs_int(a) * one_raw(), abs_int(b)),
        )
    }
}

/// The raw an `Option` result becomes when the fault is reported as NaN.
pub open spec fn unwrap_or_nan(r: Option<int>) -> int {
    match r {
        Some(x) => x,
        None => nan_raw(),
    }
}

// ---------------------------------------------------------------------------
// The type
// ---------------------------------------------------------------------------

/// A decimal carrying a fixed [`Dec::SCALE`] decimal places, backed by an
/// `i128` holding the value scaled by `10^SCALE`.
///
/// Arithmetic is exact between [`Dec::min_value`] and [`Dec::max_value`]. Anything that
/// leaves that range becomes [`Dec::nan`] and stays NaN through every later
/// operation. The ordering is total: NaN equals itself and sorts below
/// [`Dec::min_value`], which keeps `Eq`, `Ord` and `Hash` derivable.
#[derive(Clone, Copy, Debug, PartialEq, Eq, Structural, PartialOrd, Ord, Hash)]
pub struct Dec(pub(crate) i128);

impl Dec {
    /// Number of decimal places every `Dec` carries.
    pub const SCALE: u32 = 18;

    /// Zero.
    pub fn zero() -> (d: Dec)
        ensures
            d.raw() == 0,
    {
        Dec(0)
    }

    /// One.
    pub fn one() -> (d: Dec)
        ensures
            d.raw() == one_raw(),
    {
        Dec(ONE_RAW)
    }

    /// Negative one.
    pub fn neg_one() -> (d: Dec)
        ensures
            d.raw() == -one_raw(),
    {
        Dec(-ONE_RAW)
    }

    /// The smallest finite value, `-Dec::max_value()`. The finite range is
    /// symmetric, so negation and [`Dec::abs`] are total and exact on it.
    pub fn min_value() -> (d: Dec)
        ensures
            d.raw() == -max_raw(),
    {
        Dec(MIN_RAW)
    }

    /// The largest finite value, roughly `1.7e20`.
    pub fn max_value() -> (d: Dec)
        ensures
            d.raw() == max_raw(),
    {
        Dec(MAX_RAW)
    }

    /// The smallest positive value, one unit in the last place.
    pub fn epsilon() -> (d: Dec)
        ensures
            d.raw() == 1,
    {
        Dec(1)
    }

    /// The not-a-number state. Every operation that leaves the finite range
    /// returns it, and every operation given it returns it. Unlike an IEEE
    /// NaN it equals itself and sorts below [`Dec::min_value`].
    pub fn nan() -> (d: Dec)
        ensures
            d.raw() == nan_raw(),
    {
        Dec(NAN_RAW)
    }

    /// The scaled integer this value holds.
    pub open(crate) spec fn raw(self) -> int {
        self.0 as int
    }

    /// Wrap a raw scaled integer. Total: `i128::MIN` is [`Dec::nan`], so every
    /// raw round trips through [`Dec::into_raw`].
    pub fn from_raw(raw: i128) -> (d: Dec)
        ensures
            d.raw() == raw,
    {
        Dec(raw)
    }

    /// Wrap a raw scaled integer, clamping `i128::MIN`, the one raw outside
    /// the finite range, onto [`Dec::min_value`].
    pub fn from_raw_saturating(raw: i128) -> (d: Dec)
        ensures
            d.raw() == clamp_range(raw as int),
    {
        Dec(clamp_raw(raw))
    }

    /// The underlying scaled integer, the inverse of [`Dec::from_raw`].
    pub fn into_raw(self) -> (raw: i128)
        ensures
            raw == self.raw(),
    {
        self.0
    }

    /// Whether this is [`Dec::nan`].
    pub fn is_nan(self) -> (b: bool)
        ensures
            b == (self.raw() == nan_raw()),
    {
        self.0 == NAN_RAW
    }

    /// Whether this is an ordinary number, the check to make where a value
    /// leaves the system.
    pub fn is_finite(self) -> (b: bool)
        ensures
            b == (self.raw() != nan_raw()),
            b == in_range(self.raw()),
    {
        self.0 != NAN_RAW
    }

    /// An exact whole number. Every `i64` fits the finite range.
    pub fn from_int(value: i64) -> (d: Dec)
        ensures
            d.raw() == value * one_raw(),
    {
        assert(-9_223_372_036_854_775_808 * 1_000_000_000_000_000_000 <= value * 1_000_000_000_000_000_000
            <= 9_223_372_036_854_775_807 * 1_000_000_000_000_000_000) by (nonlinear_arith)
            requires
                -9_223_372_036_854_775_808 <= value <= 9_223_372_036_854_775_807,
        ;
        Dec(value as i128 * ONE_RAW)
    }

    /// An exact whole number. Every `u64` fits the finite range.
    pub fn from_u64(value: u64) -> (d: Dec)
        ensures
            d.raw() == value * one_raw(),
    {
        assert(value * 1_000_000_000_000_000_000 <= 18_446_744_073_709_551_615 * 1_000_000_000_000_000_000)
            by (nonlinear_arith)
            requires
                value <= 18_446_744_073_709_551_615,
        ;
        Dec(value as i128 * ONE_RAW)
    }

    /// The whole number `value`, or `None` where it leaves the finite range.
    pub fn checked_from_i128(value: i128) -> (r: Option<Dec>)
        ensures
            r is Some <==> in_range(value * one_raw()),
            r matches Some(d) ==> d.raw() == value * one_raw(),
    {
        match value.checked_mul(ONE_RAW) {
            Some(raw) => match check_raw(raw) {
                Some(raw) => Some(Dec(raw)),
                None => None,
            },
            None => None,
        }
    }

    /// The whole number `value`, or `None` where it leaves the finite range.
    pub fn checked_from_u128(value: u128) -> (r: Option<Dec>)
        ensures
            r is Some <==> in_range(value * one_raw()),
            r matches Some(d) ==> d.raw() == value * one_raw(),
    {
        if value > MAX_RAW as u128 {
            proof {
                assert(value * one_raw() > max_raw()) by (nonlinear_arith)
                    requires
                        value > max_raw(),
                        one_raw() == 1_000_000_000_000_000_000,
                ;
            }
            return None;
        }
        Dec::checked_from_i128(value as i128)
    }

    /// Whether this is exactly zero. [`Dec::nan`] is not.
    pub fn is_zero(self) -> (b: bool)
        ensures
            b == (self.raw() == 0),
    {
        self.0 == 0
    }

    /// Whether this is a finite value below zero. [`Dec::nan`] is neither
    /// negative nor positive.
    pub fn is_sign_negative(self) -> (b: bool)
        ensures
            b == (self.raw() < 0 && self.raw() != nan_raw()),
    {
        self.0 < 0 && self.0 != NAN_RAW
    }

    /// Whether this is a value above zero. [`Dec::nan`] is not.
    pub fn is_sign_positive(self) -> (b: bool)
        ensures
            b == (self.raw() > 0),
    {
        self.0 > 0
    }

    /// The magnitude, exact for every finite value because the range is
    /// symmetric. [`Dec::nan`] stays NaN.
    pub fn abs(self) -> (d: Dec)
        ensures
            d.raw() == if self.raw() == nan_raw() {
                nan_raw()
            } else {
                abs_int(self.raw())
            },
    {
        Dec(wrapping_abs(self.0))
    }

    /// [`Dec::one`], [`Dec::neg_one`] or [`Dec::zero`] by sign. [`Dec::nan`]
    /// stays NaN.
    pub fn signum(self) -> (d: Dec)
        ensures
            d.raw() == if self.raw() == nan_raw() {
                nan_raw()
            } else if self.raw() > 0 {
                one_raw()
            } else if self.raw() < 0 {
                -one_raw()
            } else {
                0
            },
    {
        if self.0 == NAN_RAW {
            Dec::nan()
        } else if self.0 > 0 {
            Dec::one()
        } else if self.0 < 0 {
            Dec::neg_one()
        } else {
            Dec::zero()
        }
    }

    /// The largest whole number at or below this value, or [`Dec::nan`] when
    /// that leaves the finite range, as it does for [`Dec::min_value`]. NaN stays
    /// NaN.
    pub fn floor(self) -> (d: Dec)
        ensures
            d.raw() == or_nan((self.raw() / one_raw()) * one_raw()),
    {
        let quotient = floor_div_one(self.0);
        dec_or_nan(quotient.checked_mul(ONE_RAW))
    }

    /// The smallest whole number at or above this value, or [`Dec::nan`] when
    /// that leaves the finite range, as it does for [`Dec::max_value`]. NaN stays
    /// NaN.
    pub fn ceil(self) -> (d: Dec)
        ensures
            d.raw() == if self.raw() == nan_raw() {
                nan_raw()
            } else {
                or_nan(-(((-self.raw()) / one_raw()) * one_raw()))
            },
    {
        // ceil(x) = -floor(-x); negation maps NaN to itself and every finite
        // raw to its exact opposite
        let floor = Dec(wrapping_neg(self.0)).floor();
        Dec(wrapping_neg(floor.0))
    }

    /// The whole part, rounding towards zero. Always finite for a finite
    /// input; [`Dec::nan`] stays NaN.
    pub fn trunc(self) -> (d: Dec)
        ensures
            d.raw() == if self.raw() == nan_raw() {
                nan_raw()
            } else {
                trunc_div(self.raw(), one_raw()) * one_raw()
            },
    {
        if self.0 == NAN_RAW {
            Dec::nan()
        } else {
            let magnitude = unsigned_abs(self.0) / ONE_U;
            proof {
                assert(magnitude * 1_000_000_000_000_000_000 <= abs_int(self.raw())) by (nonlinear_arith)
                    requires
                        magnitude == abs_int(self.raw()) / 1_000_000_000_000_000_000,
                        abs_int(self.raw()) >= 0,
                ;
            }
            let whole = (magnitude * ONE_U) as i128;
            if self.0 < 0 {
                Dec(-whole)
            } else {
                Dec(whole)
            }
        }
    }

    /// The sum, or `None` if it leaves the finite range or either side is
    /// [`Dec::nan`].
    pub fn checked_add(self, rhs: Dec) -> (r: Option<Dec>)
        ensures
            r matches Some(d) ==> d.raw() == self.raw() + rhs.raw(),
            r is Some <==> raw_sum(self.raw(), rhs.raw()) != nan_raw(),
    {
        if self.0 == NAN_RAW || rhs.0 == NAN_RAW {
            return None;
        }
        match self.0.checked_add(rhs.0) {
            Some(raw) => match check_raw(raw) {
                Some(raw) => Some(Dec(raw)),
                None => None,
            },
            None => None,
        }
    }

    /// The difference, or `None` if it leaves the finite range or either side
    /// is [`Dec::nan`].
    pub fn checked_sub(self, rhs: Dec) -> (r: Option<Dec>)
        ensures
            r matches Some(d) ==> d.raw() == self.raw() - rhs.raw(),
            r is Some <==> raw_difference(self.raw(), rhs.raw()) != nan_raw(),
    {
        if self.0 == NAN_RAW || rhs.0 == NAN_RAW {
            return None;
        }
        match self.0.checked_sub(rhs.0) {
            Some(raw) => match check_raw(raw) {
                Some(raw) => Some(Dec(raw)),
                None => None,
            },
            None => None,
        }
    }

    /// The sum, clamped to [`Dec::min_value`] or [`Dec::max_value`] on overflow. A
    /// [`Dec::nan`] operand still gives NaN.
    pub fn saturating_add(self, rhs: Dec) -> (d: Dec)
        ensures
            d.raw() == if self.raw() == nan_raw() || rhs.raw() == nan_raw() {
                nan_raw()
            } else {
                clamp_range(self.raw() + rhs.raw())
            },
    {
        if self.0 == NAN_RAW || rhs.0 == NAN_RAW {
            Dec::nan()
        } else {
            match self.0.checked_add(rhs.0) {
                Some(raw) => Dec(clamp_raw(raw)),
                None => if self.0 > 0 {
                    Dec::max_value()
                } else {
                    Dec::min_value()
                },
            }
        }
    }

    /// The difference, clamped to [`Dec::min_value`] or [`Dec::max_value`] on overflow. A
    /// [`Dec::nan`] operand still gives NaN.
    pub fn saturating_sub(self, rhs: Dec) -> (d: Dec)
        ensures
            d.raw() == if self.raw() == nan_raw() || rhs.raw() == nan_raw() {
                nan_raw()
            } else {
                clamp_range(self.raw() - rhs.raw())
            },
    {
        if self.0 == NAN_RAW || rhs.0 == NAN_RAW {
            Dec::nan()
        } else {
            match self.0.checked_sub(rhs.0) {
                Some(raw) => Dec(clamp_raw(raw)),
                None => if self.0 > 0 {
                    Dec::max_value()
                } else {
                    Dec::min_value()
                },
            }
        }
    }

    /// The value halfway between the two, which cannot overflow. A half unit
    /// in the last place rounds towards zero. [`Dec::nan`] on either side
    /// gives NaN.
    pub fn midpoint(self, rhs: Dec) -> (d: Dec)
        ensures
            d.raw() == if self.raw() == nan_raw() || rhs.raw() == nan_raw() {
                nan_raw()
            } else {
                trunc_div(self.raw() + rhs.raw(), 2)
            },
    {
        if self.0 == NAN_RAW || rhs.0 == NAN_RAW {
            return Dec::nan();
        }
        let (a, b) = (self.0, rhs.0);
        if (a < 0) != (b < 0) {
            // opposite signs cannot overflow the sum
            let sum = a + b;
            let half = if sum >= 0 {
                sum / 2
            } else {
                -((-sum) / 2)
            };
            Dec(half)
        } else if a >= 0 {
            let half = a / 2 + b / 2 + (a % 2 + b % 2) / 2;
            Dec(half)
        } else {
            let (x, y) = (-a, -b);
            let half = x / 2 + y / 2 + (x % 2 + y % 2) / 2;
            Dec(-half)
        }
    }
}

/// The all-zero value, [`Dec::zero`].
impl Default for Dec {
    fn default() -> (d: Dec)
        ensures
            d.raw() == 0,
    {
        Dec::zero()
    }
}

// ---------------------------------------------------------------------------
// Raw helpers
// ---------------------------------------------------------------------------

// the finite range is symmetric, so NAN_RAW is the only raw outside it
pub(crate) fn clamp_raw(raw: i128) -> (r: i128)
    ensures
        r == if raw < -max_raw() {
            -max_raw()
        } else {
            raw as int
        },
{
    if raw < MIN_RAW {
        MIN_RAW
    } else {
        raw
    }
}

// the result of a multiply that may overflow, or may land on the one raw the
// finite range excludes; either way it is not a number
pub(crate) fn dec_or_nan(raw: Option<i128>) -> (d: Dec)
    ensures
        d.raw() == match raw {
            Some(x) => or_nan(x as int),
            None => nan_raw(),
        },
{
    match raw {
        Some(raw) => if raw != NAN_RAW {
            Dec(raw)
        } else {
            Dec::nan()
        },
        None => Dec::nan(),
    }
}

pub(crate) fn check_raw(raw: i128) -> (r: Option<i128>)
    ensures
        r == if in_range(raw as int) {
            Some(raw)
        } else {
            None::<i128>
        },
{
    if raw < MIN_RAW {
        None
    } else {
        Some(raw)
    }
}

/// The magnitude of a raw as a `u128`, `2^127` for `i128::MIN`.
pub(crate) fn unsigned_abs(raw: i128) -> (r: u128)
    ensures
        r == abs_int(raw as int),
{
    if raw >= 0 {
        raw as u128
    } else if raw == NAN_RAW {
        170_141_183_460_469_231_731_687_303_715_884_105_728
    } else {
        (-raw) as u128
    }
}

/// Negation that maps `i128::MIN` to itself.
pub(crate) fn wrapping_neg(raw: i128) -> (r: i128)
    ensures
        r == if raw == nan_raw() {
            nan_raw()
        } else {
            -raw
        },
{
    if raw == NAN_RAW {
        NAN_RAW
    } else {
        -raw
    }
}

/// The magnitude, mapping `i128::MIN` to itself.
pub(crate) fn wrapping_abs(raw: i128) -> (r: i128)
    ensures
        r == if raw == nan_raw() {
            nan_raw()
        } else {
            abs_int(raw as int)
        },
{
    if raw < 0 {
        wrapping_neg(raw)
    } else {
        raw
    }
}

/// `raw / 10^18` rounded towards negative infinity.
fn floor_div_one(raw: i128) -> (q: i128)
    ensures
        q == (raw as int) / one_raw(),
{
    let quotient = raw / ONE_RAW;
    let remainder = raw % ONE_RAW;
    proof {
        lemma_trunc_div_rem(raw as int, one_raw(), quotient as int, remainder as int);
    }
    if remainder < 0 {
        quotient - 1
    } else {
        quotient
    }
}

/// What the truncating `/` and `%` of an `i128` compute, in terms of the
/// Euclidean ones of the specification language.
pub proof fn lemma_trunc_div_rem(n: int, d: int, q: int, r: int)
    requires
        d > 0,
        q == trunc_div(n, d),
        r == n - q * d,
    ensures
        n >= 0 ==> q == n / d && r == n % d,
        n < 0 && r == 0 ==> q == n / d,
        n < 0 && r != 0 ==> q - 1 == n / d && r + d == n % d,
        -d < r < d,
        n >= 0 ==> r >= 0,
        n < 0 ==> r <= 0,
{
    if n >= 0 {
        vstd::arithmetic::div_mod::lemma_fundamental_div_mod(n, d);
        vstd::arithmetic::div_mod::lemma_mod_pos_bound(n, d);
        assert(r == n % d) by (nonlinear_arith)
            requires
                q == n / d,
                r == n - q * d,
                n == d * (n / d) + (n % d),
        ;
    } else {
        let m = -n;
        vstd::arithmetic::div_mod::lemma_fundamental_div_mod(m, d);
        vstd::arithmetic::div_mod::lemma_mod_pos_bound(m, d);
        assert(q == -(m / d));
        assert(r == -(m % d)) by (nonlinear_arith)
            requires
                q == -(m / d),
                r == n - q * d,
                n == -m,
                m == d * (m / d) + (m % d),
        ;
        if r == 0 {
            vstd::arithmetic::div_mod::lemma_fundamental_div_mod_converse(n, d, q, 0);
        } else {
            assert(n == (q - 1) * d + (r + d)) by (nonlinear_arith)
                requires
                    r == n - q * d,
            ;
            vstd::arithmetic::div_mod::lemma_fundamental_div_mod_converse(n, d, q - 1, r + d);
        }
    }
}

} // verus!
