//! Rounding to a number of decimal places or to a step, under one of six
//! strategies.
use vstd::prelude::*;
use vstd::arithmetic::div_mod::{
    lemma_fundamental_div_mod, lemma_fundamental_div_mod_converse, lemma_mod_bound,
    lemma_mod_pos_bound,
};
use crate::num::{
    abs_int, lemma_pow10_positive, lemma_pow10_values, lemma_trunc_div_rem, max_raw, nan_raw,
    one_raw, or_nan, pow10, trunc_div, with_sign, Dec, dec_or_nan, unsigned_abs, MAX_RAW,
    NAN_RAW, ONE_U,
};

verus! {

/// How a value that does not land on a step is resolved.
///
/// The `Midpoint` variants round to the nearest step and differ only in how
/// they settle an exact tie. The rest are directed: they resolve every inexact
/// value the same way, however close it sits to either side.
/// [`Dec::round_dp`] and [`Dec::round_to_step`] round
/// [`MidpointAwayFromZero`](RoundingStrategy::MidpointAwayFromZero), which is
/// also the [`Default`].
#[derive(Clone, Copy, Debug, PartialEq, Eq, Structural, Hash)]
pub enum RoundingStrategy {
    /// To the nearest step, a tie away from zero. The default.
    MidpointAwayFromZero,
    /// To the nearest step, a tie to the even step. Banker's rounding.
    MidpointNearestEven,
    /// Towards zero, discarding the rest.
    ToZero,
    /// Away from zero, always up in magnitude.
    AwayFromZero,
    /// Down, towards negative infinity.
    ToNegativeInfinity,
    /// Up, towards positive infinity.
    ToPositiveInfinity,
}

/// [`RoundingStrategy::MidpointAwayFromZero`], what the plain methods do.
impl Default for RoundingStrategy {
    fn default() -> (s: RoundingStrategy)
        ensures
            s == RoundingStrategy::MidpointAwayFromZero,
    {
        RoundingStrategy::MidpointAwayFromZero
    }
}

/// `n / d` for a positive `d`, resolved to a whole number by `strategy`:
/// the floor and the step above it are the two candidates, and the strategy
/// picks between them once `n` does not land on a step.
pub open spec fn round_div(n: int, d: int, strategy: RoundingStrategy) -> int {
    let fl = n / d;
    let rem = n % d;
    if rem == 0 {
        fl
    } else {
        match strategy {
            RoundingStrategy::ToNegativeInfinity => fl,
            RoundingStrategy::ToPositiveInfinity => fl + 1,
            RoundingStrategy::ToZero => if n >= 0 {
                fl
            } else {
                fl + 1
            },
            RoundingStrategy::AwayFromZero => if n >= 0 {
                fl + 1
            } else {
                fl
            },
            RoundingStrategy::MidpointAwayFromZero => if 2 * rem < d {
                fl
            } else if 2 * rem > d {
                fl + 1
            } else if n >= 0 {
                fl + 1
            } else {
                fl
            },
            RoundingStrategy::MidpointNearestEven => if 2 * rem < d {
                fl
            } else if 2 * rem > d {
                fl + 1
            } else if fl % 2 == 0 {
                fl
            } else {
                fl + 1
            },
        }
    }
}

/// The raw a value rounded to a multiple of a positive `step` becomes: the
/// nearest multiple the strategy picks, or NaN when it leaves the range.
pub open spec fn round_to_multiple(raw: int, step: int, strategy: RoundingStrategy) -> int {
    or_nan(round_div(raw, step, strategy) * step)
}

/// The raw a value rounded to `dp` decimal places becomes: unchanged at
/// the native scale or finer, NaN for NaN, and otherwise rounded to a
/// multiple of `10^(18 - dp)`.
pub open spec fn rounded_to_places(raw: int, dp: int, strategy: RoundingStrategy) -> int {
    if dp >= 18 {
        raw
    } else if raw == nan_raw() {
        nan_raw()
    } else {
        round_to_multiple(raw, pow10((18 - dp) as nat) as int, strategy)
    }
}

/// The raw a value rounded to a multiple of `step` becomes: NaN when
/// either is NaN, unchanged for a step that is not positive, and otherwise
/// rounded to a multiple of it.
pub open spec fn rounded_to_step(raw: int, step: int, strategy: RoundingStrategy) -> int {
    if raw == nan_raw() || step == nan_raw() {
        nan_raw()
    } else if step <= 0 {
        raw
    } else {
        round_to_multiple(raw, step, strategy)
    }
}

/// The same decision made on a magnitude: `magnitude / d` rounded, moving
/// away from zero or not as the strategy and the sign say.
pub open spec fn round_magnitude(
    magnitude: int,
    d: int,
    negative: bool,
    strategy: RoundingStrategy,
) -> int {
    let q = magnitude / d;
    let r = magnitude % d;
    if r == 0 {
        q
    } else if away_from_zero(q % 2 != 0, 2 * r, d, negative, strategy) {
        q + 1
    } else {
        q
    }
}

/// Whether a magnitude whose remainder is `twice_rem / 2` of a step `d`
/// moves up to the next step, given whether the step below is odd.
pub open spec fn away_from_zero(
    below_odd: bool,
    twice_rem: int,
    d: int,
    negative: bool,
    strategy: RoundingStrategy,
) -> bool {
    match strategy {
        RoundingStrategy::MidpointAwayFromZero => twice_rem >= d,
        RoundingStrategy::MidpointNearestEven => twice_rem > d || (twice_rem == d && below_odd),
        RoundingStrategy::ToZero => false,
        RoundingStrategy::AwayFromZero => true,
        RoundingStrategy::ToNegativeInfinity => negative,
        RoundingStrategy::ToPositiveInfinity => !negative,
    }
}

/// Rounding a signed value is rounding its magnitude and putting the sign
/// back.
pub(crate) proof fn lemma_round_by_magnitude(n: int, d: int, strategy: RoundingStrategy)
    requires
        d > 0,
    ensures
        round_div(n, d, strategy) == with_sign(n < 0, round_magnitude(abs_int(n), d, n < 0, strategy)),
{
    let m = abs_int(n);
    lemma_fundamental_div_mod(m, d);
    lemma_mod_pos_bound(m, d);
    let q = m / d;
    let r = m % d;
    if n >= 0 {
    } else {
        // n = -m = -(q d + r): the floor is -q when r is zero and -q - 1
        // otherwise, with remainder d - r
        if r == 0 {
            assert(n == (-q) * d + 0) by (nonlinear_arith)
                requires
                    n == -m,
                    m == d * q + r,
                    r == 0,
            ;
            lemma_fundamental_div_mod_converse(n, d, -q, 0);
        } else {
            assert(n == (-q - 1) * d + (d - r)) by (nonlinear_arith)
                requires
                    n == -m,
                    m == d * q + r,
            ;
            lemma_fundamental_div_mod_converse(n, d, -q - 1, d - r);
            assert((-q - 1) % 2 == 0 <==> q % 2 != 0) by {
                lemma_fundamental_div_mod(q, 2);
                lemma_mod_bound(q, 2);
                lemma_fundamental_div_mod(-q - 1, 2);
                lemma_mod_bound(-q - 1, 2);
            }
        }
    }
}

/// `numerator / divisor` with the fraction resolved by `strategy`, for a
/// positive divisor. Halving the divisor rather than doubling the remainder
/// keeps the comparison inside an `i128` for a divisor at the top of the
/// range. An odd divisor has no exact half, which is why evenness is part of
/// the tie rather than the remainder comparison alone.
pub(crate) fn div_strategy(numerator: i128, divisor: i128, strategy: RoundingStrategy) -> (r:
    i128)
    requires
        divisor > 0,
    ensures
        r == round_div(numerator as int, divisor as int, strategy),
{
    let quotient = numerator / divisor;
    let remainder = numerator % divisor;
    proof {
        lemma_trunc_rem(numerator as int, divisor as int, quotient as int, remainder as int);
        lemma_trunc_div_rem(numerator as int, divisor as int, quotient as int, remainder as int);
        lemma_round_by_magnitude(numerator as int, divisor as int, strategy);
        lemma_trunc_magnitude(numerator as int, divisor as int, quotient as int, remainder as int);
    }
    if remainder == 0 {
        return quotient;
    }
    let magnitude = if remainder < 0 {
        -remainder
    } else {
        remainder
    };
    let half = divisor / 2;
    let away = match strategy {
        RoundingStrategy::MidpointAwayFromZero => {
            magnitude > half || (magnitude == half && divisor % 2 == 0)
        },
        RoundingStrategy::MidpointNearestEven => {
            magnitude > half || (magnitude == half && divisor % 2 == 0 && quotient % 2 != 0)
        },
        RoundingStrategy::ToZero => false,
        RoundingStrategy::AwayFromZero => true,
        RoundingStrategy::ToNegativeInfinity => numerator < 0,
        RoundingStrategy::ToPositiveInfinity => numerator > 0,
    };
    proof {
        let q = abs_int(numerator as int) / divisor as int;
        assert(away == away_from_zero(q % 2 != 0, 2 * magnitude, divisor as int, numerator < 0, strategy));
    }
    if !away {
        return quotient;
    }
    proof {
        assert(abs_int(quotient as int) < abs_int(numerator as int) || divisor == 1);
    }
    if numerator < 0 {
        quotient - 1
    } else {
        quotient + 1
    }
}

/// The truncating remainder is what the truncating quotient leaves.
proof fn lemma_trunc_rem(n: int, d: int, q: int, r: int)
    requires
        d > 0,
        q == trunc_div(n, d),
        r == if n >= 0 {
            n % d
        } else {
            -((-n) % d)
        },
    ensures
        r == n - q * d,
{
    if n >= 0 {
        lemma_fundamental_div_mod(n, d);
        assert(r == n - q * d) by (nonlinear_arith)
            requires
                n == d * (n / d) + n % d,
                q == n / d,
                r == n % d,
        ;
    } else {
        lemma_fundamental_div_mod(-n, d);
        assert(r == n - q * d) by (nonlinear_arith)
            requires
                -n == d * ((-n) / d) + (-n) % d,
                q == -((-n) / d),
                r == -((-n) % d),
        ;
    }
}

/// The truncating quotient and remainder are the magnitude's, signed.
proof fn lemma_trunc_magnitude(n: int, d: int, q: int, r: int)
    requires
        d > 0,
        q == trunc_div(n, d),
        r == n - q * d,
    ensures
        abs_int(q) == abs_int(n) / d,
        abs_int(r) == abs_int(n) % d,
        q % 2 != 0 <==> (abs_int(n) / d) % 2 != 0,
        r != 0 ==> abs_int(q) < abs_int(n),
{
    let m = abs_int(n);
    lemma_fundamental_div_mod(m, d);
    lemma_mod_pos_bound(m, d);
    if n >= 0 {
        lemma_trunc_div_rem(n, d, q, r);
    } else {
        assert(q == -(m / d));
        assert(r == -(m % d)) by (nonlinear_arith)
            requires
                q == -(m / d),
                r == n - q * d,
                n == -m,
                m == d * (m / d) + (m % d),
        ;
        lemma_fundamental_div_mod(q, 2);
        lemma_mod_bound(q, 2);
        lemma_fundamental_div_mod(-q, 2);
        lemma_mod_bound(-q, 2);
    }
    if r != 0 {
        assert(abs_int(q) < m) by (nonlinear_arith)
            requires
                m == d * (m / d) + (m % d),
                abs_int(q) == m / d,
                m % d > 0,
                d > 0,
                m / d >= 0,
        ;
    }
}

impl Dec {
    /// Round to `dp` decimal places, halves away from zero. A no-op once `dp`
    /// reaches [`Dec::SCALE`]. Returns [`Dec::nan`] when the rounded value
    /// leaves the finite range, as it does for [`Dec::min_value`] at `dp` 0,
    /// and when the input is already NaN.
    pub fn round_dp(self, dp: u32) -> (d: Dec)
        ensures
            d.raw() == rounded_to_places(self.raw(), dp as int, RoundingStrategy::MidpointAwayFromZero),
    {
        self.round_dp_with(dp, RoundingStrategy::MidpointAwayFromZero)
    }

    /// [`Dec::round_dp`] with the fraction resolved by `strategy` rather than
    /// half away from zero. Every other rule is the same.
    pub fn round_dp_with(self, dp: u32, strategy: RoundingStrategy) -> (d: Dec)
        ensures
            d.raw() == rounded_to_places(self.raw(), dp as int, strategy),
    {
        if dp >= Dec::SCALE {
            // a no-op at the native scale, NaN included
            return self;
        }
        if self.0 == NAN_RAW {
            return Dec::nan();
        }
        let factor = pow10_i128(Dec::SCALE - dp);
        proof {
            lemma_pow10_positive((18 - dp) as nat);
        }
        dec_or_nan(div_strategy(self.0, factor, strategy).checked_mul(factor))
    }

    /// Round to the nearest multiple of `step`, halves away from zero. A
    /// non-positive step is a no-op. Returns [`Dec::nan`] when the result
    /// leaves the finite range, and when either side is already NaN.
    pub fn round_to_step(self, step: Dec) -> (d: Dec)
        ensures
            d.raw() == rounded_to_step(self.raw(), step.raw(), RoundingStrategy::MidpointAwayFromZero),
    {
        self.round_to_step_with(step, RoundingStrategy::MidpointAwayFromZero)
    }

    /// [`Dec::round_to_step`] with the fraction resolved by `strategy` rather
    /// than half away from zero. A non-positive step is still a no-op, and
    /// the NaN rules are unchanged.
    pub fn round_to_step_with(self, step: Dec, strategy: RoundingStrategy) -> (d: Dec)
        ensures
            d.raw() == rounded_to_step(self.raw(), step.raw(), strategy),
    {
        if self.0 == NAN_RAW || step.0 == NAN_RAW {
            return Dec::nan();
        }
        if step.0 <= 0 {
            return self;
        }
        match pow10_exponent(step.0) {
            Some(exponent) => {
                proof {
                    if exponent == 0 {
                        lemma_pow10_values();
                        lemma_fundamental_div_mod_converse(self.raw(), 1, self.raw(), 0);
                    }
                }
                if exponent <= Dec::SCALE {
                    Dec(round_to_places(self.0, Dec::SCALE - exponent, strategy))
                } else {
                    dec_or_nan(div_strategy(self.0, step.0, strategy).checked_mul(step.0))
                }
            },
            None => dec_or_nan(div_strategy(self.0, step.0, strategy).checked_mul(step.0)),
        }
    }
}

/// `pow10(a + b) == pow10(a) * pow10(b)`.
pub proof fn lemma_pow10_add(a: nat, b: nat)
    ensures
        pow10(a + b) == pow10(a) * pow10(b),
    decreases a,
{
    if a == 0 {
        assert(pow10(0) == 1);
        assert(a + b == b);
    } else {
        let c = (a - 1) as nat;
        lemma_pow10_add(c, b);
        let s = (a + b) as nat;
        assert(s > 0);
        assert(pow10(s) == 10 * pow10((s - 1) as nat));
        assert((s - 1) as nat == c + b);
        assert(pow10(a) == 10 * pow10(c));
        assert(10 * (pow10(c) * pow10(b)) == (10 * pow10(c)) * pow10(b)) by (nonlinear_arith);
    }
}

/// Powers of ten grow with the exponent.
pub proof fn lemma_pow10_monotone(a: nat, b: nat)
    requires
        a <= b,
    ensures
        pow10(a) <= pow10(b),
    decreases b,
{
    if a < b {
        lemma_pow10_monotone(a, (b - 1) as nat);
        lemma_pow10_positive((b - 1) as nat);
    }
}

/// `10^e` for `e` up to 38, the widest power an `i128` holds.
pub(crate) fn pow10_u128(e: u32) -> (r: u128)
    requires
        e <= 38,
    ensures
        r == pow10(e as nat),
{
    let mut power: u128 = 1;
    let mut index: u32 = 0;
    proof {
        lemma_pow10_values();
    }
    while index < e
        invariant
            index <= e <= 38,
            power == pow10(index as nat),
        decreases e - index,
    {
        proof {
            lemma_pow10_monotone((index + 1) as nat, 38);
            lemma_pow10_values();
            assert(pow10((index + 1) as nat) == 10 * pow10(index as nat));
        }
        power = power * 10;
        index = index + 1;
    }
    power
}

/// `10^e` as an `i128`, for `e` up to 38.
pub(crate) fn pow10_i128(e: u32) -> (r: i128)
    requires
        e <= 38,
    ensures
        r == pow10(e as nat),
{
    proof {
        lemma_pow10_monotone(e as nat, 38);
        lemma_pow10_values();
    }
    pow10_u128(e) as i128
}

/// The exponent `e` with `value == 10^e`, if there is one; every power of
/// ten an `i128` holds is at most `10^38`.
pub fn pow10_exponent(value: i128) -> (r: Option<u32>)
    ensures
        r matches Some(e) ==> e <= 38 && value == pow10(e as nat),
        r is None ==> forall|e: nat| e <= 38 ==> value != pow10(e),
{
    let mut exponent: u32 = 0;
    while exponent <= 38
        invariant
            exponent <= 39,
            forall|e: nat| e < exponent ==> value != pow10(e),
        decreases 39 - exponent,
    {
        let power = pow10_i128(exponent);
        if power == value {
            return Some(exponent);
        }
        exponent = exponent + 1;
    }
    None
}

// a step of 10^-dp divides one whole unit, so only the fraction moves, and it
// moves inside a u64. A fraction that rounds up to a whole unit carries into
// the integer part. The sign travels separately because the directed
// strategies need it.
fn round_to_places(raw: i128, dp: u32, strategy: RoundingStrategy) -> (r: i128)
    requires
        raw != nan_raw(),
    ensures
        r == if dp >= 18 {
            raw as int
        } else {
            round_to_multiple(raw as int, pow10((18 - dp) as nat) as int, strategy)
        },
{
    if dp >= Dec::SCALE {
        return raw;
    }
    let negative = raw < 0;
    let magnitude = unsigned_abs(raw);
    let integer = magnitude / ONE_U;
    let fraction = (magnitude % ONE_U) as u64;
    let step = pow10_u128(Dec::SCALE - dp) as u64;
    let whole_odd = dp == 0 && integer % 2 == 1;
    proof {
        lemma_pow10_values();
        lemma_pow10_monotone((18 - dp) as nat, 18);
        lemma_pow10_monotone(1, (18 - dp) as nat);
        lemma_pow10_add((18 - dp) as nat, dp as nat);
        lemma_pow10_even(dp as nat);
        lemma_pow10_even((18 - dp) as nat);
        assert(((18 - dp) + dp) as nat == 18);
        assert(pow10(18) == 1_000_000_000_000_000_000);
        assert(step == pow10((18 - dp) as nat));
        assert(1_000_000_000_000_000_000int == pow10(dp as nat) * (step as int) + 0) by (nonlinear_arith)
            requires
                pow10(18) == pow10((18 - dp) as nat) * pow10(dp as nat),
                step == pow10((18 - dp) as nat),
                pow10(18) == 1_000_000_000_000_000_000,
        ;
        lemma_fundamental_div_mod_converse(
            1_000_000_000_000_000_000int,
            step as int,
            pow10(dp as nat) as int,
            0,
        );
        assert(integer * ONE_U <= magnitude) by (nonlinear_arith)
            requires
                integer == magnitude / 1_000_000_000_000_000_000,
        ;
    }
    let rounded = round_u64(fraction, step, negative, strategy, whole_odd);
    proof {
        lemma_places(
            raw as int,
            magnitude as int,
            integer as int,
            fraction as int,
            step as int,
            pow10(dp as nat) as int,
            dp == 0,
            negative,
            strategy,
            rounded as int,
        );
    }
    let scaled = integer * ONE_U + rounded as u128;
    // the finite range is symmetric, so one limit serves both signs
    if scaled > MAX_RAW as u128 {
        return NAN_RAW;
    }
    if negative {
        -(scaled as i128)
    } else {
        scaled as i128
    }
}

/// `10^e` is even once `e` is at least one.
proof fn lemma_pow10_even(e: nat)
    ensures
        e >= 1 ==> pow10(e) % 2 == 0,
{
    if e >= 1 {
        assert(pow10(e) == 10 * pow10((e - 1) as nat));
        lemma_fundamental_div_mod_converse(pow10(e) as int, 2, 5 * pow10((e - 1) as nat) as int, 0);
    }
}

/// Rounding the magnitude to a power-of-ten step moves only its fraction, and
/// the sign put back gives the rounded value.
proof fn lemma_places(
    raw: int,
    magnitude: int,
    integer: int,
    fraction: int,
    step: int,
    places_unit: int,
    zero_places: bool,
    negative: bool,
    strategy: RoundingStrategy,
    rounded: int,
)
    requires
        -max_raw() <= raw <= max_raw(),
        magnitude == abs_int(raw),
        negative == (raw < 0),
        integer == magnitude / one_raw(),
        fraction == magnitude % one_raw(),
        step >= 10,
        step % 2 == 0,
        step * places_unit == one_raw(),
        zero_places ==> places_unit == 1,
        !zero_places ==> places_unit % 2 == 0,
        rounded == (fraction / step + if fraction % step != 0 && away_from_zero(
            ((fraction / step) % 2 != 0) != (zero_places && integer % 2 == 1),
            2 * (fraction % step),
            step,
            negative,
            strategy,
        ) {
            1int
        } else {
            0int
        }) * step,
    ensures
        rounded <= one_raw(),
        integer * one_raw() + rounded <= 340_282_366_920_938_463_463_374_607_431_768_211_455,
        round_to_multiple(raw, step, strategy) == if integer * one_raw() + rounded > max_raw() {
            nan_raw()
        } else {
            with_sign(negative, integer * one_raw() + rounded)
        },
{
    lemma_fundamental_div_mod(magnitude, one_raw());
    lemma_mod_pos_bound(magnitude, one_raw());
    lemma_fundamental_div_mod(fraction, step);
    lemma_mod_pos_bound(fraction, step);
    let q = fraction / step;
    let r = fraction % step;
    assert(integer >= 0) by (nonlinear_arith)
        requires
            magnitude >= 0,
            integer == magnitude / 1_000_000_000_000_000_000,
    ;
    assert(q >= 0 && places_unit > 0) by (nonlinear_arith)
        requires
            fraction >= 0,
            step >= 10,
            q == fraction / step,
            step * places_unit == 1_000_000_000_000_000_000,
    ;
    // the magnitude's quotient by the step is the integer part's share plus
    // the fraction's
    assert(magnitude == (integer * places_unit + q) * step + r) by (nonlinear_arith)
        requires
            magnitude == one_raw() * integer + fraction,
            fraction == step * q + r,
            step * places_unit == one_raw(),
    ;
    lemma_fundamental_div_mod_converse(magnitude, step, integer * places_unit + q, r);
    assert(q < places_unit) by (nonlinear_arith)
        requires
            fraction == step * q + r,
            r >= 0,
            fraction < one_raw(),
            step * places_unit == one_raw(),
            step > 0,
    ;
    // the parity of the step below the magnitude
    lemma_fundamental_div_mod(integer, 2);
    lemma_mod_bound(integer, 2);
    lemma_fundamental_div_mod(q, 2);
    lemma_mod_bound(q, 2);
    lemma_fundamental_div_mod(places_unit, 2);
    lemma_fundamental_div_mod(integer * places_unit + q, 2);
    lemma_mod_bound(integer * places_unit + q, 2);
    if zero_places {
        assert(q == 0);
    } else {
        assert((integer * places_unit + q) % 2 == q % 2) by {
            let k = places_unit / 2;
            assert(integer * places_unit + q == 2 * (integer * k + q / 2) + q % 2) by (nonlinear_arith)
                requires
                    places_unit == 2 * k,
                    q == 2 * (q / 2) + q % 2,
            ;
            lemma_fundamental_div_mod_converse(integer * places_unit + q, 2, integer * k + q / 2, q % 2);
        }
    }
    lemma_round_by_magnitude(raw, step, strategy);
    assert(integer * one_raw() <= magnitude) by (nonlinear_arith)
        requires
            magnitude == one_raw() * integer + fraction,
            fraction >= 0,
    ;
    let rm = round_magnitude(magnitude, step, negative, strategy);
    assert(rm * step == integer * one_raw() + rounded) by (nonlinear_arith)
        requires
            rm == integer * places_unit + q || rm == integer * places_unit + q + 1,
            rm == integer * places_unit + q ==> rounded == q * step,
            rm == integer * places_unit + q + 1 ==> rounded == (q + 1) * step,
            step * places_unit == one_raw(),
    ;
    assert(rounded <= one_raw()) by (nonlinear_arith)
        requires
            rounded == q * step || rounded == (q + 1) * step,
            q < places_unit,
            step * places_unit == one_raw(),
            step > 0,
    ;
    assert(with_sign(negative, rm) * step == with_sign(negative, rm * step)) by (nonlinear_arith);
}

// the magnitude of the fraction against a power-of-ten step, rounded by
// `strategy`; `whole_odd` carries the parity the integer part adds to the
// step below, which only a step of a whole unit sees
fn round_u64(
    fraction: u64,
    step: u64,
    negative: bool,
    strategy: RoundingStrategy,
    whole_odd: bool,
) -> (r: u64)
    requires
        step >= 10,
        step % 2 == 0,
        fraction < 1_000_000_000_000_000_000,
        step <= 1_000_000_000_000_000_000,
        1_000_000_000_000_000_000int % (step as int) == 0,
    ensures
        r == (fraction / step + if fraction % step != 0 && away_from_zero(
            ((fraction / step) % 2 != 0) != whole_odd,
            2 * (fraction % step),
            step as int,
            negative,
            strategy,
        ) {
            1int
        } else {
            0int
        }) * step,
{
    let quotient = fraction / step;
    let remainder = fraction % step;
    let half = step / 2;
    let below_odd = (quotient % 2 == 1) != whole_odd;
    // an exact fraction never moves, whatever the strategy
    let away = remainder != 0 && match strategy {
        RoundingStrategy::MidpointAwayFromZero => remainder >= half,
        RoundingStrategy::MidpointNearestEven => {
            remainder > half || (remainder == half && below_odd)
        },
        RoundingStrategy::ToZero => false,
        RoundingStrategy::AwayFromZero => true,
        RoundingStrategy::ToNegativeInfinity => negative,
        RoundingStrategy::ToPositiveInfinity => !negative,
    };
    proof {
        lemma_fundamental_div_mod(fraction as int, step as int);
        lemma_fundamental_div_mod(1_000_000_000_000_000_000int, step as int);
        let k = 1_000_000_000_000_000_000int / (step as int);
        assert((quotient + 1) * step <= 1_000_000_000_000_000_000) by (nonlinear_arith)
            requires
                fraction == step * quotient + remainder,
                remainder >= 0,
                fraction < 1_000_000_000_000_000_000,
                1_000_000_000_000_000_000 == step * k,
                step > 0,
        ;
    }
    if away {
        (quotient + 1) * step
    } else {
        quotient * step
    }
}

} // verus!
