//! Properties of the library that span its functions: what one call undoes
//! of another, and what holds of every result. Each is stated over the spec
//! functions the functions' own contracts use.
use vstd::prelude::*;
use vstd::arithmetic::div_mod::{
    lemma_div_pos_is_pos, lemma_fundamental_div_mod, lemma_fundamental_div_mod_converse, lemma_mod_bound,
};
use crate::format::{
    ascii_chars, digit_char, digits_spec, fixed_digits, formatted, natural_text, plain_text, render_spec, sign_text,
    strip_zeros,
};
use crate::num::{
    abs_int, in_range, max_raw, nan_raw, one_raw, or_nan, pow10, raw_difference, raw_product, raw_quotient, raw_sum,
    round_half_up, trunc_div, unwrap_or_nan, with_sign, Dec,
};
use crate::round::{
    lemma_round_by_magnitude, round_div, round_to_multiple, rounded_to_places, rounded_to_step, RoundingStrategy,
};
use crate::sqrt::is_nearest_root;
use crate::parse::{
    body_end, digits_value, exponent_spec, is_digit, is_exponent_mark, parse_spec, scan_body, scaled_magnitude,
    skip_spaces, BodyScan, ParseDecError,
};
use crate::decimal::{decimal_mantissa_max, decimal_parts, decimal_raw};
use crate::double::{clamp_i64, div_round_half_away, float_parts_raw, trimmed_fraction};
use crate::format::{places_of, repeat_char, zeros_of, Alignment, FormatOptions};
use crate::num::{lemma_pow10_positive, lemma_pow10_values};
use crate::round::{lemma_pow10_add, lemma_pow10_monotone};
use vstd::string::StringSliceAdditionalSpecFns;

verus! {

// ---------------------------------------------------------------------------
// Text
// ---------------------------------------------------------------------------

/// The integer a sequence of digits spells.
pub open spec fn seq_value(s: Seq<u8>) -> nat
    decreases s.len(),
{
    if s.len() == 0 {
        0
    } else {
        seq_value(s.drop_last()) * 10 + (s.last() - 48) as nat
    }
}

/// Whether every character is a digit.
pub open spec fn all_digits(s: Seq<u8>) -> bool {
    forall|k: int| 0 <= k < s.len() ==> is_digit(#[trigger] s[k])
}

proof fn lemma_digits_value(b: Seq<u8>, i: int, j: int)
    requires
        0 <= i <= j <= b.len(),
    ensures
        digits_value(b, i, j) == seq_value(b.subrange(i, j)),
    decreases j - i,
{
    if j > i {
        lemma_digits_value(b, i, j - 1);
        assert(b.subrange(i, j).drop_last() == b.subrange(i, j - 1));
        assert(b.subrange(i, j).last() == b[j - 1]);
    }
}

proof fn lemma_digits_spec(n: nat)
    ensures
        digits_spec(n).len() >= 1,
        all_digits(digits_spec(n)),
        seq_value(digits_spec(n)) == n,
    decreases n,
{
    if n < 10 {
        let s = digits_spec(n);
        assert(s == seq![digit_char(n as int)]);
        assert(s.drop_last().len() == 0);
        assert(seq_value(s.drop_last()) == 0);
    } else {
        lemma_digits_spec(n / 10);
        let s = digits_spec(n);
        let init = digits_spec(n / 10);
        assert(s.drop_last() == init);
        assert(s.last() == digit_char((n % 10) as int));
        assert forall|k: int| 0 <= k < s.len() implies is_digit(#[trigger] s[k]) by {
            if k < init.len() {
                assert(s[k] == init[k]);
            }
        }
    }
}

proof fn lemma_fixed_digits(v: nat, width: nat)
    ensures
        fixed_digits(v, width).len() == width,
        all_digits(fixed_digits(v, width)),
        seq_value(fixed_digits(v, width)) == v % pow10(width),
    decreases width,
{
    if width == 0 {
        assert(v % 1 == 0);
    } else {
        let w = (width - 1) as nat;
        lemma_fixed_digits(v / 10, w);
        let s = fixed_digits(v, width);
        let init = fixed_digits(v / 10, w);
        assert(s.drop_last() == init);
        assert(s.last() == digit_char((v % 10) as int));
        assert forall|k: int| 0 <= k < s.len() implies is_digit(#[trigger] s[k]) by {
            if k < init.len() {
                assert(s[k] == init[k]);
            }
        }
        let p = pow10(w);
        crate::num::lemma_pow10_positive(w);
        assert(pow10(width) == 10 * p);
        let q = v / 10;
        let r = v % 10;
        let a = q / p;
        let c = q % p;
        assert(v == 10 * q + r && q == p * a + c && 0 <= c < p && 0 <= r < 10) by (nonlinear_arith)
            requires
                q == v / 10,
                r == v % 10,
                a == q / p,
                c == q % p,
                p > 0,
        ;
        assert(v == (10 * p) * a + (10 * c + r) && 0 <= 10 * c + r < 10 * p) by (nonlinear_arith)
            requires
                v == 10 * q + r,
                q == p * a + c,
                0 <= c < p,
                0 <= r < 10,
        ;
        lemma_fundamental_div_mod_converse(v as int, (10 * p) as int, a as int, (10 * c + r) as int);
    }
}

proof fn lemma_strip_zeros(s: Seq<u8>)
    requires
        all_digits(s),
    ensures
        strip_zeros(s).len() <= s.len(),
        strip_zeros(s) == s.subrange(0, strip_zeros(s).len() as int),
        all_digits(strip_zeros(s)),
        seq_value(s) == seq_value(strip_zeros(s)) * pow10((s.len() - strip_zeros(s).len()) as nat),
        strip_zeros(s).len() > 0 ==> strip_zeros(s).last() != 48,
    decreases s.len(),
{
    if s.len() > 0 && s.last() == 48 {
        let init = s.drop_last();
        assert forall|k: int| 0 <= k < init.len() implies is_digit(#[trigger] init[k]) by {
            assert(init[k] == s[k]);
        }
        lemma_strip_zeros(init);
        let t = strip_zeros(init);
        assert(strip_zeros(s) == t);
        assert(t == s.subrange(0, t.len() as int)) by {
            assert(init.subrange(0, t.len() as int) =~= s.subrange(0, t.len() as int));
        }
        let k = (init.len() - t.len()) as nat;
        assert((s.len() - t.len()) as nat == k + 1);
        assert(pow10(k + 1) == 10 * pow10(k));
        assert(s.last() - 48 == 0);
        assert(seq_value(s) == seq_value(init) * 10);
        assert(seq_value(init) == seq_value(t) * pow10(k));
        assert(seq_value(t) * pow10(k) * 10 == seq_value(t) * (10 * pow10(k))) by (nonlinear_arith);
        assert(seq_value(s) == seq_value(t) * pow10(k + 1));
    } else {
        assert(s.subrange(0, s.len() as int) == s);
        assert(strip_zeros(s) == s);
        assert(pow10(0) == 1);
        assert(seq_value(s) * 1 == seq_value(s));
    }
}

proof fn lemma_body_end_past(b: Seq<u8>, i: int)
    requires
        0 <= i <= b.len(),
        forall|k: int| i <= k < b.len() ==> !is_exponent_mark(#[trigger] b[k]),
    ensures
        body_end(b, i) == b.len(),
    decreases b.len() - i,
{
    if i < b.len() {
        lemma_body_end_past(b, i + 1);
    }
}

proof fn lemma_scan_digits(b: Seq<u8>, i0: int, i: int, j: int)
    requires
        0 <= i0 <= i <= j <= b.len(),
        scan_body(b, i0, i).ok,
        forall|k: int| i <= k < j ==> is_digit(#[trigger] b[k]),
    ensures
        ({
            let s = scan_body(b, i0, i);
            let t = scan_body(b, i0, j);
            &&& t.ok
            &&& t.point == s.point
            &&& t.digits == s.digits + (j - i)
            &&& t.frac == s.frac + if s.point {
                j - i
            } else {
                0
            }
            &&& t.mantissa == s.mantissa * pow10((j - i) as nat) + digits_value(b, i, j)
        }),
    decreases j - i,
{
    if j > i {
        lemma_scan_digits(b, i0, i, j - 1);
        let s = scan_body(b, i0, i);
        let prev = scan_body(b, i0, j - 1);
        let t = scan_body(b, i0, j);
        let n = (j - i) as nat;
        let c = b[j - 1];
        assert(is_digit(c));
        assert(pow10(n) == 10 * pow10((n - 1) as nat));
        assert(j - 1 >= i0);
        assert(t == BodyScan {
            ok: true,
            point: prev.point,
            digits: prev.digits + 1,
            frac: prev.frac + if prev.point {
                1nat
            } else {
                0nat
            },
            mantissa: prev.mantissa * 10 + (c - 48) as nat,
        });
        let d = (c - 48) as nat;
        let low = digits_value(b, i, j - 1);
        let p = pow10((n - 1) as nat);
        assert(digits_value(b, i, j) == low * 10 + d);
        assert(prev.mantissa == s.mantissa * p + low);
        assert((s.mantissa * p + low) * 10 + d == s.mantissa * (10 * p) + (low * 10 + d)) by (nonlinear_arith);
    } else {
        assert(pow10(0) == 1);
        assert(digits_value(b, i, j) == 0);
        assert(scan_body(b, i0, i).mantissa * 1 == scan_body(b, i0, i).mantissa);
    }
}

/// The plain text of every finite value parses back to that value: the
/// text [`Dec::to_string`](crate::Dec::to_string) writes is read by
/// [`Dec::parse`](crate::Dec::parse) as the value it was written from.
#[verifier::rlimit(40)]
#[verifier::spinoff_prover]
pub proof fn law_plain_text_parses_back(raw: int)
    requires
        in_range(raw),
    ensures
        parse_spec(plain_text(raw)) == Ok::<int, ParseDecError>(raw),
{
    let negative = raw < 0;
    let m = abs_int(raw) as nat;
    let sign = sign_text(raw, false);
    let whole = digits_spec(m / one_raw() as nat);
    let fraction = (m % one_raw() as nat) as nat;
    let b = plain_text(raw);
    lemma_digits_spec(m / one_raw() as nat);
    assert(b == sign + natural_text(m));
    let i2 = sign.len() as int;
    let w = whole.len() as int;
    assert(b[i2] == whole[0]);
    assert(is_digit(whole[0]));
    // no spaces lead, and a sign is a sign only when the value is negative
    assert(skip_spaces(b, 0) == 0);
    assert(skip_spaces(b, i2) == i2);
    assert((b[0] == 45 || b[0] == 43) == negative);
    assert(scan_body(b, i2, i2) == BodyScan { ok: true, point: false, digits: 0, frac: 0, mantissa: 0 });
    assert(pow10(18) == one_raw()) by {
        crate::num::lemma_pow10_values();
    }
    assert(m == (m / one_raw() as nat) * one_raw() + fraction) by (nonlinear_arith)
        requires
            fraction == m % 1_000_000_000_000_000_000,
            one_raw() == 1_000_000_000_000_000_000,
    ;
    if fraction == 0 {
        assert(b == sign + whole);
        assert forall|k: int| i2 <= k < b.len() implies is_digit(#[trigger] b[k]) by {
            assert(b[k] == whole[k - i2]);
        }
        assert forall|k: int| i2 <= k < b.len() implies !is_exponent_mark(#[trigger] b[k]) by {
            assert(is_digit(b[k]));
        }
        lemma_body_end_past(b, i2);
        lemma_scan_digits(b, i2, i2, b.len() as int);
        lemma_digits_value(b, i2, b.len() as int);
        assert(b.subrange(i2, b.len() as int) == whole);
        let body = scan_body(b, i2, b.len() as int);
        assert(0 * pow10((b.len() - i2) as nat) == 0);
        assert(body.mantissa == m / one_raw() as nat);
        assert(body.frac == 0);
        assert(exponent_spec(b, b.len() as int) == Ok::<int, ParseDecError>(0));
        assert(scaled_magnitude(body.mantissa, 18) == m);
    } else {
        let digits = strip_zeros(fixed_digits(fraction, 18));
        lemma_fixed_digits(fraction, 18);
        lemma_strip_zeros(fixed_digits(fraction, 18));
        let l = digits.len() as int;
        assert(fraction < pow10(18));
        assert(fraction % pow10(18) == fraction);
        if l == 0 {
            assert(seq_value(digits) == 0);
            assert(0 * pow10(18) == 0);
            assert(seq_value(fixed_digits(fraction, 18)) == 0);
            assert(false);
        }
        let p = i2 + w;
        assert(b == sign + whole + seq![46u8] + digits);
        assert forall|k: int| i2 <= k < p implies is_digit(#[trigger] b[k]) by {
            assert(b[k] == whole[k - i2]);
        }
        assert(b[p] == 46);
        assert forall|k: int| p + 1 <= k < b.len() implies is_digit(#[trigger] b[k]) by {
            assert(b[k] == digits[k - p - 1]);
        }
        assert forall|k: int| i2 <= k < b.len() implies !is_exponent_mark(#[trigger] b[k]) by {
            if k != p {
                assert(is_digit(b[k]));
            }
        }
        lemma_body_end_past(b, i2);
        lemma_scan_digits(b, i2, i2, p);
        lemma_digits_value(b, i2, p);
        assert(b.subrange(i2, p) == whole);
        let front = scan_body(b, i2, p);
        assert(scan_body(b, i2, p + 1) == BodyScan { point: true, ..front });
        lemma_scan_digits(b, i2, p + 1, b.len() as int);
        lemma_digits_value(b, p + 1, b.len() as int);
        assert(b.subrange(p + 1, b.len() as int) == digits);
        let body = scan_body(b, i2, b.len() as int);
        assert(body.frac == l);
        assert(body.mantissa == (m / one_raw() as nat) * pow10(l as nat) + seq_value(digits));
        assert(exponent_spec(b, b.len() as int) == Ok::<int, ParseDecError>(0));
        let shift = (18 - l) as nat;
        lemma_pow10_add(l as nat, shift);
        assert(l as nat + shift == 18);
        assert(seq_value(fixed_digits(fraction, 18)) == seq_value(digits) * pow10(shift));
        assert(scaled_magnitude(body.mantissa, 18 - l) == body.mantissa * pow10(shift));
        assert(body.mantissa * pow10(shift) == (m / one_raw() as nat) * (pow10(l as nat) * pow10(shift))
            + seq_value(digits) * pow10(shift)) by (nonlinear_arith)
            requires
                body.mantissa == (m / one_raw() as nat) * pow10(l as nat) + seq_value(digits),
        ;
    }
}

proof fn lemma_plain_text_ascii(raw: int)
    requires
        in_range(raw),
    ensures
        forall|k: int| 0 <= k < plain_text(raw).len() ==> #[trigger] plain_text(raw)[k] < 128,
{
    let m = abs_int(raw) as nat;
    let sign = sign_text(raw, false);
    let whole = digits_spec(m / one_raw() as nat);
    let fraction = (m % one_raw() as nat) as nat;
    let b = plain_text(raw);
    lemma_digits_spec(m / one_raw() as nat);
    let i2 = sign.len() as int;
    if fraction == 0 {
        assert(b == sign + whole);
        assert forall|k: int| 0 <= k < b.len() implies #[trigger] b[k] < 128 by {
            if k >= i2 {
                assert(b[k] == whole[k - i2]);
                assert(is_digit(whole[k - i2]));
            }
        }
    } else {
        let digits = strip_zeros(fixed_digits(fraction, 18));
        lemma_fixed_digits(fraction, 18);
        lemma_strip_zeros(fixed_digits(fraction, 18));
        let p = i2 + whole.len();
        assert(b == sign + whole + seq![46u8] + digits);
        assert forall|k: int| 0 <= k < b.len() implies #[trigger] b[k] < 128 by {
            if i2 <= k < p {
                assert(b[k] == whole[k - i2]);
                assert(is_digit(whole[k - i2]));
            } else if k > p {
                assert(b[k] == digits[k - p - 1]);
                assert(is_digit(digits[k - p - 1]));
            }
        }
    }
}

/// The text [`Dec::to_string`](crate::Dec::to_string) writes of a finite
/// value is read back by [`Dec::parse`](crate::Dec::parse) as that value:
/// any `str` holding those characters parses to it.
pub proof fn law_to_string_parses_back(value: Dec, text: &str)
    requires
        value.raw() != nan_raw(),
        text@ == ascii_chars(plain_text(value.raw())),
    ensures
        parse_spec(text.spec_bytes()) == Ok::<int, ParseDecError>(value.raw()),
{
    let b = plain_text(value.raw());
    lemma_plain_text_ascii(value.raw());
    assert forall|i: int| 0 <= i < text@.len() implies '\0' <= #[trigger] text@[i] <= '\u{7f}' by {
        assert(text@[i] == b[i] as char);
        assert(b[i] < 128);
    }
    assert(vstd::string::is_ascii(text));
    vstd::string::is_ascii_spec_bytes(text);
    assert forall|i: int| 0 <= i < b.len() implies text.spec_bytes()[i] == #[trigger] b[i] by {
        assert(text@[i] == b[i] as char);
        assert(b[i] < 128);
        assert((b[i] as char) as u8 == b[i]);
    }
    assert(text.spec_bytes() =~= b);
    law_plain_text_parses_back(value.raw());
}

// ---------------------------------------------------------------------------
// Arithmetic
// ---------------------------------------------------------------------------

/// Adding a value and then subtracting it gives back what was there, and
/// subtracting and then adding does too, wherever the first step stays in
/// range.
pub proof fn law_add_and_sub_undo_each_other(a: Dec, b: Dec)
    ensures
        raw_sum(a.raw(), b.raw()) != nan_raw() ==> raw_difference(raw_sum(a.raw(), b.raw()), b.raw()) == a.raw(),
        raw_difference(a.raw(), b.raw()) != nan_raw() ==> raw_sum(raw_difference(a.raw(), b.raw()), b.raw())
            == a.raw(),
{
}

/// An operator answers NaN exactly where its checked counterpart answers
/// `None`, and the checked value everywhere else.
pub proof fn law_operators_fail_where_checked_fails(a: Dec, b: Dec)
    ensures
        raw_sum(a.raw(), b.raw()) != nan_raw() ==> raw_sum(a.raw(), b.raw()) == a.raw() + b.raw(),
        raw_difference(a.raw(), b.raw()) != nan_raw() ==> raw_difference(a.raw(), b.raw()) == a.raw() - b.raw(),
        (unwrap_or_nan(raw_product(a.raw(), b.raw())) == nan_raw()) <==> raw_product(a.raw(), b.raw()) is None,
        (unwrap_or_nan(raw_quotient(a.raw(), b.raw())) == nan_raw()) <==> raw_quotient(a.raw(), b.raw()) is None,
{
}

/// Sums and products do not depend on the order of their operands.
pub proof fn law_sum_and_product_commute(a: Dec, b: Dec)
    ensures
        raw_sum(a.raw(), b.raw()) == raw_sum(b.raw(), a.raw()),
        raw_product(a.raw(), b.raw()) == raw_product(b.raw(), a.raw()),
{
    assert(abs_int(a.raw()) * abs_int(b.raw()) == abs_int(b.raw()) * abs_int(a.raw())) by (nonlinear_arith);
}

/// NaN on either side of an operation gives NaN, or no value for the
/// checked forms, and so does a division by zero.
pub proof fn law_nan_absorbs(x: Dec)
    ensures
        raw_sum(nan_raw(), x.raw()) == nan_raw() && raw_sum(x.raw(), nan_raw()) == nan_raw(),
        raw_difference(nan_raw(), x.raw()) == nan_raw() && raw_difference(x.raw(), nan_raw()) == nan_raw(),
        raw_product(nan_raw(), x.raw()) is None && raw_product(x.raw(), nan_raw()) is None,
        raw_quotient(nan_raw(), x.raw()) is None && raw_quotient(x.raw(), nan_raw()) is None,
        raw_quotient(x.raw(), 0) is None,
{
}

/// Every finite value has an exact negation, and negating twice gives it
/// back: the finite range is symmetric.
pub proof fn law_negation_is_exact(x: Dec)
    requires
        x.raw() != nan_raw(),
    ensures
        in_range(-x.raw()),
        -(-x.raw()) == x.raw(),
{
}

/// The midpoint of two finite values lies between them, does not depend on
/// their order, and is the value itself when both are the same.
pub proof fn law_midpoint_lies_between(a: Dec, b: Dec)
    requires
        a.raw() != nan_raw(),
        b.raw() != nan_raw(),
    ensures
        trunc_div(a.raw() + b.raw(), 2) == trunc_div(b.raw() + a.raw(), 2),
        a.raw() <= b.raw() ==> a.raw() <= trunc_div(a.raw() + b.raw(), 2) <= b.raw(),
        b.raw() <= a.raw() ==> b.raw() <= trunc_div(a.raw() + b.raw(), 2) <= a.raw(),
        a.raw() == b.raw() ==> trunc_div(a.raw() + b.raw(), 2) == a.raw(),
{
}

/// The floor of a finite value is at or below it and its ceiling at or
/// above it, less than a whole unit away, wherever they stay in range.
pub proof fn law_floor_and_ceil_bracket(x: Dec)
    requires
        x.raw() != nan_raw(),
    ensures
        ({
            let v = x.raw();
            let floor = or_nan((v / one_raw()) * one_raw());
            let ceil = or_nan(-(((-v) / one_raw()) * one_raw()));
            &&& floor != nan_raw() ==> floor <= v < floor + one_raw()
            &&& ceil != nan_raw() ==> ceil - one_raw() < v <= ceil
        }),
{
    let v = x.raw();
    lemma_fundamental_div_mod(v, one_raw());
    lemma_mod_bound(v, one_raw());
    lemma_fundamental_div_mod(-v, one_raw());
    lemma_mod_bound(-v, one_raw());
}

// ---------------------------------------------------------------------------
// Rounding
// ---------------------------------------------------------------------------

/// Rounding to a step of `10^(18 - dp)` is rounding to `dp` places, under
/// every strategy.
pub proof fn law_power_of_ten_step_is_places(x: Dec, dp: u32, strategy: RoundingStrategy)
    requires
        dp <= 18,
    ensures
        rounded_to_step(x.raw(), pow10((18 - dp) as nat) as int, strategy) == rounded_to_places(
            x.raw(),
            dp as int,
            strategy,
        ),
{
    crate::num::lemma_pow10_positive((18 - dp) as nat);
    if dp == 18 && x.raw() != nan_raw() {
        assert(pow10(0) == 1);
        lemma_fundamental_div_mod_converse(x.raw(), 1, x.raw(), 0);
        assert(round_div(x.raw(), 1, strategy) == x.raw());
    }
}

/// Rounding a value that is already rounded to a step leaves it where it
/// is.
pub proof fn law_rounding_twice_changes_nothing(x: Dec, step: int, strategy: RoundingStrategy)
    ensures
        rounded_to_step(rounded_to_step(x.raw(), step, strategy), step, strategy) == rounded_to_step(
            x.raw(),
            step,
            strategy,
        ),
{
    let r = rounded_to_step(x.raw(), step, strategy);
    if x.raw() != nan_raw() && step > 0 && r != nan_raw() {
        let k = round_div(x.raw(), step, strategy);
        assert(r == k * step);
        lemma_fundamental_div_mod_converse(k * step, step, k, 0);
        assert(round_div(r, step, strategy) == k);
    }
}

/// Rounding to a positive step lands on a multiple of it, less than a step
/// from the value; the nearest strategies move at most half a step, and the
/// directed ones only in their own direction.
pub proof fn law_rounding_lands_on_a_step(x: Dec, step: int, strategy: RoundingStrategy)
    requires
        x.raw() != nan_raw(),
        step > 0,
        rounded_to_step(x.raw(), step, strategy) != nan_raw(),
    ensures
        ({
            let r = rounded_to_step(x.raw(), step, strategy);
            let v = x.raw();
            &&& r % step == 0
            &&& abs_int(r - v) < step
            &&& (strategy is MidpointAwayFromZero || strategy is MidpointNearestEven) ==> 2 * abs_int(r - v)
                <= step
            &&& strategy is ToNegativeInfinity ==> r <= v
            &&& strategy is ToPositiveInfinity ==> v <= r
            &&& strategy is ToZero ==> abs_int(r) <= abs_int(v)
            &&& strategy is AwayFromZero ==> abs_int(v) <= abs_int(r)
        }),
{
    let v = x.raw();
    let r = rounded_to_step(v, step, strategy);
    let k = round_div(v, step, strategy);
    let fl = v / step;
    let rem = v % step;
    lemma_fundamental_div_mod(v, step);
    lemma_mod_bound(v, step);
    assert(r == k * step);
    lemma_fundamental_div_mod_converse(k * step, step, k, 0);
    assert(v == fl * step + rem);
    assert((fl + 1) * step == fl * step + step) by (nonlinear_arith);
    if v >= 0 {
        assert(fl >= 0) by (nonlinear_arith)
            requires
                v == fl * step + rem,
                v >= 0,
                0 <= rem < step,
        ;
    } else {
        assert(fl <= -1) by (nonlinear_arith)
            requires
                v == fl * step + rem,
                v < 0,
                0 <= rem < step,
        ;
        assert((fl + 1) * step <= 0) by (nonlinear_arith)
            requires
                fl <= -1,
                step > 0,
        ;
    }
}

// ---------------------------------------------------------------------------
// Square roots
// ---------------------------------------------------------------------------

/// A value has one nearest root, and a perfect square's is its exact root.
pub proof fn law_nearest_root_is_unique(n: int, r1: int, r2: int)
    requires
        is_nearest_root(r1, n),
        is_nearest_root(r2, n),
    ensures
        r1 == r2,
{
    if r1 < r2 {
        assert(r2 * r2 - r2 >= r1 * r1 + r1) by (nonlinear_arith)
            requires
                0 <= r1 < r2,
        ;
    } else if r2 < r1 {
        assert(r1 * r1 - r1 >= r2 * r2 + r2) by (nonlinear_arith)
            requires
                0 <= r2 < r1,
        ;
    }
}

/// The exact root of a perfect square is its nearest root.
pub proof fn law_perfect_square_root(root: int)
    requires
        root >= 0,
    ensures
        is_nearest_root(root, root * root),
{
    assert(root * root <= root * root + root) by (nonlinear_arith)
        requires
            root >= 0,
    ;
}

/// A larger value never has a smaller root.
pub proof fn law_root_is_monotonic(n1: int, n2: int, r1: int, r2: int)
    requires
        n1 <= n2,
        is_nearest_root(r1, n1),
        is_nearest_root(r2, n2),
    ensures
        r1 <= r2,
{
    if r1 > r2 {
        assert(r1 * r1 - r1 >= r2 * r2 + r2) by (nonlinear_arith)
            requires
                0 <= r2 < r1,
        ;
    }
}

/// NaN renders as `NaN` and that text does not parse back: a fault cannot
/// re-enter as a value by way of its own rendering.
pub proof fn law_nan_text_does_not_parse()
    ensures
        plain_text(nan_raw()) == seq![78u8, 97u8, 78u8],
        parse_spec(plain_text(nan_raw())) == Err::<int, ParseDecError>(ParseDecError::InvalidDigit),
{
    let b = plain_text(nan_raw());
    assert(b == seq![78u8, 97u8, 78u8]);
    assert(skip_spaces(b, 0) == 0);
    assert(body_end(b, 3) == 3);
    assert(body_end(b, 2) == 3);
    assert(body_end(b, 1) == 3);
    assert(body_end(b, 0) == 3);
    assert(scan_body(b, 0, 0).ok);
    assert(!scan_body(b, 0, 1).ok);
    lemma_scan_stays_malformed(b, 0, 1, 3);
}

proof fn lemma_scan_stays_malformed(b: Seq<u8>, i: int, j: int, k: int)
    requires
        i <= j <= k,
        !scan_body(b, i, j).ok,
    ensures
        !scan_body(b, i, k).ok,
    decreases k - j,
{
    if k > j {
        lemma_scan_stays_malformed(b, i, j, k - 1);
    }
}

/// A `Decimal` made by [`Dec::to_decimal`](crate::Dec::to_decimal) converts
/// back by [`Dec::from_decimal`](crate::Dec::from_decimal) to the value it
/// was made from: its parts are the raw at the native scale, which rescale
/// exactly.
pub proof fn law_decimal_round_trip(value: Dec, decimal: rust_decimal::Decimal)
    requires
        decimal_parts(decimal) == (value.raw(), 18int),
    ensures
        decimal_raw(decimal_parts(decimal).0, decimal_parts(decimal).1) == Some(value.raw()),
{
    assert(pow10(0) == 1);
    assert(((18 - 18) as nat) == 0);
    assert(value.raw() * pow10(0) == value.raw());
}

// ---------------------------------------------------------------------------
// The shape of a number's text
// ---------------------------------------------------------------------------

/// The raw a text of a sign, whole digits and, after a point, fraction
/// digits parses to, or the overflow it is.
pub open spec fn number_text_value(negative: bool, whole: Seq<u8>, fraction: Seq<u8>) -> Result<int, ParseDecError> {
    let mantissa = seq_value(whole) * pow10(fraction.len()) + seq_value(fraction);
    let magnitude = scaled_magnitude(mantissa, 18 - fraction.len());
    if magnitude > max_raw() {
        Err(ParseDecError::Overflow)
    } else {
        Ok(with_sign(negative, magnitude))
    }
}

/// The text `-`, when negative, then the whole digits, then a point and the
/// fraction digits when there are any.
pub open spec fn number_text(negative: bool, whole: Seq<u8>, fraction: Seq<u8>) -> Seq<u8> {
    let sign = if negative {
        seq![45u8]
    } else {
        Seq::<u8>::empty()
    };
    if fraction.len() == 0 {
        sign + whole
    } else {
        sign + whole + seq![46u8] + fraction
    }
}

proof fn lemma_seq_value_concat(a: Seq<u8>, b: Seq<u8>)
    ensures
        seq_value(a + b) == seq_value(a) * pow10(b.len()) + seq_value(b),
    decreases b.len(),
{
    if b.len() == 0 {
        assert(a + b == a);
        assert(pow10(0) == 1);
    } else {
        lemma_seq_value_concat(a, b.drop_last());
        assert((a + b).drop_last() == a + b.drop_last());
        assert((a + b).last() == b.last());
        let p = pow10((b.len() - 1) as nat);
        assert(pow10(b.len()) == 10 * p);
        assert((seq_value(a) * p + seq_value(b.drop_last())) * 10 + (b.last() - 48) as nat == seq_value(a) * (10
            * p) + (seq_value(b.drop_last()) * 10 + (b.last() - 48) as nat)) by (nonlinear_arith);
    }
}

/// A text made of a sign, whole digits and fraction digits parses to what
/// those digits spell, scaled to the native scale.
proof fn lemma_number_text_parses(negative: bool, whole: Seq<u8>, fraction: Seq<u8>)
    requires
        whole.len() >= 1,
        all_digits(whole),
        all_digits(fraction),
    ensures
        parse_spec(number_text(negative, whole, fraction)) == number_text_value(negative, whole, fraction),
{
    let b = number_text(negative, whole, fraction);
    let i2: int = if negative {
        1
    } else {
        0
    };
    let w = whole.len() as int;
    let p = i2 + w;
    assert(b[i2] == whole[0]);
    assert(is_digit(whole[0]));
    assert(skip_spaces(b, 0) == 0);
    assert(skip_spaces(b, i2) == i2);
    assert((b[0] == 45 || b[0] == 43) == negative);
    assert(scan_body(b, i2, i2) == BodyScan { ok: true, point: false, digits: 0, frac: 0, mantissa: 0 });
    assert forall|k: int| i2 <= k < p implies is_digit(#[trigger] b[k]) by {
        assert(b[k] == whole[k - i2]);
    }
    lemma_scan_digits(b, i2, i2, p);
    lemma_digits_value(b, i2, p);
    assert(b.subrange(i2, p) == whole);
    let front = scan_body(b, i2, p);
    assert(0 * pow10(w as nat) == 0) by (nonlinear_arith);
    assert(front.mantissa == seq_value(whole));
    assert(pow10(0) == 1);
    if fraction.len() == 0 {
        assert(b.len() == p);
        assert forall|k: int| i2 <= k < b.len() implies !is_exponent_mark(#[trigger] b[k]) by {
            assert(is_digit(b[k]));
        }
        lemma_body_end_past(b, i2);
        assert(exponent_spec(b, b.len() as int) == Ok::<int, ParseDecError>(0));
        assert(seq_value(fraction) == 0);
        assert(seq_value(whole) * pow10(0) + 0 == seq_value(whole));
    } else {
        assert(b[p] == 46);
        assert forall|k: int| p + 1 <= k < b.len() implies is_digit(#[trigger] b[k]) by {
            assert(b[k] == fraction[k - p - 1]);
        }
        assert forall|k: int| i2 <= k < b.len() implies !is_exponent_mark(#[trigger] b[k]) by {
            if k != p {
                assert(is_digit(b[k]));
            }
        }
        lemma_body_end_past(b, i2);
        assert(scan_body(b, i2, p + 1) == BodyScan { point: true, ..front });
        lemma_scan_digits(b, i2, p + 1, b.len() as int);
        lemma_digits_value(b, p + 1, b.len() as int);
        assert(b.subrange(p + 1, b.len() as int) == fraction);
        assert(exponent_spec(b, b.len() as int) == Ok::<int, ParseDecError>(0));
    }
}

/// Digits past the native scale round the value half away from zero, by at
/// most one unit: the plain spelling of a value's eighteen places followed
/// by three more digits `tail` reads as the value, moved one unit away from
/// zero when `tail` is at least 500.
#[verifier::spinoff_prover]
pub proof fn law_excess_places_round_half_away(raw: int, tail: nat)
    requires
        -max_raw() / 2 <= raw <= max_raw() / 2,
        tail < 1000,
    ensures
        ({
            let m = abs_int(raw) as nat;
            let text = number_text(
                raw < 0,
                digits_spec(m / one_raw() as nat),
                fixed_digits(m % one_raw() as nat, 18) + fixed_digits(tail, 3),
            );
            parse_spec(text) == Ok::<int, ParseDecError>(
                if tail < 500 {
                    raw
                } else if raw < 0 {
                    raw - 1
                } else {
                    raw + 1
                },
            )
        }),
{
    let m = abs_int(raw) as nat;
    let whole = digits_spec(m / one_raw() as nat);
    let fraction = (m % one_raw() as nat) as nat;
    let low = fixed_digits(fraction, 18);
    let high = fixed_digits(tail, 3);
    lemma_digits_spec(m / one_raw() as nat);
    lemma_fixed_digits(fraction, 18);
    lemma_fixed_digits(tail, 3);
    let digits = low + high;
    assert forall|k: int| 0 <= k < digits.len() implies is_digit(#[trigger] digits[k]) by {
        if k < 18 {
            assert(digits[k] == low[k]);
        } else {
            assert(digits[k] == high[k - 18]);
        }
    }
    lemma_number_text_parses(raw < 0, whole, digits);
    lemma_seq_value_concat(low, high);
    crate::num::lemma_pow10_values();
    assert(pow10(3) == 1000) by {
        reveal_with_fuel(pow10, 4);
    }
    assert(fraction < pow10(18));
    assert(fraction % pow10(18) == fraction);
    assert(tail % pow10(3) == tail);
    lemma_pow10_add(18, 3);
    assert(m == (m / one_raw() as nat) * one_raw() + fraction) by (nonlinear_arith)
        requires
            fraction == m % 1_000_000_000_000_000_000,
            one_raw() == 1_000_000_000_000_000_000,
    ;
    let mantissa = seq_value(whole) * pow10(21) + seq_value(digits);
    assert(mantissa == m * 1000 + tail) by (nonlinear_arith)
        requires
            mantissa == seq_value(whole) * pow10(21) + seq_value(digits),
            seq_value(digits) == fraction * 1000 + tail,
            pow10(21) == pow10(18) * 1000,
            pow10(18) == 1_000_000_000_000_000_000,
            m == seq_value(whole) * 1_000_000_000_000_000_000 + fraction,
    ;
    lemma_fundamental_div_mod_converse((m * 1000 + tail) as int, 1000, m as int, tail as int);
    assert(scaled_magnitude(mantissa, 18 - 21) == round_half_up(mantissa as int, 1000));
}

/// Whether a text is the one spelling of a finite number: an optional `-`,
/// whole digits with no leading zero but a lone `0`, and, only when the
/// fraction is not zero, a point and fraction digits with no trailing zero.
pub open spec fn canonical_split(t: Seq<u8>, s: int, e: int) -> bool {
    &&& (s == 0 || (s == 1 && t[0] == 45))
    &&& s < e <= t.len()
    &&& forall|k: int| s <= k < e ==> is_digit(#[trigger] t[k])
    &&& (t[s] != 48 || e == s + 1)
    &&& (e == t.len() || (e + 1 < t.len() && t.len() - e - 1 <= 18 && t[e] == 46 && t[t.len() - 1] != 48
        && forall|k: int| e < k < t.len() ==> is_digit(#[trigger] t[k])))
}

proof fn lemma_digits_spec_lead(n: nat)
    ensures
        digits_spec(n)[0] != 48 || n == 0,
    decreases n,
{
    lemma_digits_spec(n);
    if n >= 10 {
        lemma_digits_spec_lead(n / 10);
        lemma_digits_spec(n / 10);
        assert(digits_spec(n)[0] == digits_spec(n / 10)[0]);
    }
}

/// The text [`Dec::to_string`](crate::Dec::to_string) writes of a finite
/// value is canonical: a `-` exactly when the value is negative, whole digits
/// with no leading zero but a lone `0`, and a point only before a fraction of
/// one to eighteen digits that does not end in zero; no two values share it.
#[verifier::spinoff_prover]
pub proof fn law_to_string_is_canonical(raw: int, other: int)
    requires
        in_range(raw),
        in_range(other),
    ensures
        exists|s: int, e: int| #[trigger] canonical_split(plain_text(raw), s, e),
        (plain_text(raw)[0] == 45) == (raw < 0),
        plain_text(raw) == plain_text(other) ==> raw == other,
{
    let m = abs_int(raw) as nat;
    let sign = sign_text(raw, false);
    let whole = digits_spec(m / one_raw() as nat);
    let fraction = (m % one_raw() as nat) as nat;
    let t = plain_text(raw);
    lemma_digits_spec(m / one_raw() as nat);
    lemma_digits_spec_lead(m / one_raw() as nat);
    let s = sign.len() as int;
    let e = s + whole.len();
    assert(t == sign + natural_text(m));
    assert(t[s] == whole[0]);
    assert(is_digit(whole[0]));
    assert forall|k: int| s <= k < e implies is_digit(#[trigger] t[k]) by {
        assert(t[k] == whole[k - s]);
    }
    if whole[0] == 48 {
        assert(m / one_raw() as nat == 0);
        assert(whole == seq![digit_char(0)]);
    }
    if fraction == 0 {
        assert(t == sign + whole);
    } else {
        let digits = strip_zeros(fixed_digits(fraction, 18));
        lemma_fixed_digits(fraction, 18);
        lemma_strip_zeros(fixed_digits(fraction, 18));
        assert(fraction < pow10(18)) by {
            crate::num::lemma_pow10_values();
        }
        lemma_fundamental_div_mod_converse(fraction as int, pow10(18) as int, 0, fraction as int);
        assert(fraction % pow10(18) == fraction);
        if digits.len() == 0 {
            assert(0 * pow10(18) == 0);
        }
        assert(t == sign + whole + seq![46u8] + digits);
        assert(t[e] == 46);
        assert(t[t.len() - 1] == digits.last());
        assert forall|k: int| e < k < t.len() implies is_digit(#[trigger] t[k]) by {
            assert(t[k] == digits[k - e - 1]);
        }
    }
    assert(canonical_split(t, s, e));
    if raw >= 0 {
        assert(t[0] == whole[0]);
    }
    law_plain_text_parses_back(raw);
    law_plain_text_parses_back(other);
}

/// Whether a text is a sign, whole digits and exactly `places` fraction
/// digits, the point present only when `places` is not zero.
pub open spec fn fixed_split(t: Seq<u8>, negative: bool, places: nat) -> bool {
    exists|whole: Seq<u8>, fraction: Seq<u8>|
        #[trigger] number_text(negative, whole, fraction) == t && whole.len() >= 1 && all_digits(whole)
            && all_digits(fraction) && fraction.len() == places
}

#[verifier::spinoff_prover]
proof fn lemma_places_text(raw: int, dp: nat, options: crate::format::FormatOptions)
    requires
        in_range(raw),
        dp <= 18,
        options.precision == Some(dp as usize),
        options.width is None,
        !options.sign_plus,
    ensures
        ({
            let text = render_spec(raw, Some(dp), false);
            let rounded = rounded_to_places(raw, dp as int, RoundingStrategy::MidpointAwayFromZero);
            &&& fixed_split(text, raw < 0, dp)
            &&& rounded != nan_raw() ==> parse_spec(text) == Ok::<int, ParseDecError>(rounded)
            &&& rounded == nan_raw() ==> parse_spec(text) == Err::<int, ParseDecError>(ParseDecError::Overflow)
            &&& formatted(raw, options) == ascii_chars(text)
        }),
{
    let negative = raw < 0;
    let m = abs_int(raw) as nat;
    let e = (18 - dp) as nat;
    let step = pow10(e);
    let unit = pow10(dp);
    crate::num::lemma_pow10_positive(e);
    crate::num::lemma_pow10_positive(dp);
    let scaled = round_half_up(m as int, step as int) as nat;
    assert(m / step >= 0 && m % step >= 0) by (nonlinear_arith)
        requires
            step > 0,
    ;
    let text = render_spec(raw, Some(dp), false);
    let sign = sign_text(raw, false);
    let whole = digits_spec(scaled / unit);
    lemma_digits_spec(scaled / unit);
    let fraction = if dp == 0 {
        Seq::<u8>::empty()
    } else {
        fixed_digits(scaled % unit, dp)
    };
    lemma_fixed_digits(scaled % unit, dp);
    assert(all_digits(fraction));
    assert(text == number_text(negative, whole, fraction)) by {
        if dp == 0 {
            assert(text == sign + whole);
        } else {
            assert(text =~= sign + whole + seq![46u8] + fraction);
        }
    }
    assert(fixed_split(text, negative, dp));
    lemma_number_text_parses(negative, whole, fraction);
    // what the digits spell is the magnitude rounded to a multiple of the step
    assert(scaled / unit * unit + scaled % unit == scaled && 0 <= scaled % unit < unit) by (nonlinear_arith)
        requires
            unit > 0,
    ;
    if dp == 0 {
        assert(unit == 1);
        assert(scaled / 1 == scaled) by (nonlinear_arith);
        assert(seq_value(whole) * pow10(0) + 0 == scaled);
    } else {
        lemma_fundamental_div_mod_converse((scaled % unit) as int, unit as int, 0, (scaled % unit) as int);
        assert(seq_value(fraction) == scaled % unit);
    }
    let mantissa = seq_value(whole) * pow10(fraction.len()) + seq_value(fraction);
    assert(mantissa == scaled);
    assert(scaled_magnitude(mantissa, 18 - fraction.len()) == scaled * step);
    if dp == 18 {
        assert(step == 1);
        assert(m as int == (m as int) * 1 + 0 && (m as int) * 1 == m) by (nonlinear_arith);
        lemma_fundamental_div_mod_converse(m as int, 1, m as int, 0);
        assert(scaled == m);
        assert(scaled * step == m) by (nonlinear_arith)
            requires
                step == 1,
                scaled == m,
        ;
    } else {
        lemma_round_by_magnitude(raw, step as int, RoundingStrategy::MidpointAwayFromZero);
        let k = round_div(raw, step as int, RoundingStrategy::MidpointAwayFromZero);
        assert(k == with_sign(negative, scaled as int));
        assert(k * step == with_sign(negative, (scaled * step) as int)) by (nonlinear_arith)
            requires
                k == with_sign(negative, scaled as int),
        ;
    }
    assert(formatted(raw, options) == ascii_chars(text)) by {
        assert(crate::format::zeros_of(raw, options) == 0);
        assert(crate::format::places_of(options) == Some(dp));
        assert(crate::format::repeat_char('0', 0) =~= Seq::<char>::empty());
        assert(ascii_chars(text) + crate::format::repeat_char('0', 0) =~= ascii_chars(text));
    }
}

/// What [`Dec::to_string_with`](crate::Dec::to_string_with) writes of a
/// finite value at a precision of `dp` places, with no width or `+`: a `-`
/// exactly when the value is negative, whole digits, and exactly `dp` digits
/// after a point that is there only when `dp` is not zero — the value's own
/// places rounded to `dp` of them, with zeros past the eighteenth. Up to the
/// native scale the text parses back to the value as
/// [`Dec::round_dp`](crate::Dec::round_dp) rounds it to `dp` places, and
/// fails as an overflow exactly where that rounding leaves the range.
pub proof fn law_to_string_with_places_parses_to_round_dp(
    raw: int,
    dp: usize,
    options: crate::format::FormatOptions,
)
    requires
        in_range(raw),
        options.precision == Some(dp),
        options.width is None,
        !options.sign_plus,
    ensures
        ({
            let places: nat = if dp <= 18 {
                dp as nat
            } else {
                18
            };
            let text = render_spec(raw, Some(places), false);
            let rounded = rounded_to_places(raw, dp as int, RoundingStrategy::MidpointAwayFromZero);
            &&& fixed_split(text, raw < 0, places)
            &&& formatted(raw, options) == ascii_chars(text) + crate::format::repeat_char(
                '0',
                (dp - places) as nat,
            )
            &&& dp <= 18 && rounded != nan_raw() ==> parse_spec(text) == Ok::<int, ParseDecError>(rounded)
            &&& dp <= 18 && rounded == nan_raw() ==> parse_spec(text) == Err::<int, ParseDecError>(
                ParseDecError::Overflow,
            )
        }),
{
    let places: nat = if dp <= 18 {
        dp as nat
    } else {
        18
    };
    let mut narrow = options;
    narrow.precision = Some(places as usize);
    lemma_places_text(raw, places, narrow);
    assert(crate::format::places_of(options) == Some(places));
    if dp <= 18 {
        assert(crate::format::zeros_of(raw, options) == 0);
        assert(ascii_chars(render_spec(raw, Some(places), false)) + crate::format::repeat_char('0', 0)
            =~= ascii_chars(render_spec(raw, Some(places), false)));
    } else {
        assert(crate::format::zeros_of(raw, options) == (dp - 18) as nat);
    }
}

// ---------------------------------------------------------------------------
// Conversions and widths
// ---------------------------------------------------------------------------

// Rounding a magnitude to a multiple of `d`, a half rounding up, lands
// within half a step of it, and past it on a tie.
proof fn lemma_nearest_multiple(n: int, d: int)
    requires
        n >= 0,
        d > 0,
    ensures
        round_half_up(n, d) >= 0,
        2 * abs_int(round_half_up(n, d) * d - n) <= d,
        2 * abs_int(round_half_up(n, d) * d - n) == d ==> round_half_up(n, d) * d > n,
{
    let q = n / d;
    let r = n % d;
    lemma_fundamental_div_mod(n, d);
    lemma_mod_bound(n, d);
    lemma_div_pos_is_pos(n, d);
    assert(d * q == q * d) by (nonlinear_arith);
    if 2 * r >= d {
        assert(round_half_up(n, d) == q + 1);
        assert((q + 1) * d == q * d + d) by (nonlinear_arith);
    } else {
        assert(round_half_up(n, d) == q);
    }
}

// One step of trimming: on either sign the magnitude is rounded to the
// nearest multiple of `d`, and no saturation takes place below the bound.
#[verifier::spinoff_prover]
proof fn lemma_trim_step(fraction: int, d: int)
    requires
        d == 10 || d == 100 || d == 1000,
        abs_int(fraction) < 9_223_372_036_854_775_500,
    ensures
        ({
            let m = round_half_up(abs_int(fraction), d) * d;
            &&& clamp_i64(div_round_half_away(fraction, d) * d) == with_sign(fraction < 0, m)
            &&& clamp_i64(div_round_half_away(-fraction, d) * d) == -with_sign(fraction < 0, m)
            &&& m % d == 0
            &&& m >= 0
            &&& 2 * abs_int(m - abs_int(fraction)) <= d
            &&& 2 * abs_int(m - abs_int(fraction)) == d ==> m > abs_int(fraction)
        }),
{
    let a = abs_int(fraction);
    let q = round_half_up(a, d);
    lemma_nearest_multiple(a, d);
    if d == 1000 {
        assert(q * 1000 <= 9_223_372_036_854_775_000);
        assert((q * 1000) % 1000 == 0);
        assert((-q) * 1000 == -(q * 1000));
    } else if d == 100 {
        assert((q * 100) % 100 == 0);
        assert((-q) * 100 == -(q * 100));
    } else {
        assert((q * 10) % 10 == 0);
        assert((-q) * 10 == -(q * 10));
    }
}

/// The digits a double cannot carry are rounded away from a scaled fraction
/// on its magnitude, so the sign plays no part: a fraction and its negation
/// trim to negations of each other. The result is the multiple of the step
/// the fraction's size calls for (a thousand from `10^17` up, a hundred from
/// `10^16`, ten from `10^15`, and none below) nearest the fraction, a half
/// going away from zero. Stated up to where a step of a thousand would leave
/// an `i64` and the trimming saturates.
#[verifier::spinoff_prover]
pub proof fn law_trimming_rounds_the_magnitude(fraction: int)
    requires
        abs_int(fraction) < 9_223_372_036_854_775_500,
    ensures
        trimmed_fraction(-fraction) == -trimmed_fraction(fraction),
        ({
            let a = abs_int(fraction);
            let step: int = if a >= 100_000_000_000_000_000 {
                1000
            } else if a >= 10_000_000_000_000_000 {
                100
            } else if a >= 1_000_000_000_000_000 {
                10
            } else {
                1
            };
            let t = trimmed_fraction(fraction);
            &&& t % step == 0
            &&& 2 * abs_int(t - fraction) <= step
            &&& 2 * abs_int(t - fraction) == step ==> abs_int(t) > a
            &&& (t < 0 ==> fraction < 0) && (t > 0 ==> fraction > 0)
        }),
{
    let a = abs_int(fraction);
    let t = trimmed_fraction(fraction);
    if a >= 100_000_000_000_000_000 {
        lemma_trim_step(fraction, 1000);
        assert(t == with_sign(fraction < 0, round_half_up(a, 1000) * 1000));
    } else if a >= 10_000_000_000_000_000 {
        lemma_trim_step(fraction, 100);
        assert(t == with_sign(fraction < 0, round_half_up(a, 100) * 100));
    } else if a >= 1_000_000_000_000_000 {
        lemma_trim_step(fraction, 10);
        assert(t == with_sign(fraction < 0, round_half_up(a, 10) * 10));
    } else {
        assert(t == fraction);
        assert(t % 1 == 0);
    }
}

/// Converting the negation of a double gives the negation of its
/// conversion: the whole part and scaled fraction of `-x` are those of `x`
/// negated, and they give the negated value, or both fail. What a
/// conversion gives lies within half a step of a thousand of the exact
/// parts, and a whole number converts exactly where it fits. Stated where
/// the trimming does not saturate.
pub proof fn law_float_parts_are_odd(integer: int, fraction: int)
    requires
        abs_int(fraction) < 9_223_372_036_854_775_500,
    ensures
        float_parts_raw(-integer, -fraction) == match float_parts_raw(integer, fraction) {
            Some(raw) => Some(-raw),
            None => None::<int>,
        },
        float_parts_raw(integer, fraction) matches Some(raw) ==> 2 * abs_int(
            raw - (integer * one_raw() + fraction),
        ) <= 1000,
        float_parts_raw(integer, 0) == if in_range(integer * one_raw()) {
            Some(integer * one_raw())
        } else {
            None::<int>
        },
{
    law_trimming_rounds_the_magnitude(fraction);
    let whole = integer * one_raw();
    assert((-integer) * one_raw() == -whole);
    assert(whole != -170_141_183_460_469_231_731_687_303_715_884_105_728);
}

/// A `Decimal` finer than the native scale is rounded to it half away from
/// zero: the result is the multiple of `10^excess` nearest the mantissa, a
/// tie going away from zero. So nothing worth half a unit in the last native
/// place or more converts to zero. This holds of any mantissa up to 38
/// excess places, and past them of every mantissa a `Decimal` holds.
pub proof fn law_finer_decimals_round_half_away(mantissa: int, scale: int)
    requires
        18 < scale,
        scale <= 56 || abs_int(mantissa) <= decimal_mantissa_max(),
    ensures
        ({
            let unit = pow10((scale - 18) as nat) as int;
            &&& decimal_raw(mantissa, scale) matches Some(r)
            &&& 2 * abs_int(r * unit - mantissa) <= unit
            &&& 2 * abs_int(r * unit - mantissa) == unit ==> abs_int(r * unit) > abs_int(mantissa)
            &&& 2 * abs_int(mantissa) >= unit ==> r != 0
        }),
{
    let unit = pow10((scale - 18) as nat) as int;
    lemma_pow10_positive((scale - 18) as nat);
    if scale > 56 {
        lemma_pow10_values();
        assert(pow10(39) == 10 * pow10(38));
        lemma_pow10_monotone(39, (scale - 18) as nat);
        assert(decimal_raw(mantissa, scale) == Some(0int));
        assert(0 * unit == 0);
        return;
    }
    let a = abs_int(mantissa);
    let q = round_half_up(a, unit);
    lemma_nearest_multiple(a, unit);
    assert((-q) * unit == -(q * unit)) by (nonlinear_arith);
    assert(0 * unit == 0);
}

// Rounding ten times a magnitude to multiples of ten times a step is
// rounding the magnitude to multiples of the step.
proof fn lemma_round_half_up_scaled(a: int, u: int)
    requires
        a >= 0,
        u > 0,
    ensures
        round_half_up(10 * a, 10 * u) == round_half_up(a, u),
{
    let q = a / u;
    let r = a % u;
    lemma_fundamental_div_mod(a, u);
    lemma_mod_bound(a, u);
    assert(10 * a == q * (10 * u) + 10 * r) by (nonlinear_arith)
        requires
            a == u * q + r,
    ;
    lemma_fundamental_div_mod_converse(10 * a, 10 * u, q, 10 * r);
}

/// Trailing zeros do not change a `Decimal`: a mantissa ten times larger
/// at one place more converts to the same value, or fails alike, at every
/// scale, so `1.0` and `1.00` are one number. Stated of every mantissa
/// whose tenfold still fits the `i128` that [`Dec::from_parts`] takes.
pub proof fn law_trailing_zeros_do_not_change_a_decimal(mantissa: int, scale: int)
    requires
        0 <= scale,
        abs_int(mantissa * 10) <= max_raw(),
    ensures
        decimal_raw(mantissa * 10, scale + 1) == decimal_raw(mantissa, scale),
{
    lemma_pow10_values();
    if scale + 1 <= 18 {
        let e = (17 - scale) as nat;
        assert(pow10((18 - scale) as nat) == 10 * pow10(e));
        assert(mantissa * 10 * pow10(e) == mantissa * (10 * pow10(e))) by (nonlinear_arith);
    } else if scale == 18 {
        assert(round_half_up(abs_int(mantissa * 10), 10) == abs_int(mantissa));
    } else if scale < 56 {
        let e = (scale - 18) as nat;
        assert(pow10((scale + 1 - 18) as nat) == 10 * pow10(e));
        lemma_pow10_positive(e);
        assert(abs_int(mantissa * 10) == 10 * abs_int(mantissa));
        lemma_round_half_up_scaled(abs_int(mantissa), pow10(e) as int);
    } else if scale == 56 {
        let a = abs_int(mantissa);
        lemma_fundamental_div_mod_converse(a, pow10(38) as int, 0, a);
    }
}

/// A rendering shorter than the width is made up to exactly the width, the
/// zeros a precision past the native scale adds counting towards it; one as
/// long as the width or longer, or one with no width asked for, is written
/// as it is, with nothing added.
pub proof fn law_formatted_fills_the_width(raw: int, options: FormatOptions)
    ensures
        ({
            let body = ascii_chars(render_spec(raw, places_of(options), options.sign_plus)) + repeat_char(
                '0',
                zeros_of(raw, options),
            );
            match options.width {
                Some(w) => if body.len() < w {
                    formatted(raw, options).len() == w
                } else {
                    formatted(raw, options) == body
                },
                None => formatted(raw, options) == body,
            }
        }),
{
}

/// Padding surrounds the rendering and never alters it: the fill stands
/// before it when right aligned, as a number is by default, after it when
/// left aligned, and on both sides when centred, the odd one after. Under
/// sign-aware zero padding the zeros go between the sign and the digits.
pub proof fn law_padding_surrounds_the_rendering(raw: int, options: FormatOptions)
    ensures
        ({
            let text = ascii_chars(render_spec(raw, places_of(options), options.sign_plus));
            let body = text + repeat_char('0', zeros_of(raw, options));
            let out = formatted(raw, options);
            match options.width {
                Some(w) => if body.len() < w {
                    let padding = w - body.len();
                    if options.sign_aware_zero_pad {
                        let lead: int = if text.len() > 0 && (text[0] == '-' || text[0] == '+') {
                            1
                        } else {
                            0
                        };
                        &&& lead == 1 ==> out[0] == text[0]
                        &&& forall|i: int| lead <= i < lead + padding ==> out[i] == '0'
                        &&& out.subrange(lead + padding, w as int) == body.subrange(lead, body.len() as int)
                    } else {
                        let before: int = match options.align {
                            Some(Alignment::Left) => 0,
                            Some(Alignment::Center) => padding / 2,
                            _ => padding,
                        };
                        &&& out.subrange(before, before + body.len()) == body
                        &&& forall|i: int| 0 <= i < before ==> out[i] == options.fill
                        &&& forall|i: int| before + body.len() <= i < w ==> out[i] == options.fill
                    }
                } else {
                    true
                },
                None => true,
            }
        }),
{
    let text = ascii_chars(render_spec(raw, places_of(options), options.sign_plus));
    let zeros = zeros_of(raw, options);
    let body = text + repeat_char('0', zeros);
    let out = formatted(raw, options);
    law_formatted_fills_the_width(raw, options);
    if let Some(w) = options.width {
        if body.len() < w {
            let padding = (w - body.len()) as nat;
            if options.sign_aware_zero_pad {
                if text.len() > 0 && (text[0] == '-' || text[0] == '+') {
                    assert(out == seq![text[0]] + repeat_char('0', padding) + text.drop_first() + repeat_char('0', zeros));
                    assert(out.subrange(1 + padding as int, w as int) =~= body.subrange(1, body.len() as int));
                } else {
                    assert(out == repeat_char('0', padding) + body);
                    assert(out.subrange(padding as int, w as int) =~= body.subrange(0, body.len() as int));
                }
            } else {
                match options.align {
                    Some(Alignment::Left) => {
                        assert(out == body + repeat_char(options.fill, padding));
                        assert(out.subrange(0, body.len() as int) =~= body);
                    },
                    Some(Alignment::Center) => {
                        let half = padding / 2;
                        assert(out == repeat_char(options.fill, half) + body + repeat_char(
                            options.fill,
                            (padding - half) as nat,
                        ));
                        assert(out.subrange(half as int, (half + body.len()) as int) =~= body);
                    },
                    _ => {
                        assert(out == repeat_char(options.fill, padding) + body);
                        assert(out.subrange(padding as int, (padding + body.len()) as int) =~= body);
                    },
                }
            }
        }
    }
}

} // verus!
