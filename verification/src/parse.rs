//! Parsing decimal text into a `Dec`.
//!
//! The accepted text is: spaces, an optional `+` or `-`, spaces, a body of
//! digits with at most one `.` and any number of `_` separators, and an
//! optional exponent, `e` or `E` followed by an optional sign and digits. The
//! value is the exact one the text names, rounded half away from zero to
//! [`Dec::SCALE`] places; text naming a value past the finite range is
//! `Overflow`. So is text whose exponent digits run past 1000 before another
//! digit, and text whose digits the exponent would scale up by more than
//! `10^38` at the native scale, whatever they are, zero included.
use vstd::prelude::*;
use vstd::string::StringSliceAdditionalSpecFns;
use vstd::arithmetic::div_mod::{
    lemma_fundamental_div_mod, lemma_fundamental_div_mod_converse, lemma_mod_pos_bound,
};
use crate::num::{max_raw, round_half_up, with_sign, Dec, MAX_RAW, pow10};

verus! {

/// Why a text is not a decimal.
#[derive(Clone, Copy, Debug, PartialEq, Eq, Structural)]
pub enum ParseDecError {
    /// No digits where digits are required.
    Empty,
    /// A character the grammar does not allow where it stands.
    InvalidDigit,
    /// A value past the finite range.
    Overflow,
}

impl ParseDecError {
    /// The message the error reads as.
    pub fn message(&self) -> (s: &'static str)
        ensures
            s@ == match self {
                ParseDecError::Empty => "no digits in decimal"@,
                ParseDecError::InvalidDigit => "invalid character in decimal"@,
                ParseDecError::Overflow => "decimal out of range"@,
            },
    {
        match self {
            ParseDecError::Empty => "no digits in decimal",
            ParseDecError::InvalidDigit => "invalid character in decimal",
            ParseDecError::Overflow => "decimal out of range",
        }
    }
}

// ---------------------------------------------------------------------------
// The grammar and the value of a text
// ---------------------------------------------------------------------------

pub open spec fn is_digit(c: u8) -> bool {
    48 <= c <= 57
}

pub open spec fn is_exponent_mark(c: u8) -> bool {
    c == 101 || c == 69
}

/// The first position at or after `i` that is not a space.
pub open spec fn skip_spaces(b: Seq<u8>, i: int) -> int
    decreases b.len() - i,
{
    if 0 <= i < b.len() && b[i] == 32 {
        skip_spaces(b, i + 1)
    } else {
        i
    }
}

/// The first position at or after `i` that ends the body: the end of the
/// text or an exponent mark.
pub open spec fn body_end(b: Seq<u8>, i: int) -> int
    decreases b.len() - i,
{
    if 0 <= i < b.len() && !is_exponent_mark(b[i]) {
        body_end(b, i + 1)
    } else {
        i
    }
}

/// What the body read so far says: whether it is still well formed, whether
/// a point was seen, how many digits there were and how many of them
/// followed the point, and the integer all of them spell.
pub struct BodyScan {
    pub ok: bool,
    pub point: bool,
    pub digits: nat,
    pub frac: nat,
    pub mantissa: nat,
}

/// The body `b[i..j]`, read from the left.
pub open spec fn scan_body(b: Seq<u8>, i: int, j: int) -> BodyScan
    decreases j - i,
{
    if j <= i {
        BodyScan { ok: true, point: false, digits: 0, frac: 0, mantissa: 0 }
    } else {
        let prev = scan_body(b, i, j - 1);
        let c = b[j - 1];
        if !prev.ok {
            prev
        } else if is_digit(c) {
            BodyScan {
                ok: true,
                point: prev.point,
                digits: prev.digits + 1,
                frac: prev.frac + if prev.point {
                    1nat
                } else {
                    0nat
                },
                mantissa: prev.mantissa * 10 + (c - 48) as nat,
            }
        } else if c == 95 {
            prev
        } else if c == 46 && !prev.point {
            BodyScan { point: true, ..prev }
        } else {
            BodyScan { ok: false, ..prev }
        }
    }
}

/// The integer the digits `b[i..j]` spell.
pub open spec fn digits_value(b: Seq<u8>, i: int, j: int) -> nat
    decreases j - i,
{
    if j <= i {
        0
    } else {
        digits_value(b, i, j - 1) * 10 + (b[j - 1] - 48) as nat
    }
}

/// The value `m * 10^shift` at the native scale, rounded half away from zero
/// when `shift` is negative.
pub open spec fn scaled_magnitude(m: nat, shift: int) -> int {
    if shift >= 0 {
        (m * pow10(shift as nat)) as int
    } else {
        round_half_up(m as int, pow10((-shift) as nat) as int)
    }
}

/// The exponent's digits read from `p` on, `value` the integer read so
/// far from `start`: a character that is not a digit, a value already past
/// 1000 when another digit follows, or no digit at all is the error the
/// first of them is; otherwise the value the digits spell.
pub open spec fn exponent_digits(b: Seq<u8>, start: int, p: int, value: nat) -> Result<nat, ParseDecError>
    decreases b.len() - p,
{
    if p >= b.len() {
        if p == start {
            Err(ParseDecError::Empty)
        } else {
            Ok(value)
        }
    } else if !is_digit(b[p]) {
        Err(ParseDecError::InvalidDigit)
    } else if value > 1000 {
        Err(ParseDecError::Overflow)
    } else {
        exponent_digits(b, start, p + 1, value * 10 + (b[p] - 48) as nat)
    }
}

/// The exponent part, starting at the mark at `e`: its signed value, or the
/// error it is.
pub open spec fn exponent_spec(b: Seq<u8>, e: int) -> Result<int, ParseDecError> {
    if e >= b.len() {
        Ok(0)
    } else {
        let j = e + 1;
        let signed = j < b.len() && (b[j] == 45 || b[j] == 43);
        let negative = signed && b[j] == 45;
        let k = if signed {
            j + 1
        } else {
            j
        };
        match exponent_digits(b, k, k, 0) {
            Ok(value) => Ok(with_sign(negative, value as int)),
            Err(error) => Err(error),
        }
    }
}

/// The raw a text parses to, or the error it is. `shift` is where the
/// digits' last place lands relative to the native scale's last place.
pub open spec fn parse_spec(b: Seq<u8>) -> Result<int, ParseDecError> {
    let i0 = skip_spaces(b, 0);
    let signed = i0 < b.len() && (b[i0] == 45 || b[i0] == 43);
    let negative = signed && b[i0] == 45;
    let i2 = skip_spaces(
        b,
        if signed {
            i0 + 1
        } else {
            i0
        },
    );
    let e = body_end(b, i2);
    let body = scan_body(b, i2, e);
    if !body.ok {
        Err(ParseDecError::InvalidDigit)
    } else if body.digits == 0 {
        Err(ParseDecError::Empty)
    } else {
        match exponent_spec(b, e) {
            Err(error) => Err(error),
            Ok(exponent) => {
                let shift = exponent - body.frac + 18;
                let magnitude = scaled_magnitude(body.mantissa, shift);
                if shift > 38 || magnitude > max_raw() {
                    Err(ParseDecError::Overflow)
                } else {
                    Ok(with_sign(negative, magnitude))
                }
            },
        }
    }
}

// ---------------------------------------------------------------------------
// The scanner
// ---------------------------------------------------------------------------

const U128_MAX: u128 = 340_282_366_920_938_463_463_374_607_431_768_211_455;


fn skip_spaces_exec(bytes: &[u8], start: usize) -> (j: usize)
    requires
        start <= bytes@.len(),
    ensures
        j == skip_spaces(bytes@, start as int),
        start <= j <= bytes@.len(),
{
    let mut index = start;
    while index < bytes.len() && bytes[index] == 32
        invariant
            start <= index <= bytes@.len(),
            skip_spaces(bytes@, start as int) == skip_spaces(bytes@, index as int),
        decreases bytes@.len() - index,
    {
        index = index + 1;
    }
    index
}

/// The mantissa as far as a `u128` holds it, and what was dropped past that.
struct Kept {
    /// The leading digits, as many as fit.
    kept: u128,
    /// Whether a digit was dropped.
    full: bool,
    /// The first digit dropped.
    first_dropped: u8,
    /// The power of ten the kept digits carry relative to the text's own:
    /// one less for each kept digit after the point, one more for each
    /// dropped digit before it.
    adjust: i128,
    /// Every digit read, kept or not.
    digits: usize,
    /// Whether the point was seen.
    point: bool,
}

/// `kept` holds the leading digits of the body's mantissa; the `dropped`
/// digits after them spell `tail`, led by `first_dropped`.
spec fn kept_relation(scan: BodyScan, state: Kept, dropped: nat, tail: nat) -> bool {
    &&& state.digits == scan.digits
    &&& state.point == scan.point
    &&& if !state.full {
        &&& dropped == 0
        &&& scan.mantissa == state.kept
        &&& state.adjust == -(scan.frac as int)
    } else {
        &&& dropped >= 1
        &&& scan.mantissa == state.kept * pow10(dropped) + tail
        &&& tail < pow10(dropped)
        &&& tail / pow10((dropped - 1) as nat) == state.first_dropped
        &&& state.first_dropped <= 9
        &&& state.kept * 10 + 9 > U128_MAX
        &&& state.adjust == dropped - scan.frac
    }
}

/// Once the body is malformed it stays malformed.
proof fn lemma_scan_stays_bad(b: Seq<u8>, i: int, j: int, k: int)
    requires
        i <= j <= k,
        !scan_body(b, i, j).ok,
    ensures
        !scan_body(b, i, k).ok,
    decreases k - j,
{
    if k > j {
        lemma_scan_stays_bad(b, i, j, k - 1);
    }
}

/// The body ends at or after where it starts.
proof fn lemma_body_end_at_least(b: Seq<u8>, i: int)
    requires
        0 <= i,
    ensures
        body_end(b, i) >= i,
    decreases b.len() - i,
{
    if 0 <= i < b.len() && !is_exponent_mark(b[i]) {
        lemma_body_end_at_least(b, i + 1);
    }
}

/// The body ends at the same place from any position before its end.
proof fn lemma_body_end_from(b: Seq<u8>, i: int, j: int)
    requires
        0 <= i <= j <= b.len(),
        forall|p: int| i <= p < j ==> !is_exponent_mark(b[p]),
    ensures
        body_end(b, i) == body_end(b, j),
    decreases j - i,
{
    if i < j {
        lemma_body_end_from(b, i + 1, j);
    }
}

/// Reading the body: `Err(InvalidDigit)` exactly when it is malformed, and
/// otherwise where it ends and what it holds.
fn scan_body_exec(bytes: &[u8], start: usize) -> (r: (Result<(Kept, usize), ParseDecError>, Ghost<nat>, Ghost<nat>))
    requires
        start <= bytes@.len(),
    ensures
        r.0 is Err ==> r.0 == Err::<(Kept, usize), ParseDecError>(ParseDecError::InvalidDigit)
            && !scan_body(bytes@, start as int, body_end(bytes@, start as int)).ok,
        r.0 matches Ok((state, end)) ==> {
            &&& end == body_end(bytes@, start as int)
            &&& end <= bytes@.len()
            &&& scan_body(bytes@, start as int, end as int).ok
            &&& kept_relation(scan_body(bytes@, start as int, end as int), state, r.1@, r.2@)
            &&& -(end as int) <= state.adjust <= end
        },
{
    let len = bytes.len();
    let mut index = start;
    let mut state = Kept { kept: 0, full: false, first_dropped: 0, adjust: 0, digits: 0, point: false };
    let ghost mut dropped: nat = 0;
    let ghost mut tail: nat = 0;
    proof {
        lemma_pow10_values_parse();
    }
    while index < len
        invariant
            start <= index <= len,
            len == bytes@.len(),
            forall|p: int| start <= p < index ==> !is_exponent_mark(bytes@[p]),
            scan_body(bytes@, start as int, index as int).ok,
            kept_relation(scan_body(bytes@, start as int, index as int), state, dropped, tail),
            -(index - start) <= state.adjust <= index - start,
            state.digits <= index - start,
        ensures
            start <= index <= len,
            forall|p: int| start <= p < index ==> !is_exponent_mark(bytes@[p]),
            index == len || is_exponent_mark(bytes@[index as int]),
            scan_body(bytes@, start as int, index as int).ok,
            kept_relation(scan_body(bytes@, start as int, index as int), state, dropped, tail),
            -(index - start) <= state.adjust <= index - start,
        decreases len - index,
    {
        let byte = bytes[index];
        let ghost prev = scan_body(bytes@, start as int, index as int);
        if byte >= 48 && byte <= 57 {
            let digit = byte - 48;
            if state.full {
                proof {
                    // one more dropped digit: the tail grows by it
                    lemma_drop_digit(prev.mantissa, state.kept as nat, dropped, tail, digit as nat);
                    tail = tail * 10 + digit as nat;
                    dropped = dropped + 1;
                }
                if !state.point {
                    state.adjust = state.adjust + 1;
                }
            } else if state.kept <= (U128_MAX - digit as u128) / 10 {
                proof {
                    assert(state.kept * 10 + digit <= U128_MAX) by (nonlinear_arith)
                        requires
                            state.kept <= (U128_MAX - digit) / 10,
                            digit <= 9,
                    ;
                }
                state.kept = state.kept * 10 + digit as u128;
                if state.point {
                    state.adjust = state.adjust - 1;
                }
            } else {
                proof {
                    assert(state.kept * 10 + 9 > U128_MAX) by (nonlinear_arith)
                        requires
                            state.kept > (U128_MAX - digit) / 10,
                            digit <= 9,
                    ;
                    lemma_pow10_values_parse();
                    assert(digit as nat / pow10(0) == digit);
                    tail = digit as nat;
                    dropped = 1;
                }
                state.full = true;
                state.first_dropped = digit;
                if !state.point {
                    state.adjust = state.adjust + 1;
                }
            }
            state.digits = state.digits + 1;
            index = index + 1;
            continue;
        }
        if byte == 101 || byte == 69 {
            break;
        }
        if byte == 95 {
            index = index + 1;
            continue;
        }
        if byte != 46 || state.point {
            proof {
                assert(!scan_body(bytes@, start as int, index + 1).ok);
                lemma_body_end_from(bytes@, start as int, index as int);
                assert(body_end(bytes@, index as int) == body_end(bytes@, index + 1));
                lemma_body_end_at_least(bytes@, index + 1);
                lemma_scan_stays_bad(bytes@, start as int, index + 1, body_end(bytes@, start as int));
            }
            return (Err(ParseDecError::InvalidDigit), Ghost(0), Ghost(0));
        }
        state.point = true;
        index = index + 1;
    }
    proof {
        lemma_body_end_from(bytes@, start as int, index as int);
    }
    (Ok((state, index)), Ghost(dropped), Ghost(tail))
}

proof fn lemma_pow10_values_parse()
    ensures
        pow10(0) == 1,
        pow10(1) == 10,
{
    reveal_with_fuel(pow10, 2);
}

/// A digit dropped after the tail: the mantissa keeps its split, one place
/// further along, and the tail's leading digit stays where it was.
proof fn lemma_drop_digit(mantissa: nat, kept: nat, dropped: nat, tail: nat, digit: nat)
    requires
        dropped >= 1,
        mantissa == kept * pow10(dropped) + tail,
        tail < pow10(dropped),
        digit <= 9,
    ensures
        mantissa * 10 + digit == kept * pow10(dropped + 1) + (tail * 10 + digit),
        tail * 10 + digit < pow10(dropped + 1),
        (tail * 10 + digit) / pow10(dropped) == tail / pow10((dropped - 1) as nat),
{
    let p = pow10((dropped - 1) as nat);
    assert(pow10(dropped) == 10 * p);
    assert(pow10(dropped + 1) == 10 * pow10(dropped));
    crate::num::lemma_pow10_positive((dropped - 1) as nat);
    assert(mantissa * 10 + digit == kept * pow10(dropped + 1) + (tail * 10 + digit)) by (nonlinear_arith)
        requires
            mantissa == kept * pow10(dropped) + tail,
            pow10(dropped + 1) == 10 * pow10(dropped),
    ;
    assert(tail * 10 + digit < pow10(dropped + 1)) by (nonlinear_arith)
        requires
            tail < pow10(dropped),
            digit <= 9,
            pow10(dropped + 1) == 10 * pow10(dropped),
    ;
    let t = tail as int;
    let pi = p as int;
    let d = digit as int;
    lemma_fundamental_div_mod(t, pi);
    lemma_mod_pos_bound(t, pi);
    assert(t * 10 + d == (t / pi) * (10 * pi) + ((t % pi) * 10 + d)) by (nonlinear_arith)
        requires
            t == pi * (t / pi) + t % pi,
    ;
    assert((t % pi) * 10 + d < 10 * pi) by (nonlinear_arith)
        requires
            t % pi < pi,
            d <= 9,
    ;
    lemma_fundamental_div_mod_converse(t * 10 + d, 10 * pi, t / pi, (t % pi) * 10 + d);
}

/// Whether the exponent at `e` carries a minus sign.
spec fn exponent_negative(b: Seq<u8>, e: int) -> bool {
    e + 1 < b.len() && b[e + 1] == 45
}

/// Where the exponent's digits start.
spec fn exponent_digits_start(b: Seq<u8>, e: int) -> int {
    if e + 1 < b.len() && (b[e + 1] == 45 || b[e + 1] == 43) {
        e + 2
    } else {
        e + 1
    }
}

/// Reading the exponent: its sign and its magnitude, at most 10009.
fn scan_exponent_exec(bytes: &[u8], e: usize) -> (r: Result<(bool, u128), ParseDecError>)
    requires
        e <= bytes@.len(),
    ensures
        e == bytes@.len() ==> r == Ok::<(bool, u128), ParseDecError>((false, 0u128)),
        r is Err <==> exponent_spec(bytes@, e as int) is Err,
        r matches Err(x) ==> exponent_spec(bytes@, e as int) == Err::<int, ParseDecError>(x),
        r matches Ok((negative, value)) ==> value <= 10009 && exponent_spec(bytes@, e as int) == Ok::<
            int,
            ParseDecError,
        >(with_sign(negative, value as int)),
{
    let len = bytes.len();
    if e >= len {
        return Ok((false, 0));
    }
    let mut index = e + 1;
    let mut negative = false;
    if index < len && (bytes[index] == 45 || bytes[index] == 43) {
        negative = bytes[index] == 45;
        index = index + 1;
    }
    let start = index;
    let mut value: u128 = 0;
    while index < len
        invariant
            start <= index <= len,
            len == bytes@.len(),
            start == exponent_digits_start(bytes@, e as int),
            negative == exponent_negative(bytes@, e as int),
            value <= 10009,
            index == start ==> value == 0,
            exponent_digits(bytes@, start as int, start as int, 0) == exponent_digits(
                bytes@,
                start as int,
                index as int,
                value as nat,
            ),
        decreases len - index,
    {
        let byte = bytes[index];
        if byte < 48 || byte > 57 {
            return Err(ParseDecError::InvalidDigit);
        }
        if value > 1000 {
            return Err(ParseDecError::Overflow);
        }
        value = value * 10 + (byte - 48) as u128;
        index = index + 1;
    }
    if index == start {
        return Err(ParseDecError::Empty);
    }
    Ok((negative, value))
}

/// The magnitude the kept digits give at a shift: `kept * 10^shift`, carried
/// up by a first dropped digit of five or more when that digit sits right
/// below the last place, or rounded half away from zero below it.
spec fn kept_magnitude(kept: nat, shift: int, full: bool, first: nat) -> int {
    if shift >= 0 {
        kept * pow10(shift as nat) + if shift == 0 && full && first >= 5 {
            1int
        } else {
            0int
        }
    } else {
        round_half_up(kept as int, pow10((-shift) as nat) as int)
    }
}

/// Two magnitudes that a parse answers the same way: equal, or both past the
/// finite range.
spec fn same_outcome(x: int, y: int) -> bool {
    (x > max_raw() && y > max_raw()) || x == y
}

/// `kept_magnitude`, or `None` once it passes the finite range.
fn scale_kept(kept: u128, shift: i128, full: bool, first_dropped: u8) -> (r: Option<u128>)
    requires
        full ==> kept * 10 + 9 > U128_MAX,
    ensures
        r matches Some(x) ==> x == kept_magnitude(kept as nat, shift as int, full, first_dropped as nat)
            && x <= max_raw(),
        r is None ==> kept_magnitude(kept as nat, shift as int, full, first_dropped as nat) > max_raw(),
{
    proof {
        crate::num::lemma_pow10_values();
    }
    if shift >= 0 {
        if kept == 0 {
            proof {
                assert(kept * pow10(shift as nat) == 0);
            }
            return Some(0);
        }
        if shift > 38 {
            proof {
                lemma_pow10_past_range(shift as nat);
                assert(kept * pow10(shift as nat) >= pow10(shift as nat)) by (nonlinear_arith)
                    requires
                        kept >= 1,
                ;
            }
            return None;
        }
        let power = crate::round::pow10_u128(shift as u32);
        match kept.checked_mul(power) {
            None => None,
            Some(product) => {
                let carry = shift == 0 && full && first_dropped >= 5;
                if product > MAX_RAW as u128 {
                    return None;
                }
                let magnitude = if carry {
                    product + 1
                } else {
                    product
                };
                if magnitude > MAX_RAW as u128 {
                    None
                } else {
                    Some(magnitude)
                }
            },
        }
    } else {
        if shift < -38 {
            proof {
                lemma_round_to_nothing(kept as nat, (-shift) as nat);
            }
            return Some(0);
        }
        let divisor = crate::round::pow10_u128((-shift) as u32);
        proof {
            crate::round::lemma_pow10_monotone(1, (-shift) as nat);
        }
        let magnitude = div_round_u128(kept, divisor);
        if magnitude > MAX_RAW as u128 {
            None
        } else {
            Some(magnitude)
        }
    }
}

/// A power of ten past `10^38` puts any whole unit past the range.
proof fn lemma_pow10_past_range(e: nat)
    requires
        e >= 39,
    ensures
        pow10(e) > max_raw(),
{
    crate::round::lemma_pow10_monotone(39, e);
    reveal_with_fuel(pow10, 40);
}

/// Rounding a `u128` to a step past `10^38` leaves nothing.
proof fn lemma_round_to_nothing(n: nat, e: nat)
    requires
        e >= 39,
        n <= U128_MAX,
    ensures
        round_half_up(n as int, pow10(e) as int) == 0,
{
    lemma_pow10_past_range(e);
    crate::round::lemma_pow10_monotone(39, e);
    reveal_with_fuel(pow10, 40);
    lemma_fundamental_div_mod_converse(n as int, pow10(e) as int, 0, n as int);
}

// numerator / divisor, a half rounding up
pub(crate) fn div_round_u128(numerator: u128, divisor: u128) -> (r: u128)
    requires
        divisor >= 2,
    ensures
        r == round_half_up(numerator as int, divisor as int),
{
    let quotient = numerator / divisor;
    let remainder = numerator % divisor;
    let half = divisor / 2;
    proof {
        assert(quotient < U128_MAX) by (nonlinear_arith)
            requires
                quotient == numerator / divisor,
                divisor >= 2,
                numerator <= U128_MAX,
        ;
    }
    if remainder > half || (remainder == half && divisor % 2 == 0) {
        quotient + 1
    } else {
        quotient
    }
}

/// Dropping the digits that did not fit changes nothing a parse answers:
/// past the last place they cannot reach the rounding of an even step, right
/// below it the first of them decides it, and above it the value is already
/// past the range.
proof fn lemma_surplus(m: nat, kept: nat, dropped: nat, tail: nat, first: nat, exponent: int)
    requires
        dropped >= 1,
        m == kept * pow10(dropped) + tail,
        tail < pow10(dropped),
        tail / pow10((dropped - 1) as nat) == first,
        first <= 9,
        kept * 10 + 9 > U128_MAX,
    ensures
        same_outcome(
            scaled_magnitude(m, exponent),
            kept_magnitude(kept, exponent + dropped, true, first),
        ),
{
    let shift = exponent + dropped;
    let c = pow10(dropped);
    let p = pow10((dropped - 1) as nat);
    assert(c == 10 * p);
    crate::num::lemma_pow10_positive((dropped - 1) as nat);
    crate::num::lemma_pow10_values();
    if shift >= 1 {
        // the kept digits alone already pass the range
        crate::round::lemma_pow10_monotone(1, shift as nat);
        assert(kept * pow10(shift as nat) >= kept * 10) by (nonlinear_arith)
            requires
                pow10(shift as nat) >= 10,
        ;
        if exponent >= 0 {
            crate::num::lemma_pow10_positive(exponent as nat);
            crate::round::lemma_pow10_monotone(1, dropped);
            assert(m * pow10(exponent as nat) >= kept * 10) by (nonlinear_arith)
                requires
                    m == kept * c + tail,
                    c >= 10,
                    pow10(exponent as nat) >= 1,
            ;
        } else {
            let d = pow10((-exponent) as nat);
            crate::round::lemma_pow10_add(shift as nat, (-exponent) as nat);
            assert((shift + (-exponent)) as nat == dropped);
            crate::num::lemma_pow10_positive((-exponent) as nat);
            // m >= kept * 10^shift * d, so m / d >= kept * 10^shift
            let x = kept * pow10(shift as nat);
            assert(m >= x * d) by (nonlinear_arith)
                requires
                    m == kept * c + tail,
                    c == pow10(shift as nat) * d,
                    x == kept * pow10(shift as nat),
            ;
            lemma_fundamental_div_mod(m as int, d as int);
            lemma_mod_pos_bound(m as int, d as int);
            assert(m / d >= x) by (nonlinear_arith)
                requires
                    m >= x * d,
                    d >= 1,
                    m == d * (m / d) + m % d,
                    m % d < d,
            ;
        }
    } else if shift == 0 {
        // the exponent is -dropped: round the tail against 10^dropped
        lemma_fundamental_div_mod(tail as int, p as int);
        lemma_mod_pos_bound(tail as int, p as int);
        assert(m == kept * c + tail);
        lemma_fundamental_div_mod_converse(m as int, c as int, kept as int, tail as int);
        assert((2 * tail >= c) == (first >= 5)) by (nonlinear_arith)
            requires
                tail == p * first + tail % p,
                0 <= tail % p < p,
                c == 10 * p,
                p >= 1,
        ;
    } else {
        // below the last place: an even step is rounded the same way with
        // or without the tail
        let k = (-shift) as nat;
        let d = pow10(k);
        crate::round::lemma_pow10_add(k, dropped);
        assert((k + dropped) as nat == (-exponent) as nat);
        crate::round::lemma_pow10_monotone(1, k);
        lemma_pow10_even_parse(k);
        crate::round::lemma_pow10_monotone(1, dropped);
        lemma_round_ignores_tail(kept as int, d as int, c as int, tail as int);
        assert(d * c == pow10((-exponent) as nat));
    }
}

/// Powers of ten from ten up are even.
proof fn lemma_pow10_even_parse(e: nat)
    requires
        e >= 1,
    ensures
        pow10(e) % 2 == 0,
{
    assert(pow10(e) == 10 * pow10((e - 1) as nat));
    lemma_fundamental_div_mod_converse(pow10(e) as int, 2, 5 * pow10((e - 1) as nat) as int, 0);
}

/// `round(k * c + t, d * c) == round(k, d)` for an even `d` and a tail `t`
/// below `c`: the tail cannot carry a remainder across the half of an even
/// step.
proof fn lemma_round_ignores_tail(k: int, d: int, c: int, t: int)
    requires
        k >= 0,
        d >= 2,
        d % 2 == 0,
        c >= 1,
        0 <= t < c,
    ensures
        round_half_up(k * c + t, d * c) == round_half_up(k, d),
{
    lemma_fundamental_div_mod(k, d);
    lemma_mod_pos_bound(k, d);
    let q = k / d;
    let r = k % d;
    assert(k * c + t == q * (d * c) + (r * c + t)) by (nonlinear_arith)
        requires
            k == d * q + r,
    ;
    assert(r * c + t < d * c) by (nonlinear_arith)
        requires
            r < d,
            t < c,
            c >= 1,
    ;
    assert(r * c + t >= 0) by (nonlinear_arith)
        requires
            r >= 0,
            t >= 0,
            c >= 1,
    ;
    lemma_fundamental_div_mod_converse(k * c + t, d * c, q, r * c + t);
    lemma_fundamental_div_mod(d, 2);
    assert((2 * (r * c + t) >= d * c) == (2 * r >= d)) by (nonlinear_arith)
        requires
            d == 2 * (d / 2),
            0 <= t < c,
            c >= 1,
            r >= 0,
    ;
}

/// The raw a text parses to, or why it does not: [`parse_spec`].
pub(crate) fn parse_bytes(bytes: &[u8]) -> (r: Result<i128, ParseDecError>)
    ensures
        r == match parse_spec(bytes@) {
            Ok(x) => Ok::<i128, ParseDecError>(x as i128),
            Err(e) => Err::<i128, ParseDecError>(e),
        },
{
    let len = bytes.len();
    let i0 = skip_spaces_exec(bytes, 0);
    let mut negative = false;
    let mut index = i0;
    if i0 < len && (bytes[i0] == 45 || bytes[i0] == 43) {
        negative = bytes[i0] == 45;
        index = i0 + 1;
    }
    let i2 = skip_spaces_exec(bytes, index);
    let (scanned, Ghost(dropped), Ghost(tail)) = scan_body_exec(bytes, i2);
    let (state, e) = match scanned {
        Err(x) => return Err(x),
        Ok(v) => v,
    };
    let ghost body = scan_body(bytes@, i2 as int, e as int);
    if state.digits == 0 {
        return Err(ParseDecError::Empty);
    }
    let (exponent_negative, exponent_value) = match scan_exponent_exec(bytes, e) {
        Err(x) => return Err(x),
        Ok(v) => v,
    };
    let exponent: i128 = if exponent_negative {
        -(exponent_value as i128)
    } else {
        exponent_value as i128
    };
    let shift = exponent + state.adjust + 18;
    let ghost real_exponent = with_sign(exponent_negative, exponent_value as int);
    proof {
        let spec_shift = real_exponent - body.frac + 18;
        if state.full {
            lemma_surplus(
                body.mantissa,
                state.kept as nat,
                dropped,
                tail,
                state.first_dropped as nat,
                spec_shift,
            );
        } else {
            assert(kept_magnitude(state.kept as nat, spec_shift, false, state.first_dropped as nat)
                == scaled_magnitude(body.mantissa, spec_shift));
        }
    }
    // a shift past 38 is an overflow, whatever the digits: where the mantissa
    // was cut short its kept digits alone are already past the range
    if shift > 38 {
        proof {
            if state.full {
                lemma_pow10_past_range(shift as nat);
                assert(state.kept * pow10(shift as nat) >= pow10(shift as nat)) by (nonlinear_arith)
                    requires
                        state.kept >= 1,
                ;
            }
        }
        return Err(ParseDecError::Overflow);
    }
    match scale_kept(state.kept, shift, state.full, state.first_dropped) {
        None => Err(ParseDecError::Overflow),
        Some(magnitude) => Ok(
            if negative {
                -(magnitude as i128)
            } else {
                magnitude as i128
            },
        ),
    }
}

/// A text that parses names a value in the finite range.
pub proof fn lemma_parse_in_range(b: Seq<u8>)
    ensures
        parse_spec(b) matches Ok(x) ==> -max_raw() <= x <= max_raw(),
{
    let i0 = skip_spaces(b, 0);
    let signed = i0 < b.len() && (b[i0] == 45 || b[i0] == 43);
    let i2 = skip_spaces(b, if signed { i0 + 1 } else { i0 });
    let e = body_end(b, i2);
    let body = scan_body(b, i2, e);
    if let Ok(exponent) = exponent_spec(b, e) {
        let shift = exponent - body.frac + 18;
        if shift < 0 {
            let d = pow10((-shift) as nat) as int;
            crate::num::lemma_pow10_positive((-shift) as nat);
            lemma_fundamental_div_mod(body.mantissa as int, d);
            assert((body.mantissa as int) / d >= 0) by (nonlinear_arith)
                requires
                    d >= 1,
                    body.mantissa >= 0,
            ;
        }
    }
}

impl Dec {
    /// Parse text, `None` on malformed or out-of-range text: what the text
    /// parses to under [`parse_spec`].
    pub fn parse_const(value: &str) -> (r: Option<Dec>)
        ensures
            r is Some <==> parse_spec(value.spec_bytes()) is Ok,
            r matches Some(d) ==> parse_spec(value.spec_bytes()) == Ok::<int, ParseDecError>(d.raw()),
    {
        proof {
            lemma_parse_in_range(value.spec_bytes());
        }
        match parse_bytes(value.as_bytes()) {
            Ok(raw) => Some(Dec(raw)),
            Err(_) => None,
        }
    }

    /// Parse text: the value it names, rounded half away from zero to
    /// [`Dec::SCALE`] places, or why it is not a decimal.
    pub fn parse(value: &str) -> (r: Result<Dec, ParseDecError>)
        ensures
            r is Ok <==> parse_spec(value.spec_bytes()) is Ok,
            r matches Ok(d) ==> parse_spec(value.spec_bytes()) == Ok::<int, ParseDecError>(d.raw()),
            r matches Err(e) ==> parse_spec(value.spec_bytes()) == Err::<int, ParseDecError>(e),
    {
        proof {
            lemma_parse_in_range(value.spec_bytes());
        }
        match parse_bytes(value.as_bytes()) {
            Ok(raw) => Ok(Dec(raw)),
            Err(e) => Err(e),
        }
    }
}

/// Parsing through [`Dec::parse`].
impl core::str::FromStr for Dec {
    type Err = ParseDecError;

    fn from_str(value: &str) -> (r: Result<Dec, ParseDecError>)
        ensures
            r is Ok <==> parse_spec(value.spec_bytes()) is Ok,
            r matches Ok(d) ==> parse_spec(value.spec_bytes()) == Ok::<int, ParseDecError>(d.raw()),
            r matches Err(e) ==> parse_spec(value.spec_bytes()) == Err::<int, ParseDecError>(e),
    {
        Dec::parse(value)
    }
}

} // verus!
