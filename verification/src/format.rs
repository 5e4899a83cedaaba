//! Rendering a `Dec` as text: every place it carries with trailing zeros
//! stripped, or exactly a given number of places rounded half away from zero,
//! then padded to a width.
use vstd::prelude::*;
use vstd::arithmetic::div_mod::{
    lemma_fundamental_div_mod, lemma_fundamental_div_mod_converse, lemma_mod_pos_bound,
};
use crate::num::{abs_int, nan_raw, one_raw, pow10, round_half_up, unsigned_abs, Dec, NAN_RAW, ONE_U};
use crate::round::{lemma_pow10_monotone, pow10_u128};

verus! {

// ---------------------------------------------------------------------------
// The text of a value
// ---------------------------------------------------------------------------

/// The ASCII digit of `d`.
pub open spec fn digit_char(d: int) -> u8 {
    (48 + d) as u8
}

/// The decimal digits of `n`, with no leading zero: `0` is `"0"`.
pub open spec fn digits_spec(n: nat) -> Seq<u8>
    decreases n,
{
    if n < 10 {
        seq![digit_char(n as int)]
    } else {
        digits_spec(n / 10).push(digit_char((n % 10) as int))
    }
}

/// The last `width` decimal digits of `n`, zero padded on the left.
pub open spec fn fixed_digits(n: nat, width: nat) -> Seq<u8>
    decreases width,
{
    if width == 0 {
        Seq::empty()
    } else {
        fixed_digits(n / 10, (width - 1) as nat).push(digit_char((n % 10) as int))
    }
}

/// `s` without its trailing `0`s.
pub open spec fn strip_zeros(s: Seq<u8>) -> Seq<u8>
    decreases s.len(),
{
    if s.len() > 0 && s.last() == 48 {
        strip_zeros(s.drop_last())
    } else {
        s
    }
}

/// A magnitude with every place it carries: the whole part, then the
/// eighteen places of the fraction with trailing zeros stripped, the point
/// only when some remain.
pub open spec fn natural_text(magnitude: nat) -> Seq<u8> {
    let whole = digits_spec(magnitude / one_raw() as nat);
    let fraction = (magnitude % one_raw() as nat) as nat;
    if fraction == 0 {
        whole
    } else {
        whole + seq![46u8] + strip_zeros(fixed_digits(fraction, 18))
    }
}

/// A magnitude rounded half away from zero to exactly `places` places.
pub open spec fn fixed_text(magnitude: nat, places: nat) -> Seq<u8> {
    let scaled = round_half_up(magnitude as int, pow10((18 - places) as nat) as int) as nat;
    let unit = pow10(places);
    let whole = digits_spec(scaled / unit);
    if places == 0 {
        whole
    } else {
        whole + seq![46u8] + fixed_digits(scaled % unit, places)
    }
}

/// The sign a rendering starts with: `-` for a negative value, `+` for any
/// other when asked for.
pub open spec fn sign_text(raw: int, plus: bool) -> Seq<u8> {
    if raw < 0 {
        seq![45u8]
    } else if plus {
        seq![43u8]
    } else {
        Seq::empty()
    }
}

/// The text of a raw at its own precision or at a given number of places,
/// up to the native scale. NaN reads `NaN`.
pub open spec fn render_spec(raw: int, places: Option<nat>, plus: bool) -> Seq<u8> {
    if raw == nan_raw() {
        seq![78u8, 97u8, 78u8]
    } else {
        sign_text(raw, plus) + match places {
            Some(p) => fixed_text(abs_int(raw) as nat, p),
            None => natural_text(abs_int(raw) as nat),
        }
    }
}

/// The plain text of a value: every place it carries, trailing zeros
/// stripped, a sign only when negative.
pub open spec fn plain_text(raw: int) -> Seq<u8> {
    render_spec(raw, None, false)
}

// ---------------------------------------------------------------------------
// Writing digits
// ---------------------------------------------------------------------------

/// Append the digits of `value`.
fn push_digits(out: &mut Vec<u8>, value: u128)
    ensures
        final(out)@ == old(out)@ + digits_spec(value as nat),
    decreases value,
{
    if value >= 10 {
        push_digits(out, value / 10);
    }
    out.push(48 + (value % 10) as u8);
    proof {
        if value < 10 {
            assert(old(out)@ + digits_spec(value as nat) == old(out)@.push(digit_char(value as int)));
        } else {
            assert(old(out)@ + digits_spec(value as nat) == (old(out)@ + digits_spec((value / 10) as nat)).push(
                digit_char((value % 10) as int),
            ));
        }
    }
}

/// Append the last `width` digits of `value`, zero padded.
fn push_fixed_digits(out: &mut Vec<u8>, value: u128, width: usize)
    ensures
        final(out)@ == old(out)@ + fixed_digits(value as nat, width as nat),
    decreases width,
{
    if width == 0 {
        proof {
            assert(old(out)@ + fixed_digits(value as nat, 0) == old(out)@);
        }
        return;
    }
    push_fixed_digits(out, value / 10, width - 1);
    out.push(48 + (value % 10) as u8);
    proof {
        assert(old(out)@ + fixed_digits(value as nat, width as nat) == (old(out)@ + fixed_digits(
            (value / 10) as nat,
            (width - 1) as nat,
        )).push(digit_char((value % 10) as int)));
    }
}

/// A fraction with one trailing zero more is the same digits and a `0`.
proof fn lemma_fixed_digits_times_ten(v: nat, width: nat)
    ensures
        fixed_digits(v * 10, width + 1) == fixed_digits(v, width).push(48u8),
{
    assert((v * 10) / 10 == v) by (nonlinear_arith);
    assert((v * 10) % 10 == 0) by (nonlinear_arith);
}

/// The last of the fixed digits is the value's last digit.
proof fn lemma_fixed_digits_last(v: nat, width: nat)
    requires
        width >= 1,
    ensures
        fixed_digits(v, width).len() == width,
        fixed_digits(v, width).last() == digit_char((v % 10) as int),
{
    lemma_fixed_digits_len(v, width);
}

proof fn lemma_fixed_digits_len(v: nat, width: nat)
    ensures
        fixed_digits(v, width).len() == width,
    decreases width,
{
    if width > 0 {
        lemma_fixed_digits_len(v / 10, (width - 1) as nat);
    }
}

// every place the value carries, trailing zeros stripped
fn render_natural(out: &mut Vec<u8>, magnitude: u128)
    ensures
        final(out)@ == old(out)@ + natural_text(magnitude as nat),
{
    push_digits(out, magnitude / ONE_U);
    let mut fraction = magnitude % ONE_U;
    if fraction == 0 {
        return;
    }
    // strip the trailing zeros of the eighteen places
    let mut length: usize = 18;
    let ghost full = fraction;
    proof {
        lemma_mod_pos_bound(magnitude as int, one_raw());
        crate::num::lemma_pow10_values();
    }
    while fraction % 10 == 0
        invariant
            fraction != 0,
            1 <= length <= 18,
            fraction < pow10(length as nat),
            strip_zeros(fixed_digits(full as nat, 18)) == strip_zeros(fixed_digits(fraction as nat, length as nat)),
        decreases length,
    {
        proof {
            lemma_fundamental_div_mod(fraction as int, 10);
            let v = (fraction / 10) as nat;
            assert(fraction == v * 10);
            lemma_fixed_digits_times_ten(v, (length - 1) as nat);
            assert(fixed_digits(fraction as nat, length as nat).drop_last() == fixed_digits(v, (length - 1) as nat));
            if length == 1 {
                crate::num::lemma_pow10_values();
            }
            assert(pow10(length as nat) == 10 * pow10((length - 1) as nat));
        }
        fraction = fraction / 10;
        length = length - 1;
    }
    proof {
        lemma_fixed_digits_last(fraction as nat, length as nat);
        assert(strip_zeros(fixed_digits(fraction as nat, length as nat)) == fixed_digits(fraction as nat, length as nat));
    }
    out.push(46);
    push_fixed_digits(out, fraction, length);
}

/// Adding half the factor and dividing rounds half up on a magnitude, for a
/// factor of one or an even one.
proof fn lemma_round_by_half(m: int, f: int)
    requires
        m >= 0,
        f >= 1,
        f == 1 || f % 2 == 0,
    ensures
        (m + f / 2) / f == round_half_up(m, f),
{
    lemma_fundamental_div_mod(m, f);
    lemma_mod_pos_bound(m, f);
    let q = m / f;
    let r = m % f;
    if f == 1 {
        lemma_fundamental_div_mod_converse(m + f / 2, f, q, 0);
    } else {
        lemma_fundamental_div_mod(f, 2);
        if 2 * r >= f {
            assert(m + f / 2 == (q + 1) * f + (r - f / 2)) by (nonlinear_arith)
                requires
                    m == f * q + r,
                    f == 2 * (f / 2),
            ;
            lemma_fundamental_div_mod_converse(m + f / 2, f, q + 1, r - f / 2);
        } else {
            assert(m + f / 2 == q * f + (r + f / 2)) by (nonlinear_arith)
                requires
                    m == f * q + r,
            ;
            lemma_fundamental_div_mod_converse(m + f / 2, f, q, r + f / 2);
        }
    }
}

// exactly `places` decimal places, halves away from zero. The rounding
// happens on the magnitude, so a carry past the finite range renders as the
// number it rounded to
fn render_fixed(out: &mut Vec<u8>, magnitude: u128, places: usize)
    requires
        places <= 18,
        magnitude <= 170_141_183_460_469_231_731_687_303_715_884_105_728,
    ensures
        final(out)@ == old(out)@ + fixed_text(magnitude as nat, places as nat),
{
    let factor = pow10_u128((18 - places) as u32);
    let unit = pow10_u128(places as u32);
    proof {
        crate::num::lemma_pow10_positive((18 - places) as nat);
        crate::num::lemma_pow10_positive(places as nat);
        lemma_pow10_monotone((18 - places) as nat, 18);
        crate::num::lemma_pow10_values();
        if places < 18 {
            lemma_pow10_even_format((18 - places) as nat);
        }
        lemma_round_by_half(magnitude as int, factor as int);
    }
    let scaled = (magnitude + factor / 2) / factor;
    push_digits(out, scaled / unit);
    if places == 0 {
        return;
    }
    out.push(46);
    push_fixed_digits(out, scaled % unit, places);
}

proof fn lemma_pow10_even_format(e: nat)
    requires
        e >= 1,
    ensures
        pow10(e) % 2 == 0,
{
    assert(pow10(e) == 10 * pow10((e - 1) as nat));
    lemma_fundamental_div_mod_converse(pow10(e) as int, 2, 5 * pow10((e - 1) as nat) as int, 0);
}

/// The text of a raw: [`render_spec`].
/// The longest rendering of a value at its own precision: a sign, 39
/// digits and the point.
pub const BUFFER_LEN: usize = 41;

fn render(raw: i128, places: Option<usize>, plus: bool) -> (out: Vec<u8>)
    requires
        places matches Some(p) ==> p <= 18,
    ensures
        out@ == render_spec(
            raw as int,
            match places {
                Some(p) => Some(p as nat),
                None => None::<nat>,
            },
            plus,
        ),
{
    let mut out: Vec<u8> = Vec::with_capacity(BUFFER_LEN);
    if raw == NAN_RAW {
        out.push(78);
        out.push(97);
        out.push(78);
        proof {
            assert(out@ == seq![78u8, 97u8, 78u8]);
        }
        return out;
    }
    if raw < 0 {
        out.push(45);
    } else if plus {
        out.push(43);
    }
    proof {
        assert(out@ == sign_text(raw as int, plus));
    }
    let magnitude = unsigned_abs(raw);
    match places {
        Some(places) => render_fixed(&mut out, magnitude, places),
        None => render_natural(&mut out, magnitude),
    }
    out
}

// ---------------------------------------------------------------------------
// Format options and padding
// ---------------------------------------------------------------------------

/// Where a rendering sits inside a width wider than itself.
#[derive(Clone, Copy, Debug, PartialEq, Eq, Structural)]
pub enum Alignment {
    Left,
    Center,
    Right,
}

/// How a value is to be written: the precision, width, fill, alignment and
/// flags of a format string.
#[derive(Clone, Copy, Debug, PartialEq, Eq)]
pub struct FormatOptions {
    /// Exactly this many decimal places, rounded half away from zero and
    /// padded with zeros past [`Dec::SCALE`]; every place the value carries
    /// when absent.
    pub precision: Option<usize>,
    /// The least number of characters to write.
    pub width: Option<usize>,
    /// What pads the rendering out to the width.
    pub fill: char,
    /// Where the rendering sits; a number right aligns when absent.
    pub align: Option<Alignment>,
    /// Whether a non-negative value is written with a `+`.
    pub sign_plus: bool,
    /// Whether the width is made up with zeros after the sign.
    pub sign_aware_zero_pad: bool,
}

impl FormatOptions {
    /// The plain form: no precision, no width, a space fill, no flags.
    pub fn new() -> (o: FormatOptions)
        ensures
            o.precision is None,
            o.width is None,
            o.fill == ' ',
            o.align is None,
            !o.sign_plus,
            !o.sign_aware_zero_pad,
    {
        FormatOptions {
            precision: None,
            width: None,
            fill: ' ',
            align: None,
            sign_plus: false,
            sign_aware_zero_pad: false,
        }
    }
}

/// ASCII bytes as characters.
pub open spec fn ascii_chars(s: Seq<u8>) -> Seq<char> {
    s.map_values(|b: u8| b as char)
}

/// `count` copies of `c`.
pub open spec fn repeat_char(c: char, count: nat) -> Seq<char> {
    Seq::new(count, |i: int| c)
}

/// The text made up to the width: `zeros` trailing zeros after it, then the
/// fill or, under sign-aware zero padding, zeros after the sign.
pub open spec fn pad_spec(text: Seq<char>, zeros: nat, options: FormatOptions) -> Seq<char> {
    let body = text + repeat_char('0', zeros);
    match options.width {
        None => body,
        Some(width) => if body.len() >= width {
            body
        } else {
            let padding = (width - body.len()) as nat;
            if options.sign_aware_zero_pad {
                if text.len() > 0 && (text[0] == '-' || text[0] == '+') {
                    seq![text[0]] + repeat_char('0', padding) + text.drop_first() + repeat_char(
                        '0',
                        zeros,
                    )
                } else {
                    repeat_char('0', padding) + body
                }
            } else {
                match options.align {
                    Some(Alignment::Left) => body + repeat_char(options.fill, padding),
                    Some(Alignment::Center) => repeat_char(options.fill, padding / 2) + body
                        + repeat_char(options.fill, (padding - padding / 2) as nat),
                    _ => repeat_char(options.fill, padding) + body,
                }
            }
        },
    }
}

/// The places a precision asks for, up to the native scale.
pub open spec fn places_of(options: FormatOptions) -> Option<nat> {
    match options.precision {
        Some(p) => Some(if p > 18 {
            18nat
        } else {
            p as nat
        }),
        None => None,
    }
}

/// The zeros a precision past the native scale adds.
pub open spec fn zeros_of(raw: int, options: FormatOptions) -> nat {
    match options.precision {
        Some(p) => if raw != nan_raw() && p > 18 {
            (p - 18) as nat
        } else {
            0
        },
        None => 0,
    }
}

/// What a value formatted under `options` reads.
pub open spec fn formatted(raw: int, options: FormatOptions) -> Seq<char> {
    pad_spec(
        ascii_chars(render_spec(raw, places_of(options), options.sign_plus)),
        zeros_of(raw, options),
        options,
    )
}

fn push_repeat(out: &mut Vec<char>, c: char, count: usize)
    ensures
        final(out)@ == old(out)@ + repeat_char(c, count as nat),
{
    let mut index: usize = 0;
    while index < count
        invariant
            index <= count,
            out@ == old(out)@ + repeat_char(c, index as nat),
        decreases count - index,
    {
        out.push(c);
        index = index + 1;
        proof {
            assert(out@ == old(out)@ + repeat_char(c, index as nat));
        }
    }
}

fn push_ascii(out: &mut Vec<char>, text: &Vec<u8>, from: usize)
    requires
        from <= text@.len(),
    ensures
        final(out)@ == old(out)@ + ascii_chars(text@).subrange(from as int, text@.len() as int),
{
    let mut index = from;
    while index < text.len()
        invariant
            from <= index <= text@.len(),
            out@ == old(out)@ + ascii_chars(text@).subrange(from as int, index as int),
        decreases text@.len() - index,
    {
        out.push(text[index] as char);
        index = index + 1;
        proof {
            assert(ascii_chars(text@).subrange(from as int, index as int) == ascii_chars(text@).subrange(
                from as int,
                index - 1,
            ).push(text@[index - 1] as char));
        }
    }
}

// the width is applied here rather than left to truncating logic, so a
// precision is never cut back
fn pad(text: &Vec<u8>, zeros: usize, options: &FormatOptions) -> (out: Vec<char>)
    ensures
        out@ == pad_spec(ascii_chars(text@), zeros as nat, *options),
{
    let mut out: Vec<char> = Vec::new();
    let length = text.len() as u128 + zeros as u128;
    let ghost chars = ascii_chars(text@);
    proof {
        assert(ascii_chars(text@).subrange(0, text@.len() as int) == chars);
        assert(chars.len() == text@.len());
    }
    let width = match options.width {
        None => {
            push_ascii(&mut out, text, 0);
            push_repeat(&mut out, '0', zeros);
            return out;
        },
        Some(width) => width,
    };
    if length >= width as u128 {
        push_ascii(&mut out, text, 0);
        push_repeat(&mut out, '0', zeros);
        return out;
    }
    let padding = (width as u128 - length) as usize;
    if options.sign_aware_zero_pad {
        if text.len() > 0 && (text[0] == 45 || text[0] == 43) {
            out.push(text[0] as char);
            push_repeat(&mut out, '0', padding);
            push_ascii(&mut out, text, 1);
            push_repeat(&mut out, '0', zeros);
            proof {
                assert(chars.drop_first() == ascii_chars(text@).subrange(1, text@.len() as int));
            }
        } else {
            push_repeat(&mut out, '0', padding);
            push_ascii(&mut out, text, 0);
            push_repeat(&mut out, '0', zeros);
        }
        return out;
    }
    match options.align {
        Some(Alignment::Left) => {
            push_ascii(&mut out, text, 0);
            push_repeat(&mut out, '0', zeros);
            push_repeat(&mut out, options.fill, padding);
        },
        Some(Alignment::Center) => {
            push_repeat(&mut out, options.fill, padding / 2);
            push_ascii(&mut out, text, 0);
            push_repeat(&mut out, '0', zeros);
            push_repeat(&mut out, options.fill, padding - padding / 2);
        },
        _ => {
            push_repeat(&mut out, options.fill, padding);
            push_ascii(&mut out, text, 0);
            push_repeat(&mut out, '0', zeros);
        },
    }
    out
}

/// `String::from_iter` over a vector of characters, which pushes each in
/// order: the string holds exactly the vector's characters.
#[verifier::external_body]
fn string_from_chars(chars: Vec<char>) -> (s: String)
    ensures
        s@ == chars@,
{
    String::from_iter(chars)
}

impl Dec {
    /// The plain text of the value: every place it carries with trailing
    /// zeros stripped, a `-` only when negative, and `NaN` for NaN.
    pub fn to_string(&self) -> (s: String)
        ensures
            s@ == ascii_chars(plain_text(self.raw())),
    {
        let text = render(self.0, None, false);
        let mut out: Vec<char> = Vec::new();
        push_ascii(&mut out, &text, 0);
        proof {
            assert(ascii_chars(text@).subrange(0, text@.len() as int) == ascii_chars(text@));
        }
        string_from_chars(out)
    }

    /// The value written under `options`, as a format string with those
    /// options writes it: rounded to the precision half away from zero and
    /// padded with zeros past [`Dec::SCALE`], then made up to the width. A
    /// NaN takes the width but not the precision.
    pub fn to_string_with(&self, options: &FormatOptions) -> (s: String)
        ensures
            s@ == formatted(self.raw(), *options),
    {
        let places = match options.precision {
            Some(p) => Some(if p > 18 {
                18
            } else {
                p
            }),
            None => None,
        };
        let zeros = match options.precision {
            Some(p) => if self.0 != NAN_RAW && p > 18 {
                p - 18
            } else {
                0
            },
            None => 0,
        };
        let text = render(self.0, places, options.sign_plus);
        string_from_chars(pad(&text, zeros, options))
    }
}

} // verus!
