//! Division: `a * 10^18 / b` on raws. The product needs 187 bits, which no
//! `u128` holds, so every path divides first and scales the remainder after.
use vstd::prelude::*;
use vstd::arithmetic::div_mod::{
    lemma_fundamental_div_mod, lemma_fundamental_div_mod_converse, lemma_mod_pos_bound,
};
use crate::num::{
    abs_int, raw_quotient, max_raw, one_raw, round_half_up, signed_or_none, unsigned_abs, MAX_RAW,
    ONE_U,
};

verus! {

/// One step of the decimal scaling, `10^9`.
pub const CHUNK: u128 = 1_000_000_000;

/// `r * CHUNK` stays inside a `u128` only while `r` is at or below this.
pub const CHUNK_LIMIT: u128 = 340_282_366_920_938_463_463_374_607_431;

/// The number of bits of `10^18`.
const ONE_BITS: u32 = 60;

pub open spec fn u128_limit() -> int {
    340_282_366_920_938_463_463_374_607_431_768_211_455
}

/// A rounded magnitude that must fit a `u128`.
pub open spec fn fits_u128(x: int) -> Option<u128> {
    if x <= u128_limit() {
        Some(x as u128)
    } else {
        None
    }
}

/// `a / b` at scale `10^18`. `None` on division by zero, on a NaN operand,
/// and when the quotient leaves the finite range.
pub(crate) fn div_raw(a: i128, b: i128) -> (r: Option<i128>)
    ensures
        r == match raw_quotient(a as int, b as int) {
            Some(x) => Some(x as i128),
            None => None::<i128>,
        },
{
    if b == 0 {
        return None;
    }
    let negative = (a < 0) != (b < 0);
    let (ua, ub) = (unsigned_abs(a), unsigned_abs(b));
    proof {
        assert((ua | ub) > 170_141_183_460_469_231_731_687_303_715_884_105_727u128 <==> (ua
            > 170_141_183_460_469_231_731_687_303_715_884_105_727u128 || ub
            > 170_141_183_460_469_231_731_687_303_715_884_105_727u128)) by (bit_vector);
    }
    // a NaN operand has magnitude 2^127, one past the finite range, and
    // nothing finite reaches it, so one bound recognises either side
    if (ua | ub) > MAX_RAW as u128 {
        return None;
    }
    // a divisor of at most 9 decimal places divides by 10^9 exactly, which
    // cancels half the scaling before it is ever applied
    let quotient = if ub % CHUNK == 0 {
        let divisor = ub / CHUNK;
        proof {
            lemma_fundamental_div_mod(ub as int, 1_000_000_000);
            assert(divisor * CHUNK <= u128_limit());
            lemma_round_cancels(ua as int * 1_000_000_000, divisor as int, 1_000_000_000);
            assert(ua as int * 1_000_000_000 * 1_000_000_000 == ua as int * one_raw())
                by (nonlinear_arith);
            assert(divisor * 1_000_000_000 == ub);
        }
        scale_by(ua, divisor, CHUNK)
    } else {
        wide(ua, ub)
    };
    match quotient {
        Some(magnitude) => signed(negative, magnitude),
        None => {
            proof {
                assert(round_half_up(ua * one_raw(), ub as int) > max_raw());
            }
            None
        },
    }
}

/// Scaling numerator and denominator by the same factor leaves the rounded
/// quotient where it was.
proof fn lemma_round_cancels(n: int, d: int, c: int)
    requires
        n >= 0,
        d > 0,
        c > 0,
    ensures
        round_half_up(n * c, d * c) == round_half_up(n, d),
{
    lemma_fundamental_div_mod(n, d);
    lemma_mod_pos_bound(n, d);
    assert(n * c == (n / d) * (d * c) + (n % d) * c) by (nonlinear_arith)
        requires
            n == d * (n / d) + n % d,
    ;
    assert((n % d) * c < d * c) by (nonlinear_arith)
        requires
            n % d < d,
            c > 0,
    ;
    assert((n % d) * c >= 0) by (nonlinear_arith)
        requires
            n % d >= 0,
            c > 0,
    ;
    lemma_fundamental_div_mod_converse(n * c, d * c, n / d, (n % d) * c);
    assert((2 * ((n % d) * c) >= d * c) == (2 * (n % d) >= d)) by (nonlinear_arith)
        requires
            c > 0,
    ;
}

/// `round(x * factor / divisor)`, where `divisor * factor` fits a `u128`.
/// Splitting `x` into quotient and remainder first keeps the scaling on the
/// remainder, which is below the divisor and so has room for the factor.
pub fn scale_by(x: u128, divisor: u128, factor: u128) -> (r: Option<u128>)
    requires
        divisor > 0,
        factor > 0,
        divisor * factor <= u128_limit(),
    ensures
        r == fits_u128(round_half_up(x * factor, divisor as int)),
{
    let (quotient, remainder) = (x / divisor, x % divisor);
    proof {
        assert(remainder * factor < divisor * factor) by (nonlinear_arith)
            requires
                remainder < divisor,
                factor > 0,
        ;
    }
    let scaled = remainder * factor;
    proof {
        lemma_fundamental_div_mod(x as int, divisor as int);
        lemma_fundamental_div_mod(scaled as int, divisor as int);
        lemma_mod_pos_bound(scaled as int, divisor as int);
        assert(x * factor == (quotient * factor + scaled / divisor) * divisor + scaled % divisor)
            by (nonlinear_arith)
            requires
                x == divisor * quotient + remainder,
                scaled == remainder * factor,
                scaled == divisor * (scaled / divisor) + scaled % divisor,
        ;
        lemma_fundamental_div_mod_converse(
            x * factor,
            divisor as int,
            quotient * factor + scaled / divisor,
            (scaled % divisor) as int,
        );
    }
    let whole = match quotient.checked_mul(factor) {
        Some(v) => v,
        None => return None,
    };
    let total = match whole.checked_add(scaled / divisor) {
        Some(v) => v,
        None => return None,
    };
    round_half_away(total, scaled % divisor, divisor)
}

// the general shape: reduce a below b, then walk the remaining 10^18 up in two
// 10^9 steps, each of which fits because the remainder it scales is below b
pub fn wide(a: u128, b: u128) -> (r: Option<u128>)
    requires
        b > 0,
        a <= max_raw(),
        b <= max_raw(),
    ensures
        r == fits_u128(round_half_up(a * one_raw(), b as int)),
{
    let (quotient, remainder) = (a / b, a % b);
    proof {
        lemma_split_scaled(a as int, b as int, quotient as int, remainder as int);
    }
    let whole = match quotient.checked_mul(ONE_U) {
        Some(v) => v,
        None => return None,
    };
    // b past this and even one 10^9 step overflows; rare enough to be worth a
    // slow exact path rather than a wider fast one
    if b > CHUNK_LIMIT {
        return long_division(whole, remainder, b);
    }
    proof {
        assert(remainder * CHUNK <= u128_limit()) by (nonlinear_arith)
            requires
                remainder < b,
                b <= 340_282_366_920_938_463_463_374_607_431,
        ;
    }
    let first = remainder * CHUNK;
    proof {
        lemma_mod_pos_bound(first as int, b as int);
        assert((first % b) * CHUNK <= u128_limit()) by (nonlinear_arith)
            requires
                first % b < b,
                b <= 340_282_366_920_938_463_463_374_607_431,
        ;
    }
    let second = (first % b) * CHUNK;
    proof {
        lemma_fundamental_div_mod(first as int, b as int);
        lemma_fundamental_div_mod(second as int, b as int);
        lemma_mod_pos_bound(second as int, b as int);
        assert(first / b < 1_000_000_000) by (nonlinear_arith)
            requires
                first == remainder * 1_000_000_000,
                remainder < b,
                first == b * (first / b) + first % b,
                first % b >= 0,
        ;
        assert(second / b < 1_000_000_000) by (nonlinear_arith)
            requires
                second == (first % b) * 1_000_000_000,
                first % b < b,
                second == b * (second / b) + second % b,
                second % b >= 0,
        ;
        assert(remainder * one_raw() == ((first / b) * 1_000_000_000 + second / b) * b + second % b)
            by (nonlinear_arith)
            requires
                first == remainder * 1_000_000_000,
                first == b * (first / b) + first % b,
                second == (first % b) * 1_000_000_000,
                second == b * (second / b) + second % b,
        ;
        lemma_fundamental_div_mod_converse(
            remainder * one_raw(),
            b as int,
            (first / b) * 1_000_000_000 + second / b,
            (second % b) as int,
        );
    }
    let fraction = (first / b) * CHUNK + second / b;
    let total = match whole.checked_add(fraction) {
        Some(v) => v,
        None => return None,
    };
    round_half_away(total, second % b, b)
}

/// `a * 10^18 = (a / b) * 10^18 * b + (a % b) * 10^18`, so the floor and the
/// remainder of the whole quotient come from those of the remainder's.
proof fn lemma_split_scaled(a: int, b: int, q: int, r: int)
    requires
        a >= 0,
        b > 0,
        q == a / b,
        r == a % b,
    ensures
        (a * one_raw()) / b == q * one_raw() + (r * one_raw()) / b,
        (a * one_raw()) % b == (r * one_raw()) % b,
        0 <= r < b,
        q >= 0,
{
    lemma_fundamental_div_mod(a, b);
    lemma_mod_pos_bound(a, b);
    lemma_fundamental_div_mod(r * one_raw(), b);
    lemma_mod_pos_bound(r * one_raw(), b);
    assert(q >= 0) by (nonlinear_arith)
        requires
            a >= 0,
            b > 0,
            q == a / b,
    ;
    assert(a * one_raw() == (q * one_raw() + (r * one_raw()) / b) * b + (r * one_raw()) % b)
        by (nonlinear_arith)
        requires
            a == b * q + r,
            r * one_raw() == b * ((r * one_raw()) / b) + (r * one_raw()) % b,
    ;
    lemma_fundamental_div_mod_converse(
        a * one_raw(),
        b,
        q * one_raw() + (r * one_raw()) / b,
        (r * one_raw()) % b,
    );
}

/// The bits of `10^18` from the top down to `bit`, as a number.
spec fn one_prefix(bit: u32) -> int {
    (ONE_U >> bit) as int
}

proof fn lemma_one_prefix_step(bit: u32)
    requires
        1 <= bit <= 60,
    ensures
        one_prefix((bit - 1) as u32) == 2 * one_prefix(bit) + if (ONE_U >> ((bit - 1) as u32)) & 1
            == 1 {
            1int
        } else {
            0int
        },
        (ONE_U >> ((bit - 1) as u32)) & 1 == 1 || (ONE_U >> ((bit - 1) as u32)) & 1 == 0,
{
    let x = ONE_U;
    let k = bit;
    assert(x >> ((k - 1) as u32) == 2 * (x >> k) + ((x >> ((k - 1) as u32)) & 1)) by (bit_vector)
        requires
            1 <= k <= 60,
            x == 1_000_000_000_000_000_000u128,
    ;
    assert((x >> ((k - 1) as u32)) & 1 == 1 || (x >> ((k - 1) as u32)) & 1 == 0) by (bit_vector);
}

// A divisor above 3.4e11 carrying more than 9 decimal places reaches here: no
// step of 10^9 fits any more, so the scaling walks the 60 bits of 10^18 one at
// a time. The window stays below the divisor, so doubling it or adding the
// remainder to it stays below twice the divisor, and so inside a u128.
pub fn long_division(whole: u128, remainder: u128, b: u128) -> (r: Option<u128>)
    requires
        remainder < b,
        b <= max_raw(),
    ensures
        r == fits_u128(
            whole + (remainder * one_raw()) / (b as int) + if 2 * ((remainder * one_raw()) % (
            b as int)) >= b {
                1int
            } else {
                0int
            },
        ),
{
    let mut fraction: u128 = 0;
    let mut window: u128 = 0;
    let mut bit: u32 = ONE_BITS;
    proof {
        assert(ONE_U >> 60u32 == 0) by (bit_vector);
        assert(one_prefix(60) == 0);
    }
    while bit > 0
        invariant
            0 <= bit <= 60,
            remainder < b,
            b <= max_raw(),
            window < b,
            fraction * b + window == remainder * one_prefix(bit),
            fraction <= one_prefix(bit),
        decreases bit,
    {
        proof {
            lemma_one_prefix_step(bit);
        }
        let ghost old_prefix = one_prefix(bit);
        bit = bit - 1;
        proof {
            assert(one_prefix(bit) <= 1_000_000_000_000_000_000) by {
                let b2 = bit;
                assert(ONE_U >> b2 <= ONE_U) by (bit_vector);
            }
        }
        let ghost f0 = fraction;
        let ghost w0 = window;
        fraction = fraction * 2;
        window = window * 2;
        if window >= b {
            window = window - b;
            fraction = fraction + 1;
        }
        let ghost w1 = window;
        let ghost f1 = fraction;
        proof {
            assert(f1 * b + w1 == remainder * (2 * old_prefix)) by (nonlinear_arith)
                requires
                    f0 * b + w0 == remainder * old_prefix,
                    (f1 == 2 * f0 && w1 == 2 * w0) || (f1 == 2 * f0 + 1 && w1 == 2 * w0 - b),
            ;
        }
        if (ONE_U >> bit) & 1 == 1 {
            window = window + remainder;
            if window >= b {
                window = window - b;
                fraction = fraction + 1;
            }
        }
        proof {
            let bitv: int = if (ONE_U >> bit) & 1 == 1 { 1 } else { 0 };
            assert(one_prefix(bit) == 2 * old_prefix + bitv);
            assert(fraction * b + window == remainder * one_prefix(bit)) by (nonlinear_arith)
                requires
                    f1 * b + w1 == remainder * (2 * old_prefix),
                    one_prefix(bit) == 2 * old_prefix + bitv,
                    (fraction == f1 && window == w1 + remainder * bitv)
                        || (fraction == f1 + 1 && window == w1 + remainder * bitv - b),
            ;
            assert(fraction <= one_prefix(bit)) by (nonlinear_arith)
                requires
                    fraction * b + window == remainder * one_prefix(bit),
                    window >= 0,
                    remainder < b,
                    one_prefix(bit) >= 0,
                    fraction >= 0,
            ;
        }
    }
    proof {
        assert(ONE_U >> 0u32 == ONE_U) by (bit_vector);
        lemma_fundamental_div_mod_converse(remainder * one_raw(), b as int, fraction as int, window as int);
    }
    let total = match whole.checked_add(fraction) {
        Some(v) => v,
        None => return None,
    };
    round_half_away(total, window, b)
}

// the crate rounds half away from zero everywhere: parse, round_dp and mul all
// do, so a quotient that lands exactly between two raws goes the same way
fn round_half_away(total: u128, remainder: u128, divisor: u128) -> (r: Option<u128>)
    requires
        divisor > 0,
    ensures
        r == fits_u128(
            total + if 2 * remainder >= divisor {
                1int
            } else {
                0int
            },
        ),
{
    // remainder * 2 could overflow, so the comparison moves the halving onto
    // the divisor and handles its odd case separately
    let half = divisor / 2;
    if remainder > half || (remainder == half && divisor % 2 == 0) {
        total.checked_add(1)
    } else {
        Some(total)
    }
}

fn signed(negative: bool, magnitude: u128) -> (r: Option<i128>)
    ensures
        r == match signed_or_none(negative, magnitude as int) {
            Some(x) => Some(x as i128),
            None => None::<i128>,
        },
{
    // the range is symmetric, so one limit serves both signs
    if magnitude > MAX_RAW as u128 {
        return None;
    }
    Some(
        if negative {
            -(magnitude as i128)
        } else {
            magnitude as i128
        },
    )
}

} // verus!
