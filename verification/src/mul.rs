//! Multiplication: `a * b / 10^18` on raws, reached in steps that each fit a
//! `u128`.
use vstd::prelude::*;
use vstd::arithmetic::div_mod::{
    lemma_fundamental_div_mod, lemma_fundamental_div_mod_converse, lemma_mod_multiples_vanish,
    lemma_small_mod, lemma_mod_pos_bound,
};
use crate::num::{
    abs_int, max_raw, raw_product, one_raw, round_half_up, signed_or_none, unsigned_abs, MAX_RAW,
    NAN_RAW, ONE_U,
};

verus! {

const ONE_64: u64 = 1_000_000_000_000_000_000;

const CHUNK: u64 = 1_000_000_000;

// 10^9 factors as 2^9 * 5^9. Multiplying by the inverse of the odd part mod
// 2^128 and rotating out the 2^9 divides exactly by 10^9 without a division
// instruction, and the same rotated value is the divisibility test.
pub const INV_5_9: u128 = 200_825_005_271_070_938_688_767_579_709_359_692_909;

/// The largest `u128` whose product with `10^9` still fits.
pub const LIMIT_1E9: u128 = 340_282_366_920_938_463_463_374_607_431;

spec fn modulus() -> int {
    340_282_366_920_938_463_463_374_607_431_768_211_456int
}

/// `INV_5_9` is the inverse of `5^9` modulo `2^128`, and `LIMIT_1E9` is
/// `u128::MAX / 10^9`.
proof fn lemma_magic_constants()
    ensures
        (1_953_125 * INV_5_9) % modulus() == 1,
        LIMIT_1E9 == (modulus() - 1) / 1_000_000_000,
        LIMIT_1E9 * 1_000_000_000 < modulus(),
{
    let p = 1_953_125 * 200_825_005_271_070_938_688_767_579_709_359_692_909int;
    assert(p == 1 + 1_152_679 * modulus());
    lemma_fundamental_div_mod_converse(p, modulus(), 1_152_679, 1);
    lemma_fundamental_div_mod_converse(modulus() - 1, 1_000_000_000, LIMIT_1E9 as int, 768_211_455);
}

/// Rotating right by nine places is a division by `2^9` with the low bits
/// moved to the top.
proof fn lemma_rotate(y: u128)
    ensures
        ((y >> 9u128) | (y << 119u128)) as int == (y as int) / 512 + ((y as int) % 512)
            * 664_613_997_892_457_936_451_903_530_140_172_288,
{
    assert(((y >> 9u128) | (y << 119u128)) == (y >> 9u128) + ((y & 511u128) << 119u128))
        by (bit_vector);
    assert(y >> 9u128 == y / 512u128) by (bit_vector);
    assert(y & 511u128 == y % 512u128) by (bit_vector);
    assert((y & 511u128) << 119u128 == (y & 511u128) * 664_613_997_892_457_936_451_903_530_140_172_288u128)
        by (bit_vector)
        requires
            y & 511u128 < 512u128,
    ;
}

/// Multiplying a multiple of `10^9` by the inverse leaves `2^9` times the
/// quotient; and whatever the product leaves that has the shape `2^9 * t`
/// with `t` in range came from `10^9 * t`.
proof fn lemma_inverse_divides(n: int, y: int)
    requires
        0 <= n < modulus(),
        y == (n * INV_5_9) % modulus(),
    ensures
        n % 1_000_000_000 == 0 ==> y == 512 * (n / 1_000_000_000),
        (y % 512 == 0 && y / 512 <= LIMIT_1E9) ==> n == 1_000_000_000 * (y / 512),
{
    lemma_magic_constants();
    let m = modulus();
    let inv = INV_5_9 as int;
    let p = 1_953_125 * inv;
    assert(p == 1 + 1_152_679 * m);
    let k = 1_152_679int;
    if n % 1_000_000_000 == 0 {
        let q = n / 1_000_000_000;
        lemma_fundamental_div_mod(n, 1_000_000_000);
        assert(n == 1_000_000_000 * q);
        assert(n * inv == 512 * q + m * (512 * q * k)) by (nonlinear_arith)
            requires
                n == 1_000_000_000 * q,
                p == 1_953_125 * inv,
                p == 1 + k * m,
        ;
        lemma_mod_multiples_vanish(512 * q * k, 512 * q, m);
        assert(512 * q < m) by (nonlinear_arith)
            requires
                n == 1_000_000_000 * q,
                n < m,
                q >= 0,
        ;
        assert(q >= 0) by (nonlinear_arith)
            requires
                n == 1_000_000_000 * q,
                n >= 0,
        ;
        lemma_small_mod((512 * q) as nat, m as nat);
    }
    if y % 512 == 0 && y / 512 <= LIMIT_1E9 {
        let t = y / 512;
        lemma_fundamental_div_mod(y, 512);
        assert(y == 512 * t);
        let j = (n * inv) / m;
        lemma_fundamental_div_mod(n * inv, m);
        assert(n * inv == m * j + y);
        assert(y * 1_953_125 == n + m * (n * k - 1_953_125 * j)) by (nonlinear_arith)
            requires
                n * inv == m * j + y,
                p == 1_953_125 * inv,
                p == 1 + k * m,
        ;
        lemma_mod_multiples_vanish(n * k - 1_953_125 * j, n, m);
        lemma_small_mod(n as nat, m as nat);
        assert(y * 1_953_125 == 1_000_000_000 * t);
        assert(t >= 0) by {
            lemma_mod_pos_bound(n * inv, m);
        }
        assert(1_000_000_000 * t < m) by (nonlinear_arith)
            requires
                t <= LIMIT_1E9,
                LIMIT_1E9 * 1_000_000_000 < m,
                t >= 0,
        ;
        lemma_small_mod((1_000_000_000 * t) as nat, m as nat);
    }
}

/// `n / 10^9` when `10^9` divides `n`, `None` when it does not.
pub fn div_exact_1e9(n: u128) -> (r: Option<u128>)
    ensures
        r == if n % 1_000_000_000 == 0 {
            Some((n / 1_000_000_000) as u128)
        } else {
            None::<u128>
        },
{
    let product = n.wrapping_mul(INV_5_9);
    let rotated = (product >> 9u128) | (product << 119u128);
    proof {
        lemma_rotate(product);
        lemma_inverse_divides(n as int, product as int);
        lemma_magic_constants();
        lemma_fundamental_div_mod(n as int, 1_000_000_000);
        lemma_mod_pos_bound(product as int, 512);
        if n % 1_000_000_000 == 0 {
            let q = n / 1_000_000_000;
            assert(q <= LIMIT_1E9);
            lemma_fundamental_div_mod_converse(product as int, 512, q as int, 0);
        }
        if rotated <= LIMIT_1E9 {
            assert((product as int) % 512 == 0) by (nonlinear_arith)
                requires
                    rotated as int == (product as int) / 512 + ((product as int) % 512)
                        * 664_613_997_892_457_936_451_903_530_140_172_288,
                    rotated <= LIMIT_1E9,
                    (product as int) / 512 >= 0,
                    0 <= (product as int) % 512,
            ;
            lemma_fundamental_div_mod_converse(n as int, 1_000_000_000, rotated as int, 0);
        }
    }
    if rotated <= LIMIT_1E9 {
        Some(rotated)
    } else {
        None
    }
}

/// `a * b / 10^18` on raws, half away from zero. `None` for a NaN operand or
/// a product past the finite range.
pub(crate) fn mul_raw(a: i128, b: i128) -> (r: Option<i128>)
    ensures
        r == match raw_product(a as int, b as int) {
            Some(x) => Some(x as i128),
            None => None::<i128>,
        },
{
    let negative = (a < 0) != (b < 0);
    let (ua, ub) = (unsigned_abs(a), unsigned_abs(b));
    match (div_exact_1e9(ua), div_exact_1e9(ub)) {
        (Some(left), Some(right)) => {
            proof {
                lemma_fast_product(ua as int, ub as int, left as int, right as int);
            }
            if left <= 18_446_744_073_709_551_615 && right <= 18_446_744_073_709_551_615 {
                proof {
                    assert(left * right <= 18_446_744_073_709_551_615 * 18_446_744_073_709_551_615)
                        by (nonlinear_arith)
                        requires
                            left <= 18_446_744_073_709_551_615,
                            right <= 18_446_744_073_709_551_615,
                    ;
                }
                signed(negative, left * right)
            } else {
                match left.checked_mul(right) {
                    Some(magnitude) => signed(negative, magnitude),
                    None => None,
                }
            }
        },
        _ => {
            proof {
                // 10^9 does not divide 2^127, so a NaN operand arrives here
                if a == NAN_RAW {
                    assert(ua % 1_000_000_000 != 0);
                }
                if b == NAN_RAW {
                    assert(ub % 1_000_000_000 != 0);
                }
            }
            mul_wide(ua, ub, negative)
        },
    }
}

/// Both raws carry at most nine decimals, so the product is exact.
proof fn lemma_fast_product(a: int, b: int, l: int, r: int)
    requires
        a == 1_000_000_000 * l,
        b == 1_000_000_000 * r,
        l >= 0,
        r >= 0,
    ensures
        round_half_up(a * b, one_raw()) == l * r,
{
    assert(a * b == (l * r) * 1_000_000_000_000_000_000 + 0) by (nonlinear_arith)
        requires
            a == 1_000_000_000 * l,
            b == 1_000_000_000 * r,
    ;
    lemma_fundamental_div_mod_converse(a * b, one_raw(), l * r, 0);
}

// finer than 9 decimals: split both at the decimal point, which leaves two
// fractions below 10^18 that finish in 64-bit lanes
pub fn mul_wide(a: u128, b: u128, negative: bool) -> (r: Option<i128>)
    ensures
        r == if a > max_raw() || b > max_raw() {
            None::<i128>
        } else {
            match signed_or_none(negative, round_half_up(a * b, one_raw())) {
                Some(x) => Some(x as i128),
                None => None::<i128>,
            }
        },
{
    // a NaN operand has magnitude 2^127, one past the finite range, and
    // nothing finite reaches it, so one bound recognises either side
    proof {
        assert((a | b) > 170_141_183_460_469_231_731_687_303_715_884_105_727u128 <==> (a
            > 170_141_183_460_469_231_731_687_303_715_884_105_727u128 || b
            > 170_141_183_460_469_231_731_687_303_715_884_105_727u128)) by (bit_vector);
    }
    if (a | b) > MAX_RAW as u128 {
        return None;
    }
    let (a_int, a_frac) = (a / ONE_U, (a % ONE_U) as u64);
    let (b_int, b_frac) = (b / ONE_U, (b % ONE_U) as u64);
    let (tail, remainder) = mul_frac(a_frac, b_frac);
    proof {
        lemma_wide_product(
            a as int,
            b as int,
            a_int as int,
            a_frac as int,
            b_int as int,
            b_frac as int,
            tail as int,
            remainder as int,
        );
    }
    let first = match a.checked_mul(b_int) {
        Some(v) => v,
        None => {
            proof {
                lemma_wide_overflow(a as int, b as int, a_int as int, b_frac as int, b_int as int, tail as int, a as int * b_int as int);
            }
            return None;
        },
    };
    let second = match a_int.checked_mul(b_frac as u128) {
        Some(v) => v,
        None => {
            proof {
                lemma_wide_overflow(a as int, b as int, a_int as int, b_frac as int, b_int as int, tail as int, a_int as int * b_frac as int);
            }
            return None;
        },
    };
    let partial = match first.checked_add(second) {
        Some(v) => v,
        None => {
            proof {
                lemma_wide_overflow(a as int, b as int, a_int as int, b_frac as int, b_int as int, tail as int, first + second);
            }
            return None;
        },
    };
    let magnitude = match partial.checked_add(tail as u128) {
        Some(v) => v,
        None => {
            proof {
                lemma_wide_overflow(a as int, b as int, a_int as int, b_frac as int, b_int as int, tail as int, partial + tail);
            }
            return None;
        },
    };
    if remainder * 2 >= ONE_64 {
        match magnitude.checked_add(1) {
            Some(rounded) => signed(negative, rounded),
            None => None,
        }
    } else {
        signed(negative, magnitude)
    }
}

/// The pieces `mul_wide` adds are the floor of `a * b / 10^18`, and the
/// remainder of `mul_frac` is what it leaves.
proof fn lemma_wide_product(
    a: int,
    b: int,
    ai: int,
    af: int,
    bi: int,
    bf: int,
    tail: int,
    rem: int,
)
    requires
        a >= 0,
        b >= 0,
        ai == a / one_raw(),
        af == a % one_raw(),
        bi == b / one_raw(),
        bf == b % one_raw(),
        af * bf == tail * one_raw() + rem,
        0 <= rem < one_raw(),
        tail >= 0,
    ensures
        (a * b) / one_raw() == a * bi + ai * bf + tail,
        (a * b) % one_raw() == rem,
        ai >= 0,
        bi >= 0,
        af >= 0,
        bf >= 0,
{
    lemma_fundamental_div_mod(a, one_raw());
    lemma_fundamental_div_mod(b, one_raw());
    lemma_mod_pos_bound(a, one_raw());
    lemma_mod_pos_bound(b, one_raw());
    assert(ai >= 0 && bi >= 0) by (nonlinear_arith)
        requires
            a >= 0,
            b >= 0,
            ai == a / 1_000_000_000_000_000_000,
            bi == b / 1_000_000_000_000_000_000,
    ;
    assert(a * b == (a * bi + ai * bf + tail) * one_raw() + rem) by (nonlinear_arith)
        requires
            a == one_raw() * ai + af,
            b == one_raw() * bi + bf,
            af * bf == tail * one_raw() + rem,
    ;
    lemma_fundamental_div_mod_converse(a * b, one_raw(), a * bi + ai * bf + tail, rem);
}

/// A partial sum that overflows a `u128` puts the product far past the range.
proof fn lemma_wide_overflow(a: int, b: int, ai: int, bf: int, bi: int, tail: int, partial: int)
    requires
        a >= 0,
        b >= 0,
        ai >= 0,
        bf >= 0,
        bi >= 0,
        tail >= 0,
        partial <= a * bi + ai * bf + tail,
        partial > 340_282_366_920_938_463_463_374_607_431_768_211_455,
        (a * b) / one_raw() == a * bi + ai * bf + tail,
    ensures
        round_half_up(a * b, one_raw()) > max_raw(),
{
    assert(a * bi >= 0 && ai * bf >= 0) by (nonlinear_arith)
        requires
            a >= 0,
            bi >= 0,
            ai >= 0,
            bf >= 0,
    ;
}

// a * b / 10^18 for two fractions below 10^18; quotient and remainder
fn mul_frac(a: u64, b: u64) -> (r: (u64, u64))
    requires
        a < ONE_64,
        b < ONE_64,
    ensures
        a * b == r.0 * one_raw() + r.1,
        r.1 < one_raw(),
{
    let (a_high, a_low) = (a / CHUNK, a % CHUNK);
    let (b_high, b_low) = (b / CHUNK, b % CHUNK);
    proof {
        assert(a_high < 1_000_000_000 && b_high < 1_000_000_000) by (nonlinear_arith)
            requires
                a < 1_000_000_000_000_000_000,
                b < 1_000_000_000_000_000_000,
                a_high == a / 1_000_000_000,
                b_high == b / 1_000_000_000,
        ;
        assert(a_high * b_high < 1_000_000_000_000_000_000 && a_high * b_low < 1_000_000_000_000_000_000
            && a_low * b_high < 1_000_000_000_000_000_000 && a_low * b_low < 1_000_000_000_000_000_000)
            by (nonlinear_arith)
            requires
                a_high < 1_000_000_000,
                b_high < 1_000_000_000,
                a_low < 1_000_000_000,
                b_low < 1_000_000_000,
        ;
    }
    let high = a_high * b_high;
    let middle = a_high * b_low + a_low * b_high;
    let tail = (middle % CHUNK) * CHUNK + a_low * b_low;
    proof {
        lemma_fundamental_div_mod(a as int, 1_000_000_000);
        lemma_fundamental_div_mod(b as int, 1_000_000_000);
        lemma_fundamental_div_mod(middle as int, 1_000_000_000);
        lemma_fundamental_div_mod(tail as int, 1_000_000_000_000_000_000);
        lemma_mod_pos_bound(tail as int, 1_000_000_000_000_000_000);
        assert(a * b == (high + middle / 1_000_000_000 + tail / 1_000_000_000_000_000_000)
            * 1_000_000_000_000_000_000 + tail % 1_000_000_000_000_000_000) by (nonlinear_arith)
            requires
                a == 1_000_000_000 * a_high + a_low,
                b == 1_000_000_000 * b_high + b_low,
                high == a_high * b_high,
                middle == a_high * b_low + a_low * b_high,
                middle == 1_000_000_000 * (middle / 1_000_000_000) + middle % 1_000_000_000,
                tail == (middle % 1_000_000_000) * 1_000_000_000 + a_low * b_low,
                tail == 1_000_000_000_000_000_000 * (tail / 1_000_000_000_000_000_000) + tail
                    % 1_000_000_000_000_000_000,
        ;
    }
    (high + middle / CHUNK + tail / ONE_64, tail % ONE_64)
}

fn signed(negative: bool, magnitude: u128) -> (r: Option<i128>)
    ensures
        r == match signed_or_none(negative, magnitude as int) {
            Some(x) => Some(x as i128),
            None => None::<i128>,
        },
{
    // the range is symmetric, so one limit serves both signs
    if magnitude > MAX_RAW as u128 {
        return None;
    }
    Some(
        if negative {
            -(magnitude as i128)
        } else {
            magnitude as i128
        },
    )
}

} // verus!
