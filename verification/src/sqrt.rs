//! The square root at the native scale, rounded half away from zero.
//!
//! The root of `raw / 10^18` at scale `10^18` is `sqrt(raw * 10^18)`, a
//! product that needs 187 bits. Neither path forms it past what a `u128`
//! holds: the first because a small enough `raw` keeps it inside one, the
//! second because it only ever compares against it.
use vstd::prelude::*;
use crate::num::{max_raw, nan_raw, one_raw, Dec, ONE_U};

verus! {

const CHUNK: u128 = 1_000_000_000;

/// `raw * 10^18` fits a `u128` at or below this, which is every value up
/// to about 340.
pub const SIMPLE_MAX: u128 = 340_282_366_920_938_463_463;

/// No root this module is asked about reaches this.
pub const ROOT_BOUND: u128 = 14_000_000_000_000_000_000_000_000_000;

/// `root` is the integer nearest to the real square root of `n`: no tie can
/// arise, since no integer is a quarter past another.
pub open spec fn is_nearest_root(root: int, n: int) -> bool {
    &&& root >= 0
    &&& (root == 0 || root * root - root < n)
    &&& n <= root * root + root
}

/// `root` is the integer square root of `n`, rounded down.
pub open spec fn is_floor_root(root: int, n: int) -> bool {
    &&& root >= 0
    &&& root * root <= n
    &&& n < (root + 1) * (root + 1)
}

impl Dec {
    /// The square root, rounded half away from zero at [`Dec::SCALE`] decimal
    /// places. A negative value gives [`Dec::nan`], as does NaN itself. Every
    /// non-negative finite value has a finite root.
    pub fn sqrt(self) -> (d: Dec)
        ensures
            self.raw() < 0 ==> d.raw() == nan_raw(),
            self.raw() >= 0 ==> is_nearest_root(d.raw(), self.raw() * one_raw()),
    {
        match self.checked_sqrt() {
            Some(value) => value,
            None => Dec::nan(),
        }
    }

    /// The square root, or `None` for a negative value or [`Dec::nan`]. Those
    /// are its only failures: a root never leaves the finite range.
    pub fn checked_sqrt(self) -> (r: Option<Dec>)
        ensures
            r is Some <==> self.raw() >= 0,
            r matches Some(d) ==> is_nearest_root(d.raw(), self.raw() * one_raw()),
    {
        // NAN_RAW is the most negative raw, so one test takes it and every
        // negative value
        if self.0 < 0 {
            return None;
        }
        Some(Dec(sqrt_raw(self.0 as u128)))
    }
}

/// A root of `raw * 10^18` rounded to the nearest integer from the one rounded
/// down.
proof fn lemma_round_root(floor: int, n: int)
    requires
        is_floor_root(floor, n),
    ensures
        n - floor * floor > floor ==> is_nearest_root(floor + 1, n),
        !(n - floor * floor > floor) ==> is_nearest_root(floor, n),
{
    assert((floor + 1) * (floor + 1) == floor * floor + 2 * floor + 1) by (nonlinear_arith);
}

pub fn sqrt_raw(raw: u128) -> (r: i128)
    requires
        raw <= max_raw(),
    ensures
        is_nearest_root(r as int, raw * one_raw()),
{
    if raw <= SIMPLE_MAX {
        simple(raw)
    } else {
        wide(raw)
    }
}

// The whole product fits, so the integer root answers it directly and the
// rounding test is a subtraction.
pub fn simple(raw: u128) -> (r: i128)
    requires
        raw <= SIMPLE_MAX,
    ensures
        is_nearest_root(r as int, raw * one_raw()),
{
    proof {
        assert(raw * ONE_U <= SIMPLE_MAX * 1_000_000_000_000_000_000) by (nonlinear_arith)
            requires
                raw <= SIMPLE_MAX,
        ;
    }
    let scaled = raw * ONE_U;
    let root = isqrt(scaled);
    proof {
        lemma_round_root(root as int, scaled as int);
        assert(root <= 18_446_744_073_709_551_616) by (nonlinear_arith)
            requires
                root * root <= scaled,
                scaled <= 340_282_366_920_938_463_463_000_000_000_000_000_000,
                root >= 0,
        ;
    }
    if scaled - root * root > root {
        (root + 1) as i128
    } else {
        root as i128
    }
}

/// The integer square root, rounded down, by bisection over the 64 bits a
/// root of a `u128` can have.
fn isqrt(n: u128) -> (r: u128)
    ensures
        is_floor_root(r as int, n as int),
{
    // lo * lo <= n < hi * hi, and hi never passes 2^64
    let mut lo: u128 = 0;
    let mut hi: u128 = 18_446_744_073_709_551_616;
    proof {
        assert(n < 18_446_744_073_709_551_616 * 18_446_744_073_709_551_616);
    }
    while hi - lo > 1
        invariant
            lo < hi <= 18_446_744_073_709_551_616,
            lo * lo <= n,
            n < hi * hi,
        decreases hi - lo,
    {
        let mid = lo + (hi - lo) / 2;
        proof {
            assert(mid * mid < 18_446_744_073_709_551_616 * 18_446_744_073_709_551_616)
                by (nonlinear_arith)
                requires
                    mid < 18_446_744_073_709_551_616,
            ;
        }
        if mid * mid <= n {
            lo = mid;
        } else {
            hi = mid;
        }
    }
    lo
}

// Past the threshold the product no longer fits, so the root is built out of
// `sqrt(raw)`: `whole` is its integer part, `excess` what is left over, and
// one Newton term carries that remainder the nine digits the scale wants. The
// estimate is then settled exactly by comparisons against the product, which
// are made without forming it.
pub fn wide(raw: u128) -> (r: i128)
    requires
        1 <= raw <= max_raw(),
    ensures
        is_nearest_root(r as int, raw * one_raw()),
{
    let whole = isqrt(raw);
    proof {
        assert(whole >= 1) by (nonlinear_arith)
            requires
                raw < (whole + 1) * (whole + 1),
                raw >= 1,
                whole >= 0,
        ;
        assert(whole <= 13_043_817_825_332_782_213) by (nonlinear_arith)
            requires
                whole * whole <= raw,
                raw <= 170_141_183_460_469_231_731_687_303_715_884_105_727,
                whole >= 0,
        ;
        assert(raw - whole * whole <= 2 * whole) by (nonlinear_arith)
            requires
                raw < (whole + 1) * (whole + 1),
        ;
    }
    let excess = raw - whole * whole;
    // excess < 2 * whole + 1, so the Newton term stays under 10^9
    let newton = excess * CHUNK / (2 * whole + 1);
    proof {
        assert(newton <= CHUNK) by (nonlinear_arith)
            requires
                newton == excess * CHUNK / (2 * whole + 1),
                excess <= 2 * whole,
                whole >= 1,
        ;
    }
    let mut root = whole * CHUNK + newton;
    let ghost n = raw * one_raw();
    while !square_at_most(root, 0, raw)
        invariant
            root <= ROOT_BOUND,
            n == raw * one_raw(),
            raw <= max_raw(),
        decreases root,
    {
        proof {
            if root == 0 {
                assert(0 * 0 + 0 <= raw * one_raw());
            }
        }
        root = root - 1;
    }
    proof {
        lemma_root_below_bound(root as int, n);
    }
    while square_at_most(root + 1, 0, raw)
        invariant
            root < ROOT_BOUND,
            root * root <= n,
            n == raw * one_raw(),
            raw <= max_raw(),
        decreases ROOT_BOUND - root,
    {
        root = root + 1;
        proof {
            lemma_root_below_bound(root as int, n);
        }
    }
    proof {
        lemma_round_root(root as int, n);
        assert(root * root + (root + 1) <= n <==> n - root * root > root);
    }
    if square_at_most(root, root + 1, raw) {
        (root + 1) as i128
    } else {
        root as i128
    }
}

/// No root of a value in the finite range, scaled, comes near the bound.
proof fn lemma_root_below_bound(x: int, n: int)
    requires
        0 <= x,
        x * x <= n,
        n <= max_raw() * one_raw(),
    ensures
        x + 1 < ROOT_BOUND,
{
    if x + 1 >= ROOT_BOUND {
        assert(x * x > max_raw() * one_raw()) by (nonlinear_arith)
            requires
                x + 1 >= 14_000_000_000_000_000_000_000_000_000,
        ;
    }
}

// `root^2 + bias <= raw * 10^18`, decided inside a u128 because neither side
// is ever formed. Splitting the root at 10^9 into `high` and `low` gives
//
//     root^2 = high^2 * 10^18 + 2 * high * low * 10^9 + low^2
//
// whose leading term cancels against the right side, and what is left fits.
pub fn square_at_most(root: u128, bias: u128, raw: u128) -> (b: bool)
    requires
        root <= ROOT_BOUND,
        bias <= ROOT_BOUND + 1,
        raw <= max_raw(),
    ensures
        b == (root * root + bias <= raw * one_raw()),
{
    let (high, low) = (root / CHUNK, root % CHUNK);
    proof {
        assert(high <= 14_000_000_000_000_000_000) by (nonlinear_arith)
            requires
                high == root / 1_000_000_000,
                root <= 14_000_000_000_000_000_000_000_000_000,
        ;
        assert(high * high <= 196_000_000_000_000_000_000_000_000_000_000_000_000) by (nonlinear_arith)
            requires
                high <= 14_000_000_000_000_000_000,
        ;
        assert(2 * high * low * CHUNK + low * low + bias <= 28_000_000_000_000_000_000_000_000_000_000_000_000 + 1_000_000_000_000_000_000 + 14_000_000_000_000_000_000_000_000_001)
            by (nonlinear_arith)
            requires
                high <= 14_000_000_000_000_000_000,
                low < 1_000_000_000,
                bias <= 14_000_000_000_000_000_000_000_000_001,
        ;
        assert(root * root == high * high * one_raw() + 2 * high * low * CHUNK + low * low)
            by (nonlinear_arith)
            requires
                root == 1_000_000_000 * high + low,
        ;
        vstd::arithmetic::div_mod::lemma_fundamental_div_mod(root as int, 1_000_000_000);
    }
    match raw.checked_sub(high * high) {
        // the leading term alone is already past the right side
        None => {
            proof {
                assert(root * root + bias > raw * one_raw()) by (nonlinear_arith)
                    requires
                        raw < high * high,
                        root * root == high * high * one_raw() + 2 * high * low * CHUNK + low * low,
                        high >= 0,
                        low >= 0,
                        bias >= 0,
                ;
            }
            false
        },
        Some(slack) => match slack.checked_mul(ONE_U) {
            Some(limit) => {
                proof {
                    assert((root * root + bias <= raw * one_raw()) == (2 * high * low * CHUNK + low
                        * low + bias <= limit)) by (nonlinear_arith)
                        requires
                            slack == raw - high * high,
                            limit == slack * one_raw(),
                            root * root == high * high * one_raw() + 2 * high * low * CHUNK + low
                                * low,
                    ;
                }
                2 * high * low * CHUNK + low * low + bias <= limit
            },
            // a slack past 3.4e20 puts the right side beyond anything the
            // left reaches, so the comparison is settled without the product
            None => {
                proof {
                    assert(root * root + bias <= raw * one_raw()) by (nonlinear_arith)
                        requires
                            slack == raw - high * high,
                            slack * one_raw() > 340_282_366_920_938_463_463_374_607_431_768_211_455,
                            root * root == high * high * one_raw() + 2 * high * low * CHUNK + low
                                * low,
                            2 * high * low * CHUNK + low * low + bias <= 28_000_000_000_000_000_000_000_000_000_000_000_000 + 1_000_000_000_000_000_000 + 14_000_000_000_000_000_000_000_000_001,
                    ;
                }
                true
            },
        },
    }
}

} // verus!
