//! IEEE 754 binary64 arithmetic on bit patterns.
//!
//! A number is held as the 64 bits of its binary64 encoding. Every operation
//! is specified as the exact result, rounded to the nearest representable
//! value with ties to the even significand, and is computed with exact
//! arbitrary-precision integers.

use vstd::prelude::*;
use vstd::arithmetic::power2::{lemma2_to64, lemma_pow2_adds, lemma_pow2_pos, pow2};
use crate::natural::{Natural, Relation};
use crate::rounding::{round_quotient, round_ratio};

verus! {

/// The bit that carries the sign.
pub const SIGN_BIT: u64 = 0x8000_0000_0000_0000;

/// The encoding of positive infinity; every larger magnitude is a NaN.
pub const INFINITY_BITS: u64 = 0x7FF0_0000_0000_0000;

/// The NaN that every invalid operation returns.
pub const NAN_BITS: u64 = 0x7FF8_0000_0000_0000;

/// Two to the power 52: the weight of the exponent field, and the implicit
/// leading bit of a normal significand.
pub const HIDDEN_BIT: u64 = 0x0010_0000_0000_0000;

/// Two to the power 53: significands lie below it.
pub const SIGNIFICAND_LIMIT: u64 = 0x0020_0000_0000_0000;

/// The encoding without its sign.
pub open spec fn magnitude(x: u64) -> u64 {
    if x >= SIGN_BIT { (x - SIGN_BIT) as u64 } else { x }
}

/// Whether the sign bit is set.
pub open spec fn negative(x: u64) -> bool {
    x >= SIGN_BIT
}

/// Whether the bits encode no number.
pub open spec fn is_nan(x: u64) -> bool {
    magnitude(x) > INFINITY_BITS
}

/// Whether the bits encode an infinity.
pub open spec fn is_infinite(x: u64) -> bool {
    magnitude(x) == INFINITY_BITS
}

/// Whether the bits encode a zero, of either sign.
pub open spec fn is_zero(x: u64) -> bool {
    magnitude(x) == 0
}

/// A magnitude with a sign put before it.
pub open spec fn with_sign(minus: bool, mag: u64) -> u64 {
    if minus { (mag + SIGN_BIT) as u64 } else { mag }
}

/// The value of a finite magnitude, in units of two to the power -1074.
/// Every finite binary64 value is a whole number of these units.
pub open spec fn scaled(mag: u64) -> nat {
    let e = mag / HIDDEN_BIT;
    let f = mag % HIDDEN_BIT;
    if e == 0 {
        f as nat
    } else {
        ((f + HIDDEN_BIT) * pow2((e - 1) as nat)) as nat
    }
}

/// The value with its sign flipped.
pub open spec fn negate_spec(x: u64) -> u64 {
    with_sign(!negative(x), magnitude(x))
}

/// The sum of two finite values of one sign, or the difference of two of
/// opposite signs, rounded; `x` and `y` are finite.
pub open spec fn finite_sum(x: u64, y: u64) -> u64 {
    let a = scaled(magnitude(x));
    let b = scaled(magnitude(y));
    if negative(x) == negative(y) {
        with_sign(negative(x), round_ratio(a + b, 1))
    } else if a == b {
        0
    } else if a > b {
        with_sign(negative(x), round_ratio((a - b) as nat, 1))
    } else {
        with_sign(negative(y), round_ratio((b - a) as nat, 1))
    }
}

/// Addition: the exact sum, rounded. Infinities of opposite sign have no
/// sum; an exact zero from opposite signs is the positive zero.
pub open spec fn sum_spec(x: u64, y: u64) -> u64 {
    if is_nan(x) || is_nan(y) {
        NAN_BITS
    } else if is_infinite(x) {
        if is_infinite(y) && negative(x) != negative(y) { NAN_BITS } else { x }
    } else if is_infinite(y) {
        y
    } else {
        finite_sum(x, y)
    }
}

/// Subtraction: addition of the negated subtrahend.
pub open spec fn difference_spec(x: u64, y: u64) -> u64 {
    sum_spec(x, negate_spec(y))
}

/// Multiplication: the exact product, rounded. Zero times infinity has no
/// product.
pub open spec fn product_spec(x: u64, y: u64) -> u64 {
    let minus = negative(x) != negative(y);
    if is_nan(x) || is_nan(y) {
        NAN_BITS
    } else if is_infinite(x) || is_infinite(y) {
        if is_zero(x) || is_zero(y) { NAN_BITS } else { with_sign(minus, INFINITY_BITS) }
    } else {
        with_sign(
            minus,
            round_ratio(scaled(magnitude(x)) * scaled(magnitude(y)), pow2(1074)),
        )
    }
}

/// Division: the exact quotient, rounded. A nonzero value over zero is an
/// infinity; zero over zero and infinity over infinity have no quotient.
pub open spec fn quotient_spec(x: u64, y: u64) -> u64 {
    let minus = negative(x) != negative(y);
    if is_nan(x) || is_nan(y) {
        NAN_BITS
    } else if is_infinite(x) {
        if is_infinite(y) { NAN_BITS } else { with_sign(minus, INFINITY_BITS) }
    } else if is_infinite(y) {
        with_sign(minus, 0)
    } else if is_zero(y) {
        if is_zero(x) { NAN_BITS } else { with_sign(minus, INFINITY_BITS) }
    } else {
        with_sign(
            minus,
            round_ratio(scaled(magnitude(x)) * pow2(1074), scaled(magnitude(y))),
        )
    }
}

/// Sign and magnitude.
fn split(x: u64) -> (r: (bool, u64))
    ensures
        r.0 == negative(x),
        r.1 == magnitude(x),
        r.1 < SIGN_BIT,
{
    if x >= SIGN_BIT { (true, x - SIGN_BIT) } else { (false, x) }
}

/// A magnitude with a sign put before it.
fn signed(minus: bool, mag: u64) -> (r: u64)
    requires
        mag < SIGN_BIT,
    ensures
        r == with_sign(minus, mag),
{
    if minus { mag + SIGN_BIT } else { mag }
}

/// Significand and binary exponent of a finite magnitude.
fn parts(mag: u64) -> (r: (u64, usize))
    requires
        mag < INFINITY_BITS,
    ensures
        r.0 < SIGNIFICAND_LIMIT,
        r.1 <= 2045,
        scaled(mag) == r.0 * pow2(r.1 as nat),
        mag > 0 ==> r.0 > 0,
{
    let e = mag / HIDDEN_BIT;
    let f = mag % HIDDEN_BIT;
    if e == 0 {
        proof {
            lemma2_to64();
            assert(f * pow2(0) == f) by (nonlinear_arith)
                requires
                    pow2(0) == 1,
            ;
        }
        (f, 0)
    } else {
        (f + HIDDEN_BIT, (e - 1) as usize)
    }
}

/// The value of a finite magnitude, in units of two to the power -1074.
fn scaled_natural(mag: u64) -> (r: Natural)
    requires
        mag < INFINITY_BITS,
    ensures
        r.wf(),
        r@ == scaled(mag),
        mag > 0 ==> r@ > 0,
{
    let (s, e) = parts(mag);
    let mut r = Natural::from_u128(s as u128);
    r.shift_left(e);
    proof {
        lemma_pow2_pos(e as nat);
        if mag > 0 {
            assert(s * pow2(e as nat) > 0) by (nonlinear_arith)
                requires
                    s > 0,
                    pow2(e as nat) > 0,
            ;
        }
    }
    r
}

/// The number one.
fn one() -> (r: Natural)
    ensures
        r.wf(),
        r@ == 1,
{
    Natural::from_u128(1)
}

/// Flips the sign.
pub fn negate(x: u64) -> (r: u64)
    ensures
        r == negate_spec(x),
{
    if x >= SIGN_BIT { x - SIGN_BIT } else { x + SIGN_BIT }
}

/// Adds two numbers.
pub fn sum(x: u64, y: u64) -> (r: u64)
    ensures
        r == sum_spec(x, y),
{
    let (nx, mx) = split(x);
    let (ny, my) = split(y);
    if mx > INFINITY_BITS || my > INFINITY_BITS {
        return NAN_BITS;
    }
    if mx == INFINITY_BITS {
        if my == INFINITY_BITS && nx != ny {
            return NAN_BITS;
        }
        return x;
    }
    if my == INFINITY_BITS {
        return y;
    }
    let a = scaled_natural(mx);
    let b = scaled_natural(my);
    let unit = one();
    if nx == ny {
        let total = a.add(&b);
        signed(nx, round_quotient(&total, &unit))
    } else {
        match a.relation(&b) {
            Relation::Equal => 0,
            Relation::Above => {
                let rest = a.sub(&b);
                signed(nx, round_quotient(&rest, &unit))
            },
            Relation::Below => {
                let rest = b.sub(&a);
                signed(ny, round_quotient(&rest, &unit))
            },
        }
    }
}

/// Subtracts the second number from the first.
pub fn difference(x: u64, y: u64) -> (r: u64)
    ensures
        r == difference_spec(x, y),
{
    sum(x, negate(y))
}

/// Multiplies two numbers.
pub fn product(x: u64, y: u64) -> (r: u64)
    ensures
        r == product_spec(x, y),
{
    let (nx, mx) = split(x);
    let (ny, my) = split(y);
    let minus = nx != ny;
    if mx > INFINITY_BITS || my > INFINITY_BITS {
        return NAN_BITS;
    }
    if mx == INFINITY_BITS || my == INFINITY_BITS {
        if mx == 0 || my == 0 {
            return NAN_BITS;
        }
        return signed(minus, INFINITY_BITS);
    }
    let (sx, ex) = parts(mx);
    let (sy, ey) = parts(my);
    assert(sx * sy < 0x400_0000_0000_0000_0000_0000_0000) by (nonlinear_arith)
        requires
            sx < 0x20_0000_0000_0000,
            sy < 0x20_0000_0000_0000,
    ;
    let mut a = Natural::from_u128((sx as u128) * (sy as u128));
    a.shift_left(ex + ey);
    let mut b = one();
    b.shift_left(1074);
    proof {
        lemma_pow2_adds(ex as nat, ey as nat);
        lemma_pow2_pos(1074);
        let px = pow2(ex as nat) as int;
        let py = pow2(ey as nat) as int;
        assert((sx * sy) * (px * py) == (sx * px) * (sy * py)) by (nonlinear_arith);
    }
    signed(minus, round_quotient(&a, &b))
}

/// Divides the first number by the second.
pub fn quotient(x: u64, y: u64) -> (r: u64)
    ensures
        r == quotient_spec(x, y),
{
    let (nx, mx) = split(x);
    let (ny, my) = split(y);
    let minus = nx != ny;
    if mx > INFINITY_BITS || my > INFINITY_BITS {
        return NAN_BITS;
    }
    if mx == INFINITY_BITS {
        if my == INFINITY_BITS {
            return NAN_BITS;
        }
        return signed(minus, INFINITY_BITS);
    }
    if my == INFINITY_BITS {
        return signed(minus, 0);
    }
    if my == 0 {
        if mx == 0 {
            return NAN_BITS;
        }
        return signed(minus, INFINITY_BITS);
    }
    let mut a = scaled_natural(mx);
    a.shift_left(1074);
    let b = scaled_natural(my);
    signed(minus, round_quotient(&a, &b))
}

} // verus!
