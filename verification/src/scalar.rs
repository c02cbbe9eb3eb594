//! Single-precision IEEE-754 values, held by their bit patterns.
//!
//! Every value of the evaluators is a `u32` that carries the bits of a
//! binary32 number.  Sign handling, ordering, minimum and maximum are defined
//! here on the bits; rounding arithmetic is done by `rustc_apfloat`.

use rustc_apfloat::ieee::Single;
use rustc_apfloat::Float;
use vstd::prelude::*;

verus! {

/// Bits of positive zero.
pub const ZERO: u32 = 0;

/// Bits of `1.0`.
pub const ONE: u32 = 0x3F80_0000;

/// Bits of `2.0`.
pub const TWO: u32 = 0x4000_0000;

/// Bits of positive infinity.
pub const INFINITY: u32 = 0x7F80_0000;

/// Bits of the quiet NaN that the library produces.
pub const NAN: u32 = 0x7FC0_0000;

/// The lowest bit pattern with the sign bit set (negative zero).
pub const SIGN: u32 = 0x8000_0000;

/// The pattern with its sign bit cleared.
pub open spec fn magnitude(a: u32) -> u32 {
    if a >= SIGN {
        (a - SIGN) as u32
    } else {
        a
    }
}

/// Whether the sign bit is set.
pub open spec fn sign_set(a: u32) -> bool {
    a >= SIGN
}

/// Whether the pattern is a NaN: exponent all ones, fraction not zero.
pub open spec fn is_nan(a: u32) -> bool {
    magnitude(a) > INFINITY
}

/// Whether the pattern is one of the two zeros.
pub open spec fn is_zero(a: u32) -> bool {
    magnitude(a) == 0
}

/// The pattern with its sign bit flipped.
pub open spec fn negated(a: u32) -> u32 {
    if a >= SIGN {
        (a - SIGN) as u32
    } else {
        (a + SIGN) as u32
    }
}

/// Position of a number on the real line, up to a monotone rescaling: for
/// patterns that are not NaN, `a` is below `b` as a number exactly when
/// `rank(a) < rank(b)`.  Both zeros have rank 0.
pub open spec fn rank(a: u32) -> int {
    if a >= SIGN {
        -(a - SIGN)
    } else {
        a as int
    }
}

/// `a < b` as IEEE numbers; false when either is NaN.
pub open spec fn less(a: u32, b: u32) -> bool {
    !is_nan(a) && !is_nan(b) && rank(a) < rank(b)
}

/// `a <= b` as IEEE numbers; false when either is NaN.
pub open spec fn less_eq(a: u32, b: u32) -> bool {
    !is_nan(a) && !is_nan(b) && rank(a) <= rank(b)
}

/// The smaller of two numbers.  A NaN operand is ignored when the other is a
/// number; of two equal numbers the left one is kept.
pub open spec fn minimum(a: u32, b: u32) -> u32 {
    if is_nan(a) {
        b
    } else if is_nan(b) {
        a
    } else if rank(b) < rank(a) {
        b
    } else {
        a
    }
}

/// The larger of two numbers.  A NaN operand is ignored when the other is a
/// number; of two equal numbers the left one is kept.
pub open spec fn maximum(a: u32, b: u32) -> u32 {
    if is_nan(a) {
        b
    } else if is_nan(b) {
        a
    } else if rank(b) > rank(a) {
        b
    } else {
        a
    }
}

/// What `rustc_apfloat` returns for the sum of two binary32 values, rounded to
/// nearest with ties to even.
pub uninterp spec fn ieee_add(a: u32, b: u32) -> u32;

/// What `rustc_apfloat` returns for the difference of two binary32 values.
pub uninterp spec fn ieee_sub(a: u32, b: u32) -> u32;

/// What `rustc_apfloat` returns for the product of two binary32 values.
pub uninterp spec fn ieee_mul(a: u32, b: u32) -> u32;

/// What `rustc_apfloat` returns for the quotient of two binary32 values.
pub uninterp spec fn ieee_div(a: u32, b: u32) -> u32;

/// What `rustc_apfloat` returns when it converts an unsigned integer to
/// binary32, rounded to nearest with ties to even.
pub uninterp spec fn ieee_from_int(n: u64) -> u32;

/// Calls `Single`'s `+` (`Float::add_r` with `Round::NearestTiesToEven`) on
/// the two values that `Float::from_bits` decodes, and returns
/// `Float::to_bits` of the sum.  The contract only names that result.
#[verifier::external_body]
fn apfloat_add(a: u32, b: u32) -> (r: u32)
    ensures
        r == ieee_add(a, b),
{
    (Single::from_bits(a as u128) + Single::from_bits(b as u128)).value.to_bits() as u32
}

/// Calls `Single`'s `-` (`Float::sub_r` with `Round::NearestTiesToEven`) and
/// returns the bits of the difference.  The contract only names that result.
#[verifier::external_body]
fn apfloat_sub(a: u32, b: u32) -> (r: u32)
    ensures
        r == ieee_sub(a, b),
{
    (Single::from_bits(a as u128) - Single::from_bits(b as u128)).value.to_bits() as u32
}

/// Calls `Single`'s `*` (`Float::mul_r` with `Round::NearestTiesToEven`) and
/// returns the bits of the product.  The contract only names that result.
#[verifier::external_body]
fn apfloat_mul(a: u32, b: u32) -> (r: u32)
    ensures
        r == ieee_mul(a, b),
{
    (Single::from_bits(a as u128) * Single::from_bits(b as u128)).value.to_bits() as u32
}

/// Calls `Single`'s `/` (`Float::div_r` with `Round::NearestTiesToEven`) and
/// returns the bits of the quotient.  The contract only names that result.
#[verifier::external_body]
fn apfloat_div(a: u32, b: u32) -> (r: u32)
    ensures
        r == ieee_div(a, b),
{
    (Single::from_bits(a as u128) / Single::from_bits(b as u128)).value.to_bits() as u32
}

/// Calls `Float::from_u128` for `Single` and returns the bits of the value.
/// The contract only names that result.
#[verifier::external_body]
fn apfloat_from_int(n: u64) -> (r: u32)
    ensures
        r == ieee_from_int(n),
{
    Single::from_u128(n as u128).value.to_bits() as u32
}

/// Whether the pattern is a NaN.
pub fn nan(a: u32) -> (r: bool)
    ensures
        r == is_nan(a),
{
    let m: u32 = if a >= SIGN { a - SIGN } else { a };
    m > INFINITY
}

/// Whether the pattern is a zero of either sign.
pub fn zero(a: u32) -> (r: bool)
    ensures
        r == is_zero(a),
{
    a == 0 || a == SIGN
}

/// Flips the sign bit.
pub fn neg(a: u32) -> (r: u32)
    ensures
        r == negated(a),
{
    if a >= SIGN {
        a - SIGN
    } else {
        a + SIGN
    }
}

/// Clears the sign bit.
pub fn abs(a: u32) -> (r: u32)
    ensures
        r == magnitude(a),
{
    if a >= SIGN {
        a - SIGN
    } else {
        a
    }
}

/// `a < b` as IEEE numbers.
pub fn lt(a: u32, b: u32) -> (r: bool)
    ensures
        r == less(a, b),
{
    if nan(a) || nan(b) {
        false
    } else if a >= SIGN {
        if b >= SIGN {
            b < a
        } else {
            a > SIGN || b > 0
        }
    } else {
        b < SIGN && a < b
    }
}

/// `a <= b` as IEEE numbers.
pub fn le(a: u32, b: u32) -> (r: bool)
    ensures
        r == less_eq(a, b),
{
    if nan(a) || nan(b) {
        false
    } else {
        !lt(b, a)
    }
}

/// The smaller of two numbers, as `minimum` defines it.
pub fn min(a: u32, b: u32) -> (r: u32)
    ensures
        r == minimum(a, b),
{
    if nan(a) {
        b
    } else if nan(b) {
        a
    } else if lt(b, a) {
        b
    } else {
        a
    }
}

/// The larger of two numbers, as `maximum` defines it.
pub fn max(a: u32, b: u32) -> (r: u32)
    ensures
        r == maximum(a, b),
{
    if nan(a) {
        b
    } else if nan(b) {
        a
    } else if lt(a, b) {
        b
    } else {
        a
    }
}

/// The rounded sum of two values.
pub fn sum(a: u32, b: u32) -> (r: u32)
    ensures
        r == ieee_add(a, b),
{
    apfloat_add(a, b)
}

/// The rounded difference of two values.
pub fn difference(a: u32, b: u32) -> (r: u32)
    ensures
        r == ieee_sub(a, b),
{
    apfloat_sub(a, b)
}

/// The rounded product of two values.
pub fn product(a: u32, b: u32) -> (r: u32)
    ensures
        r == ieee_mul(a, b),
{
    apfloat_mul(a, b)
}

/// The rounded quotient of two values.
pub fn quotient(a: u32, b: u32) -> (r: u32)
    ensures
        r == ieee_div(a, b),
{
    apfloat_div(a, b)
}

/// The binary32 value nearest to an unsigned integer.
pub fn from_int(n: u64) -> (r: u32)
    ensures
        r == ieee_from_int(n),
{
    apfloat_from_int(n)
}

} // verus!
