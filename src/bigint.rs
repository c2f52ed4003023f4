//! The arbitrary-precision unsigned integers of `num_bigint`, as Verus sees
//! them: each `BigUint` stands for the natural number `value_of(n)`, and each
//! operation the curve arithmetic uses is a thin wrapper stating its result
//! over those numbers.

use num_bigint::BigUint;
use vstd::arithmetic::power::pow;
use vstd::prelude::*;

verus! {

#[verifier::external_type_specification]
#[verifier::external_body]
pub struct ExBigUint(BigUint);

/// The natural number that a `BigUint` holds.
pub uninterp spec fn value_of(n: BigUint) -> nat;

/// Relies on `From<u32> for BigUint`: the same number.
#[verifier::external_body]
pub(crate) fn from_u32(v: u32) -> (r: BigUint)
    ensures
        value_of(r) == v as nat,
{
    BigUint::from(v)
}

/// Relies on `Clone for BigUint`: the copy holds the same number.
pub assume_specification[ <BigUint as Clone>::clone ](n: &BigUint) -> (r: BigUint)
    ensures
        value_of(r) == value_of(*n),
;

/// Relies on `PartialEq for BigUint`: equal exactly when the numbers are.
pub assume_specification[ <BigUint as PartialEq>::eq ](m: &BigUint, n: &BigUint) -> (r: bool)
    ensures
        r == (value_of(*m) == value_of(*n)),
;

/// Relies on `Add for &BigUint`: the exact sum.
#[verifier::external_body]
pub(crate) fn sum(m: &BigUint, n: &BigUint) -> (r: BigUint)
    ensures
        value_of(r) == value_of(*m) + value_of(*n),
{
    m + n
}

/// Relies on `Sub for &BigUint`, which panics when the result would be negative.
#[verifier::external_body]
pub(crate) fn difference(m: &BigUint, n: &BigUint) -> (r: BigUint)
    requires
        value_of(*n) <= value_of(*m),
    ensures
        value_of(r) == value_of(*m) - value_of(*n),
{
    m - n
}

/// Relies on `Mul for &BigUint`: the exact product.
#[verifier::external_body]
pub(crate) fn product(m: &BigUint, n: &BigUint) -> (r: BigUint)
    ensures
        value_of(r) == value_of(*m) * value_of(*n),
{
    m * n
}

/// Relies on `Rem for &BigUint`, which panics on a zero divisor.
#[verifier::external_body]
pub(crate) fn remainder(m: &BigUint, n: &BigUint) -> (r: BigUint)
    requires
        value_of(*n) > 0,
    ensures
        value_of(r) == value_of(*m) % value_of(*n),
{
    m % n
}

/// Relies on `Shr<u32> for &BigUint`: a shift right by one bit halves the number.
#[verifier::external_body]
pub(crate) fn half(n: &BigUint) -> (r: BigUint)
    ensures
        value_of(r) == value_of(*n) / 2,
{
    n >> 1u32
}

/// Relies on `BigUint::modpow`: `(base ^ exponent) % modulus`; it panics on a
/// zero modulus.
#[verifier::external_body]
pub(crate) fn mod_pow(base: &BigUint, exponent: &BigUint, modulus: &BigUint) -> (r: BigUint)
    requires
        value_of(*modulus) > 1,
    ensures
        value_of(r) == pow(value_of(*base) as int, value_of(*exponent)) % (value_of(*modulus) as int),
{
    base.modpow(exponent, modulus)
}

} // verus!
