//! Trusted layer over the arbitrary-precision unsigned integers of the
//! `num_bigint` crate.
//!
//! A `BigUint` is opaque to the verifier; the uninterpreted function
//! [`big_nat`] names the natural number such a value holds, and every
//! wrapper below states what the wrapped `num_bigint` operation does to
//! that number, exactly as the crate's source and documentation show it.

use vstd::prelude::*;
use vstd::arithmetic::power2::pow2;
use num_bigint::BigUint;
use num_integer::Integer;
use num_traits::ToPrimitive;
use crate::arith::{gcd_nat, pow_mod, bitlen, be_val};

verus! {

#[verifier::external_type_specification]
#[verifier::external_body]
pub struct ExBigUint(BigUint);

#[verifier::external_type_specification]
#[verifier::external_body]
pub struct ExRandError(getrandom::Error);

/// The natural number that a `BigUint` holds.
pub uninterp spec fn big_nat(b: BigUint) -> nat;

/// Relies on `BigUint::from(u64)`: builds the number with that value.
#[verifier::external_body]
pub fn big_from_u64(x: u64) -> (r: BigUint)
    ensures
        big_nat(r) == x as nat,
{
    BigUint::from(x)
}

/// Relies on `num_traits::ToPrimitive::to_u64`: returns the value when it
/// fits in a `u64`, and `None` otherwise.
#[verifier::external_body]
pub fn big_to_u64(a: &BigUint) -> (r: Option<u64>)
    ensures
        r is Some <==> big_nat(*a) <= u64::MAX,
        r is Some ==> r->0 as nat == big_nat(*a),
{
    a.to_u64()
}

/// Relies on `Clone for BigUint`: the copy holds the same number.
#[verifier::external_body]
pub fn big_clone(a: &BigUint) -> (r: BigUint)
    ensures
        big_nat(r) == big_nat(*a),
{
    a.clone()
}

/// Relies on `PartialEq for BigUint`: equality of the held numbers.
#[verifier::external_body]
pub fn big_eq(a: &BigUint, b: &BigUint) -> (r: bool)
    ensures
        r == (big_nat(*a) == big_nat(*b)),
{
    a == b
}

/// Relies on `Ord for BigUint`: order of the held numbers.
#[verifier::external_body]
pub fn big_lt(a: &BigUint, b: &BigUint) -> (r: bool)
    ensures
        r == (big_nat(*a) < big_nat(*b)),
{
    a < b
}

/// Relies on `Add for &BigUint`.
#[verifier::external_body]
pub fn big_add(a: &BigUint, b: &BigUint) -> (r: BigUint)
    ensures
        big_nat(r) == big_nat(*a) + big_nat(*b),
{
    a + b
}

/// Relies on `Sub for &BigUint`, which requires the difference to be
/// non-negative.
#[verifier::external_body]
pub fn big_sub(a: &BigUint, b: &BigUint) -> (r: BigUint)
    requires
        big_nat(*b) <= big_nat(*a),
    ensures
        big_nat(r) == big_nat(*a) - big_nat(*b),
{
    a - b
}

/// Relies on `Mul for &BigUint`.
#[verifier::external_body]
pub fn big_mul(a: &BigUint, b: &BigUint) -> (r: BigUint)
    ensures
        big_nat(r) == big_nat(*a) * big_nat(*b),
{
    a * b
}

/// Relies on `Div for &BigUint`: Euclidean quotient.
#[verifier::external_body]
pub fn big_div(a: &BigUint, b: &BigUint) -> (r: BigUint)
    requires
        big_nat(*b) > 0,
    ensures
        big_nat(r) == big_nat(*a) / big_nat(*b),
{
    a / b
}

/// Relies on `Rem for &BigUint`: Euclidean remainder.
#[verifier::external_body]
pub fn big_mod(a: &BigUint, m: &BigUint) -> (r: BigUint)
    requires
        big_nat(*m) > 0,
    ensures
        big_nat(r) == big_nat(*a) % big_nat(*m),
{
    a % m
}

/// Relies on `BigUint::modpow`: returns `(self ^ exponent) % modulus`.
#[verifier::external_body]
pub fn big_modpow(b: &BigUint, e: &BigUint, m: &BigUint) -> (r: BigUint)
    requires
        big_nat(*m) > 0,
    ensures
        big_nat(r) == pow_mod(big_nat(*b), big_nat(*e), big_nat(*m)),
{
    b.modpow(e, m)
}

/// Relies on `BigUint::modinv`: returns the inverse in `[0, modulus)`
/// exactly when `gcd(self, modulus) == 1`.
#[verifier::external_body]
pub fn big_modinv(a: &BigUint, m: &BigUint) -> (r: Option<BigUint>)
    requires
        big_nat(*m) > 0,
    ensures
        r is Some <==> gcd_nat(big_nat(*a), big_nat(*m)) == 1,
        r is Some ==> big_nat(r->0) < big_nat(*m) && (big_nat(*a) * big_nat(r->0)) % big_nat(
            *m,
        ) == 1nat % big_nat(*m),
{
    a.modinv(m)
}

/// Relies on `num_integer::Integer::gcd` for `BigUint`: the greatest
/// common divisor.
#[verifier::external_body]
pub fn big_gcd(a: &BigUint, b: &BigUint) -> (r: BigUint)
    ensures
        big_nat(r) == gcd_nat(big_nat(*a), big_nat(*b)),
{
    a.gcd(b)
}

/// Relies on `BigUint::from_bytes_be`: decodes a big-endian byte string.
#[verifier::external_body]
pub fn big_from_bytes_be(bytes: &Vec<u8>) -> (r: BigUint)
    ensures
        big_nat(r) == be_val(bytes@),
{
    BigUint::from_bytes_be(bytes)
}

/// Relies on `BigUint::bits`: the fewest bits needed to express the
/// number, 0 for 0.
#[verifier::external_body]
pub fn big_bits(a: &BigUint) -> (r: u64)
    ensures
        r as nat == bitlen(big_nat(*a)),
{
    a.bits()
}

/// Relies on `Shl<usize> for BigUint`, applied to 1: the power of two.
#[verifier::external_body]
pub fn big_pow2(k: usize) -> (r: BigUint)
    ensures
        big_nat(r) == pow2(k as nat),
{
    BigUint::from(1u32) << k
}

/// Relies on `getrandom::fill`: fills the buffer with cryptographically
/// strong random bytes, or reports that the randomness source failed.
/// Nothing is promised of the bytes themselves.
#[verifier::external_body]
pub fn rand_fill(buf: &mut Vec<u8>) -> (r: Result<(), getrandom::Error>)
    ensures
        final(buf)@.len() == old(buf)@.len(),
{
    getrandom::fill(buf.as_mut_slice())
}

} // verus!
