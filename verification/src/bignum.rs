//! The trusted boundary around `num_bigint::BigUint`: the type declaration,
//! its mathematical view `big_value`, and one wrapper per arbitrary-precision
//! operation the verified code calls. Everything else in the crate is proved
//! against the contracts stated here.

use vstd::prelude::*;

verus! {

use num_bigint::BigUint;
use crate::arith::gcd_nat;

#[verifier::external_type_specification]
#[verifier::external_body]
pub struct ExBigUint(BigUint);

/// The non-negative integer a `BigUint` stands for.
pub uninterp spec fn big_value(b: BigUint) -> nat;

/// Relies on `<BigUint as Clone>::clone`: the copy stands for the same value.
pub assume_specification[ <BigUint as Clone>::clone ](b: &BigUint) -> (r: BigUint)
    ensures
        big_value(r) == big_value(*b),
;

/// Relies on `<BigUint as From<u64>>::from`: the result stands for `x`.
#[verifier::external_body]
pub fn big_from_u64(x: u64) -> (r: BigUint)
    ensures
        big_value(r) == x as nat,
{
    BigUint::from(x)
}

/// Relies on `<BigUint as PartialEq>::eq`: `BigUint` is a canonical digit
/// vector, so two values compare equal exactly when they stand for the same
/// integer.
#[verifier::external_body]
pub fn big_eq(a: &BigUint, b: &BigUint) -> (r: bool)
    ensures
        r <==> big_value(*a) == big_value(*b),
{
    a == b
}

/// Relies on `<BigUint as Ord>::lt`, which orders by magnitude.
#[verifier::external_body]
pub fn big_lt(a: &BigUint, b: &BigUint) -> (r: bool)
    ensures
        r <==> big_value(*a) < big_value(*b),
{
    a < b
}

/// Relies on `<&BigUint as Add>::add`.
#[verifier::external_body]
pub fn big_add(a: &BigUint, b: &BigUint) -> (r: BigUint)
    ensures
        big_value(r) == big_value(*a) + big_value(*b),
{
    a + b
}

/// Relies on `<&BigUint as Sub>::sub`, which panics on underflow; the
/// precondition rules that out.
#[verifier::external_body]
pub fn big_sub(a: &BigUint, b: &BigUint) -> (r: BigUint)
    requires
        big_value(*b) <= big_value(*a),
    ensures
        big_value(r) == big_value(*a) - big_value(*b),
{
    a - b
}

/// Relies on `<BigUint as num_traits::CheckedSub>::checked_sub`: `None`
/// exactly when the subtrahend is larger.
#[verifier::external_body]
pub fn big_checked_sub(a: &BigUint, b: &BigUint) -> (r: Option<BigUint>)
    ensures
        match r {
            Some(d) => big_value(*a) >= big_value(*b)
                && big_value(d) == big_value(*a) - big_value(*b),
            None => big_value(*a) < big_value(*b),
        },
{
    num_traits::CheckedSub::checked_sub(a, b)
}

/// Relies on `<&BigUint as Mul>::mul`.
#[verifier::external_body]
pub fn big_mul(a: &BigUint, b: &BigUint) -> (r: BigUint)
    ensures
        big_value(r) == big_value(*a) * big_value(*b),
{
    a * b
}

/// Relies on `<&BigUint as Rem>::rem` (Euclidean remainder on non-negative
/// values), which panics on a zero modulus; the precondition rules that out.
#[verifier::external_body]
pub fn big_mod(a: &BigUint, m: &BigUint) -> (r: BigUint)
    requires
        big_value(*m) >= 1,
    ensures
        big_value(r) == big_value(*a) % big_value(*m),
{
    a % m
}

/// Relies on `<&BigUint as Div>::div` (floor division on non-negative
/// values), which panics on a zero divisor; the precondition rules that out.
#[verifier::external_body]
pub fn big_div(a: &BigUint, d: &BigUint) -> (r: BigUint)
    requires
        big_value(*d) >= 1,
    ensures
        big_value(r) == big_value(*a) / big_value(*d),
{
    a / d
}

/// Relies on `<BigUint as num_integer::Integer>::is_even`, which tests the
/// lowest digit's parity.
#[verifier::external_body]
pub fn big_is_even(a: &BigUint) -> (r: bool)
    ensures
        r <==> big_value(*a) % 2 == 0,
{
    num_integer::Integer::is_even(a)
}

/// Relies on `<BigUint as num_integer::Integer>::gcd` (Stein's binary
/// algorithm), which computes the mathematical greatest common divisor:
/// the same value Euclid's recursion yields, with `gcd(x, 0) == x`.
#[verifier::external_body]
pub fn big_gcd(a: &BigUint, b: &BigUint) -> (r: BigUint)
    ensures
        big_value(r) == gcd_nat(big_value(*a), big_value(*b)),
{
    num_integer::Integer::gcd(a, b)
}

/// Relies on `rand::thread_rng` and
/// `num_bigint::RandBigInt::gen_biguint_range`, which returns a uniform
/// sample from `[low, high)` and panics unless `low < high`; the
/// precondition rules that out. Nothing beyond the range is promised:
/// the result is random.
#[verifier::external_body]
pub fn sample_range(low: &BigUint, high: &BigUint) -> (r: BigUint)
    requires
        big_value(*low) < big_value(*high),
    ensures
        big_value(*low) <= big_value(r) < big_value(*high),
{
    let mut rng = rand::thread_rng();
    num_bigint::RandBigInt::gen_biguint_range(&mut rng, low, high)
}

} // verus!
