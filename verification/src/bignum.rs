//! Trusted interface to the arbitrary-precision integers of `num_bigint`.
//!
//! Each wrapper makes one call into the outside crate; its contract states
//! over `big_value` what that crate's source shows the call computes.

use vstd::prelude::*;

verus! {

#[verifier::external_type_specification]
#[verifier::external_body]
pub struct ExBigInt(num_bigint::BigInt);

/// The mathematical integer a `BigInt` holds.
pub uninterp spec fn big_value(b: num_bigint::BigInt) -> int;

/// Integer division rounding toward zero, which is how `num_bigint` divides
/// (its `Div` takes the quotient of `Integer::div_rem`, the truncated pair).
pub open spec fn trunc_div(a: int, b: int) -> int {
    if a >= 0 {
        a / b
    } else {
        -((-a) / b)
    }
}

/// Relies on `BigInt: From<u64>`: the big integer holding exactly `x`.
#[verifier::external_body]
pub fn big_from_u64(x: u64) -> (r: num_bigint::BigInt)
    ensures
        big_value(r) == x,
{
    num_bigint::BigInt::from(x)
}

/// Relies on `Add for &BigInt`: exact integer addition.
#[verifier::external_body]
pub fn big_add(a: &num_bigint::BigInt, b: &num_bigint::BigInt) -> (r: num_bigint::BigInt)
    ensures
        big_value(r) == big_value(*a) + big_value(*b),
{
    a + b
}

/// Relies on `Sub for &BigInt`: exact integer subtraction.
#[verifier::external_body]
pub fn big_sub(a: &num_bigint::BigInt, b: &num_bigint::BigInt) -> (r: num_bigint::BigInt)
    ensures
        big_value(r) == big_value(*a) - big_value(*b),
{
    a - b
}

/// Relies on `Mul for &BigInt`: exact integer multiplication.
#[verifier::external_body]
pub fn big_mul(a: &num_bigint::BigInt, b: &num_bigint::BigInt) -> (r: num_bigint::BigInt)
    ensures
        big_value(r) == big_value(*a) * big_value(*b),
{
    a * b
}

/// Relies on `Div for &BigInt`: the quotient rounded toward zero. A zero
/// divisor panics in `num_bigint`, so it is excluded here.
#[verifier::external_body]
pub fn big_div(a: &num_bigint::BigInt, b: &num_bigint::BigInt) -> (r: num_bigint::BigInt)
    requires
        big_value(*b) > 0,
    ensures
        big_value(r) == trunc_div(big_value(*a), big_value(*b)),
{
    a / b
}

/// Relies on `num_traits::Zero::is_zero` for `BigInt`: true exactly of zero.
#[verifier::external_body]
pub fn big_is_zero(a: &num_bigint::BigInt) -> (r: bool)
    ensures
        r == (big_value(*a) == 0),
{
    num_traits::Zero::is_zero(a)
}

/// Relies on `Clone for BigInt`: the copy holds the same integer.
#[verifier::external_body]
pub fn big_clone(a: &num_bigint::BigInt) -> (r: num_bigint::BigInt)
    ensures
        big_value(r) == big_value(*a),
{
    a.clone()
}

/// Relies on `Display for BigInt`: the plain base-10 rendering, with a `-`
/// sign for negatives and no leading zeros.
#[verifier::external_body]
pub fn big_to_dec_bytes(a: &num_bigint::BigInt) -> (r: Vec<u8>)
    ensures
        r@ == crate::digits::dec_bytes_int(big_value(*a)),
{
    a.to_string().into_bytes()
}

} // verus!
