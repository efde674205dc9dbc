//! The arbitrary-precision integers of `rug`, as the verified code sees them:
//! an opaque value with a mathematical integer behind it.
use rug::Integer;
use vstd::prelude::*;

verus! {

#[verifier::external_type_specification]
#[verifier::external_body]
pub struct ExInteger(rug::Integer);

/// The mathematical integer that a `rug::Integer` holds.
pub uninterp spec fn value_of(n: rug::Integer) -> int;

/// Relies on `From<u64> for rug::Integer`: the integer equal to `x`.
#[verifier::external_body]
pub(crate) fn from_u64(x: u64) -> (r: Integer)
    ensures
        value_of(r) == x as int,
{
    Integer::from(x)
}

/// Relies on `Mul<&Integer> for Integer`: the exact product.
#[verifier::external_body]
pub(crate) fn mul_by(a: Integer, b: &Integer) -> (r: Integer)
    ensures
        value_of(r) == value_of(a) * value_of(*b),
{
    a * b
}

/// Relies on `Add<&Integer> for Integer`: the exact sum.
#[verifier::external_body]
pub(crate) fn add_to(a: Integer, b: &Integer) -> (r: Integer)
    ensures
        value_of(r) == value_of(a) + value_of(*b),
{
    a + b
}

/// Relies on `Neg for Integer`: the negated value.
#[verifier::external_body]
pub(crate) fn negate(a: Integer) -> (r: Integer)
    ensures
        value_of(r) == -value_of(a),
{
    -a
}

/// Relies on `Pow<u32> for Integer`: `a` raised to the power `e`.
#[verifier::external_body]
pub(crate) fn power(a: Integer, e: u32) -> (r: Integer)
    ensures
        value_of(r) == vstd::arithmetic::power::pow(value_of(a), e as nat),
{
    rug::ops::Pow::pow(a, e)
}

/// The number of binary digits of `n`: 0 for 0, else `1 + bit_len(n / 2)`.
pub open spec fn bit_len(n: nat) -> nat
    decreases n,
{
    if n == 0 {
        0
    } else {
        1 + bit_len(n / 2)
    }
}

/// The absolute value of what `n` holds.
pub open spec fn abs_value(n: Integer) -> nat {
    if value_of(n) >= 0 {
        value_of(n) as nat
    } else {
        (-value_of(n)) as nat
    }
}

/// Relies on `IntegerExt64::significant_bits_64`: the number of bits needed
/// to write the absolute value.
#[verifier::external_body]
pub(crate) fn bit_length(a: &Integer) -> (r: u64)
    ensures
        r as nat == bit_len(abs_value(*a)),
{
    rug::integer::IntegerExt64::significant_bits_64(a)
}

} // verus!
