//! The arbitrary-precision integers of `num_bigint`, as the contracts see them.
//!
//! Nothing in this file is proved. Each function states what the outside
//! function it calls returns, over the integer that a `BigUint` or a `BigInt`
//! stands for.

use vstd::prelude::*;
use vstd::arithmetic::power2::pow2;
use num_bigint::{BigInt, BigUint};
use num_integer::Integer;
use num_traits::ToPrimitive;
use crate::numeric::{bit_length, gcd, is_decimal, decimal_value};

verus! {

/// `num_bigint::BigUint`, an unsigned integer of any size. Nothing of its
/// inside is seen here.
#[verifier::external_type_specification]
#[verifier::external_body]
pub struct ExBigUint(num_bigint::BigUint);

/// `num_bigint::BigInt`, a signed integer of any size. Nothing of its inside
/// is seen here.
#[verifier::external_type_specification]
#[verifier::external_body]
pub struct ExBigInt(num_bigint::BigInt);

/// The natural number that a `BigUint` stands for.
pub uninterp spec fn uint_value(b: BigUint) -> nat;

/// The integer that a `BigInt` stands for.
pub uninterp spec fn int_value(b: BigInt) -> int;

/// The values of a sequence of `BigUint`, in the same order.
pub open spec fn uint_values(s: Seq<BigUint>) -> Seq<nat> {
    Seq::new(s.len(), |i: int| uint_value(s[i]))
}

/// `BigUint::from(u64)`: the big integer with the value of `n`.
#[verifier::external_body]
pub(crate) fn uint_from_u64(n: u64) -> (r: BigUint)
    ensures
        uint_value(r) == n,
{
    BigUint::from(n)
}

/// `Clone::clone` of a `BigUint`: a second integer with the same value.
pub assume_specification[ <BigUint as Clone>::clone ](a: &BigUint) -> (r: BigUint)
    ensures
        uint_value(r) == uint_value(*a),
;

/// `BigUint::bits`: the fewest bits that express the value, none for zero.
#[verifier::external_body]
pub(crate) fn uint_bits(a: &BigUint) -> (r: u64)
    ensures
        r == bit_length(uint_value(*a)),
{
    a.bits()
}

/// `Zero::is_zero` of a `BigUint`.
#[verifier::external_body]
pub(crate) fn uint_is_zero(a: &BigUint) -> (r: bool)
    ensures
        r == (uint_value(*a) == 0),
{
    num_traits::Zero::is_zero(a)
}

/// `<` on two `BigUint`: the order of their values.
#[verifier::external_body]
pub(crate) fn uint_lt(a: &BigUint, b: &BigUint) -> (r: bool)
    ensures
        r == (uint_value(*a) < uint_value(*b)),
{
    a < b
}

/// `==` on two `BigUint`: whether their values are equal.
#[verifier::external_body]
pub(crate) fn uint_eq(a: &BigUint, b: &BigUint) -> (r: bool)
    ensures
        r == (uint_value(*a) == uint_value(*b)),
{
    a == b
}

/// `+` on two `BigUint`: the sum of their values.
#[verifier::external_body]
pub(crate) fn uint_add(a: &BigUint, b: &BigUint) -> (r: BigUint)
    ensures
        uint_value(r) == uint_value(*a) + uint_value(*b),
{
    a + b
}

/// `-` on two `BigUint`: the difference of their values. The outside function
/// panics where the second is larger than the first.
#[verifier::external_body]
pub(crate) fn uint_sub(a: &BigUint, b: &BigUint) -> (r: BigUint)
    requires
        uint_value(*b) <= uint_value(*a),
    ensures
        uint_value(r) == uint_value(*a) - uint_value(*b),
{
    a - b
}

/// `*` on two `BigUint`: the product of their values.
#[verifier::external_body]
pub(crate) fn uint_mul(a: &BigUint, b: &BigUint) -> (r: BigUint)
    ensures
        uint_value(r) == uint_value(*a) * uint_value(*b),
{
    a * b
}

/// `%` on two `BigUint`: the remainder of the first by the second. The outside
/// function panics on a zero divisor.
#[verifier::external_body]
pub(crate) fn uint_rem(a: &BigUint, m: &BigUint) -> (r: BigUint)
    requires
        uint_value(*m) != 0,
    ensures
        uint_value(r) == uint_value(*a) % uint_value(*m),
{
    a % m
}

/// `<<` of a `BigUint` by a `usize`: the value times `2^n`.
#[verifier::external_body]
pub(crate) fn uint_shl(a: &BigUint, n: usize) -> (r: BigUint)
    ensures
        uint_value(r) == uint_value(*a) * pow2(n as nat),
{
    a << n
}

/// `>>` of a `BigUint` by a `usize`: the value divided by `2^n`, rounded down.
#[verifier::external_body]
pub(crate) fn uint_shr(a: &BigUint, n: usize) -> (r: BigUint)
    ensures
        uint_value(r) == uint_value(*a) / pow2(n as nat),
{
    a >> n
}

/// `ToPrimitive::to_u64` of a `BigUint`: the value, where a `u64` can hold it.
#[verifier::external_body]
pub(crate) fn uint_to_u64(a: &BigUint) -> (r: Option<u64>)
    ensures
        r.is_some() <==> uint_value(*a) <= u64::MAX,
        r.is_some() ==> r.unwrap() == uint_value(*a),
{
    a.to_u64()
}

/// `BigUint::to_str_radix` with radix ten: the value in decimal notation,
/// which is one zero for zero and has no zero in front otherwise. Nothing is
/// said here of another radix.
#[verifier::external_body]
pub(crate) fn uint_to_str_radix(a: &BigUint, radix: u32) -> (r: String)
    requires
        radix == 10,
    ensures
        is_decimal(r@),
        decimal_value(r@) == uint_value(*a),
{
    a.to_str_radix(radix)
}

/// `BigInt::from(BigUint)`: the signed integer with the same value.
#[verifier::external_body]
pub(crate) fn int_from_uint(a: BigUint) -> (r: BigInt)
    ensures
        int_value(r) == uint_value(a),
{
    BigInt::from(a)
}

/// `Zero::zero` of `BigInt`.
#[verifier::external_body]
pub(crate) fn int_zero() -> (r: BigInt)
    ensures
        int_value(r) == 0,
{
    num_traits::Zero::zero()
}

/// `<` on two `BigInt`: the order of their values.
#[verifier::external_body]
pub(crate) fn int_lt(a: &BigInt, b: &BigInt) -> (r: bool)
    ensures
        r == (int_value(*a) < int_value(*b)),
{
    a < b
}

/// `+` on two `BigInt`: the sum of their values.
#[verifier::external_body]
pub(crate) fn int_add(a: &BigInt, b: &BigInt) -> (r: BigInt)
    ensures
        int_value(r) == int_value(*a) + int_value(*b),
{
    a + b
}

/// `BigInt::to_biguint`: the same value as an unsigned integer, unless it is
/// negative.
#[verifier::external_body]
pub(crate) fn int_to_uint(a: &BigInt) -> (r: Option<BigUint>)
    ensures
        r.is_some() <==> int_value(*a) >= 0,
        r.is_some() ==> uint_value(r.unwrap()) == int_value(*a),
{
    a.to_biguint()
}

/// `Integer::mod_floor` of a `BigInt` by a positive one: the remainder of the
/// floored division, which lies between zero and the divisor. The outside
/// function panics on a zero divisor.
#[verifier::external_body]
pub(crate) fn int_mod_floor(a: &BigInt, m: &BigInt) -> (r: BigInt)
    requires
        int_value(*m) > 0,
    ensures
        int_value(r) == int_value(*a) % int_value(*m),
{
    a.mod_floor(m)
}

/// `Integer::extended_gcd` of two `BigInt` that are not negative: the greatest
/// common divisor `g` of `a` and `b`, and two coefficients `x` and `y` with
/// `g == x * a + y * b`. Nothing is said of the size of `x` and `y`.
#[verifier::external_body]
pub(crate) fn int_extended_gcd(a: &BigInt, b: &BigInt) -> (r: (BigInt, BigInt, BigInt))
    requires
        int_value(*a) >= 0,
        int_value(*b) >= 0,
    ensures
        int_value(r.0) == gcd(int_value(*a) as nat, int_value(*b) as nat),
        int_value(r.0) == int_value(r.1) * int_value(*a) + int_value(r.2) * int_value(*b),
{
    let e = a.extended_gcd(b);
    (e.gcd, e.x, e.y)
}

} // verus!
