use vstd::prelude::*;

use num::BigInt;

verus! {

#[verifier::external_type_specification]
#[verifier::external_body]
pub struct ExBigInt(BigInt);

/// The integer a BigInt holds.
pub uninterp spec fn big_value(b: BigInt) -> int;

/// Relies on num's `BigInt::from` for u64: the exact value, unchanged.
#[verifier::external_body]
pub fn big_from_u64(x: u64) -> (r: BigInt)
    ensures
        big_value(r) == x,
{
    BigInt::from(x)
}

/// Relies on num's `BigInt + u64`: exact arbitrary-precision addition.
#[verifier::external_body]
pub fn big_add_u64(a: BigInt, x: u64) -> (r: BigInt)
    ensures
        big_value(r) == big_value(a) + x,
{
    a + x
}

/// Relies on num's `BigInt * u64`: exact arbitrary-precision multiplication.
#[verifier::external_body]
pub fn big_mul_u64(a: BigInt, x: u64) -> (r: BigInt)
    ensures
        big_value(r) == big_value(a) * x,
{
    a * x
}

} // verus!
