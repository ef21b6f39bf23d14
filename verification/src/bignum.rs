use vstd::prelude::*;

verus! {

// Arbitrary-precision integers from the `num` crate carry the exact
// numerators and denominators of every rational value in this library.
// Verus sees each `num::BigInt` as an opaque holder of one mathematical
// integer, named by `big_value`; the wrappers below state how the crate's
// arithmetic acts on that integer.

#[verifier::external_type_specification]
#[verifier::external_body]
pub struct ExBigInt(num::BigInt);

/// The integer that a `num::BigInt` holds.
pub uninterp spec fn big_value(b: num::BigInt) -> int;

/// Relies on `<num::BigInt as From<u64>>::from`: the big integer holds
/// exactly the converted value.
#[verifier::external_body]
pub(crate) fn big_from_u64(x: u64) -> (r: num::BigInt)
    ensures
        big_value(r) == x as int,
{
    num::BigInt::from(x)
}

/// Relies on `Add<&num::BigInt> for &num::BigInt`: exact integer addition.
#[verifier::external_body]
pub(crate) fn big_add(a: &num::BigInt, b: &num::BigInt) -> (r: num::BigInt)
    ensures
        big_value(r) == big_value(*a) + big_value(*b),
{
    a + b
}

/// Relies on `Mul<&num::BigInt> for &num::BigInt`: exact integer
/// multiplication.
#[verifier::external_body]
pub(crate) fn big_mul(a: &num::BigInt, b: &num::BigInt) -> (r: num::BigInt)
    ensures
        big_value(r) == big_value(*a) * big_value(*b),
{
    a * b
}

/// Relies on `PartialEq for num::BigInt`: the representation is canonical
/// (sign plus magnitude), so `==` decides equality of the held integers.
#[verifier::external_body]
pub(crate) fn big_eq(a: &num::BigInt, b: &num::BigInt) -> (r: bool)
    ensures
        r == (big_value(*a) == big_value(*b)),
{
    a == b
}

/// Relies on `Clone for num::BigInt`: the clone holds the same integer.
#[verifier::external_body]
pub(crate) fn big_clone(a: &num::BigInt) -> (r: num::BigInt)
    ensures
        big_value(r) == big_value(*a),
{
    a.clone()
}

} // verus!
