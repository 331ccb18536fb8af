//! Trusted boundary around the arbitrary-precision integers of `num_bigint`.
//!
//! A `BigInt` is opaque to the verifier; the uninterpreted function
//! [`big_value`] names the mathematical integer a `BigInt` holds, and every
//! wrapper below states, over `big_value`, exactly what the wrapped operation
//! does.  All reasoning in the rest of the crate happens on `int` through
//! these contracts.

use vstd::prelude::*;

verus! {

#[verifier::external_type_specification]
#[verifier::external_body]
pub struct ExBigInt(num_bigint::BigInt);

/// The mathematical integer held by a `BigInt`.
pub uninterp spec fn big_value(b: num_bigint::BigInt) -> int;

/// Relies on `num_bigint::BigInt::from` for `usize`: the exact integer value.
#[verifier::external_body]
pub(crate) fn big_from_usize(x: usize) -> (r: num_bigint::BigInt)
    ensures
        big_value(r) == x as int,
{
    num_bigint::BigInt::from(x)
}

/// Relies on the `Clone` impl of `num_bigint::BigInt`: an equal value.
pub assume_specification[ <num_bigint::BigInt as core::clone::Clone>::clone ](
    b: &num_bigint::BigInt,
) -> (r: num_bigint::BigInt)
    ensures
        big_value(r) == big_value(*b),
;

/// Relies on the `Add` impl of `num_bigint::BigInt`: exact integer addition.
#[verifier::external_body]
pub(crate) fn big_add(a: &num_bigint::BigInt, b: &num_bigint::BigInt) -> (r: num_bigint::BigInt)
    ensures
        big_value(r) == big_value(*a) + big_value(*b),
{
    a + b
}

/// Relies on the `Sub` impl of `num_bigint::BigInt`: exact integer subtraction.
#[verifier::external_body]
pub(crate) fn big_sub(a: &num_bigint::BigInt, b: &num_bigint::BigInt) -> (r: num_bigint::BigInt)
    ensures
        big_value(r) == big_value(*a) - big_value(*b),
{
    a - b
}

/// Relies on the `Neg` impl of `num_bigint::BigInt`: exact integer negation.
#[verifier::external_body]
pub(crate) fn big_neg(a: &num_bigint::BigInt) -> (r: num_bigint::BigInt)
    ensures
        big_value(r) == -big_value(*a),
{
    -a
}

/// Relies on the `Mul` impl of `num_bigint::BigInt`: exact integer
/// multiplication.
#[verifier::external_body]
pub(crate) fn big_mul(a: &num_bigint::BigInt, b: &num_bigint::BigInt) -> (r: num_bigint::BigInt)
    ensures
        big_value(r) == big_value(*a) * big_value(*b),
{
    a * b
}

/// Relies on the `Rem` impl of `num_bigint::BigInt`.  `%` on `BigInt`
/// truncates toward zero, which agrees with the Euclidean remainder on a
/// non-negative dividend and a positive divisor; the contract admits only
/// that case.
#[verifier::external_body]
pub(crate) fn big_rem(a: &num_bigint::BigInt, b: &num_bigint::BigInt) -> (r: num_bigint::BigInt)
    requires
        0 <= big_value(*a),
        0 < big_value(*b),
    ensures
        big_value(r) == big_value(*a) % big_value(*b),
{
    a % b
}

/// Relies on the `Div` impl of `num_bigint::BigInt`.  `/` on `BigInt`
/// truncates toward zero, which agrees with the Euclidean quotient on a
/// non-negative dividend and a positive divisor; the contract admits only
/// that case.
#[verifier::external_body]
pub(crate) fn big_div(a: &num_bigint::BigInt, b: &num_bigint::BigInt) -> (r: num_bigint::BigInt)
    requires
        0 <= big_value(*a),
        0 < big_value(*b),
    ensures
        big_value(r) == big_value(*a) / big_value(*b),
{
    a / b
}

/// Relies on the `Ord` impl of `num_bigint::BigInt`: comparison agrees with
/// the integer order.
#[verifier::external_body]
pub(crate) fn big_lt(a: &num_bigint::BigInt, b: &num_bigint::BigInt) -> (r: bool)
    ensures
        r == (big_value(*a) < big_value(*b)),
{
    a < b
}

/// Relies on `num_traits::ToPrimitive::to_usize` for `BigInt`: `Some` of the
/// exact value whenever it fits in a `usize`, which the precondition
/// guarantees.
#[verifier::external_body]
pub(crate) fn big_to_usize(a: &num_bigint::BigInt) -> (r: usize)
    requires
        0 <= big_value(*a) <= usize::MAX as int,
    ensures
        r as int == big_value(*a),
{
    num_traits::ToPrimitive::to_usize(a).unwrap()
}

/// Relies on `num_bigint::RandBigInt::gen_bigint_range` (with
/// `rand::thread_rng` supplying the generator): a value uniform in
/// `[lo, hi)`.  The function asserts `lo < hi`, which the precondition
/// guarantees; nothing beyond membership in the range is claimed of the
/// random outcome.
#[verifier::external_body]
pub(crate) fn big_rand_range(
    lo: &num_bigint::BigInt,
    hi: &num_bigint::BigInt,
) -> (r: num_bigint::BigInt)
    requires
        big_value(*lo) < big_value(*hi),
    ensures
        big_value(*lo) <= big_value(r) < big_value(*hi),
{
    let mut rng = rand::thread_rng();
    num_bigint::RandBigInt::gen_bigint_range(&mut rng, lo, hi)
}

/// Relies on `rand::random` for `bool`: a coin flip.  Nothing is claimed of
/// the outcome.
#[verifier::external_body]
pub(crate) fn coin() -> bool {
    rand::random::<bool>()
}

} // verus!
