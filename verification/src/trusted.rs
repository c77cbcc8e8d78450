//! The trusted boundary: `num_bigint::BigUint` and `rand::rngs::ThreadRng`.
//!
//! Verus does not look inside either type. A `BigUint` is modelled by the
//! natural number it denotes, [`value`]. Each function below wraps one
//! operation of an outside crate and states, without proof, what that
//! operation does to the denoted numbers. Nothing else in the crate is taken
//! on trust.

use num_bigint::BigUint;
use rand::rngs::ThreadRng;
use rand::Rng;
use vstd::arithmetic::power::pow;
use vstd::prelude::*;

verus! {

/// `num_bigint::BigUint`, opaque to the verifier.
#[verifier::external_type_specification]
#[verifier::external_body]
pub struct ExBigUint(BigUint);

/// `rand::rngs::ThreadRng`, opaque to the verifier.
#[verifier::external_type_specification]
#[verifier::external_body]
pub struct ExThreadRng(ThreadRng);

/// The natural number that a `BigUint` denotes.
pub uninterp spec fn value(n: BigUint) -> nat;

/// `From<u8>::from` for `BigUint`: the big integer that denotes `x`.
#[verifier::external_body]
pub(crate) fn from_u8(x: u8) -> (r: BigUint)
    ensures
        value(r) == x,
{
    BigUint::from(x)
}

/// `PartialEq::eq` on `BigUint`: two big integers are equal exactly when
/// they denote the same number. The outside crate keeps its digits without
/// leading zeros, so that comparing digits compares numbers.
#[verifier::external_body]
pub(crate) fn equal(a: &BigUint, b: &BigUint) -> (r: bool)
    ensures
        r == (value(*a) == value(*b)),
{
    a == b
}

/// `PartialOrd::gt` on `BigUint`: the order of big integers is the order of
/// the numbers they denote.
#[verifier::external_body]
pub(crate) fn greater(a: &BigUint, b: &BigUint) -> (r: bool)
    ensures
        r == (value(*a) > value(*b)),
{
    a > b
}

/// `Add::add` on two `&BigUint`: the sum.
#[verifier::external_body]
pub(crate) fn sum(a: &BigUint, b: &BigUint) -> (r: BigUint)
    ensures
        value(r) == value(*a) + value(*b),
{
    a + b
}

/// `Sub::sub` on two `&BigUint`: the difference. The outside crate panics
/// when the result would be negative, so the subtrahend may not exceed the
/// minuend.
#[verifier::external_body]
pub(crate) fn difference(a: &BigUint, b: &BigUint) -> (r: BigUint)
    requires
        value(*b) <= value(*a),
    ensures
        value(r) == value(*a) - value(*b),
{
    a - b
}

/// `Mul::mul` on two `&BigUint`: the product.
#[verifier::external_body]
pub(crate) fn product(a: &BigUint, b: &BigUint) -> (r: BigUint)
    ensures
        value(r) == value(*a) * value(*b),
{
    a * b
}

/// `Div::div` on two `&BigUint`: the quotient, rounded down. The outside
/// crate panics on a zero divisor.
#[verifier::external_body]
pub(crate) fn quotient(a: &BigUint, b: &BigUint) -> (r: BigUint)
    requires
        value(*b) != 0,
    ensures
        value(r) == value(*a) / value(*b),
{
    a / b
}

/// `Rem::rem` on two `&BigUint`: the remainder. The outside crate panics on
/// a zero divisor.
#[verifier::external_body]
pub(crate) fn remainder(a: &BigUint, b: &BigUint) -> (r: BigUint)
    requires
        value(*b) != 0,
    ensures
        value(r) == value(*a) % value(*b),
{
    a % b
}

/// `BigUint::pow`: the base raised to a machine-sized exponent.
#[verifier::external_body]
pub(crate) fn power(a: &BigUint, exponent: u32) -> (r: BigUint)
    ensures
        value(r) == pow(value(*a) as int, exponent as nat),
{
    a.pow(exponent)
}

/// `rand::thread_rng`: a handle on this thread's generator. Nothing is
/// promised of its state.
#[verifier::external_body]
pub(crate) fn thread_generator() -> ThreadRng {
    rand::thread_rng()
}

/// `Rng::gen_range` on big integers: some number from `low` up to, but not
/// including, `high`. Which one is left open, and two calls may differ. The
/// outside crate panics on an empty range.
#[verifier::external_body]
pub(crate) fn draw_between(generator: &mut ThreadRng, low: &BigUint, high: &BigUint) -> (r:
    BigUint)
    requires
        value(*low) < value(*high),
    ensures
        value(*low) <= value(r) < value(*high),
{
    generator.gen_range(low, high)
}

} // verus!
