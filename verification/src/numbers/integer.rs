//! Arbitrary-precision integers, as `rug` provides them.
//!
//! Counts of models and indices of models do not fit a machine word. They
//! are values of `rug::Integer`, and nothing here looks inside one: what the
//! library knows of such a value is the mathematical integer it stands for,
//! and what it knows of `rug`'s operations is stated on the functions below,
//! which are believed, not proved.

use rug::Integer;
use vstd::arithmetic::power2::pow2;
use vstd::prelude::*;

verus! {

/// `rug::Integer`, whose inside the library does not read.
#[verifier::external_type_specification]
#[verifier::external_body]
pub struct ExInteger(Integer);

/// The mathematical integer that a `rug::Integer` stands for.
pub uninterp spec fn integer_value(n: Integer) -> int;

/// `Integer::from` on a `usize`: the integer with the same value.
#[verifier::external_body]
pub(crate) fn integer_from_usize(x: usize) -> (r: Integer)
    ensures
        integer_value(r) == x as int,
{
    Integer::from(x)
}

/// `Integer::clone`: an integer with the same value.
#[verifier::external_body]
pub(crate) fn integer_clone(a: &Integer) -> (r: Integer)
    ensures
        integer_value(r) == integer_value(*a),
{
    a.clone()
}

/// `*=` on `Integer`: the product replaces the left operand.
#[verifier::external_body]
pub(crate) fn integer_mul_assign(a: &mut Integer, b: &Integer)
    ensures
        integer_value(*final(a)) == integer_value(*old(a)) * integer_value(*b),
{
    *a *= b;
}

/// `+=` on `Integer`: the sum replaces the left operand.
#[verifier::external_body]
pub(crate) fn integer_add_assign(a: &mut Integer, b: &Integer)
    ensures
        integer_value(*final(a)) == integer_value(*old(a)) + integer_value(*b),
{
    *a += b;
}

/// `-=` on `Integer`: the difference replaces the left operand.
#[verifier::external_body]
pub(crate) fn integer_sub_assign(a: &mut Integer, b: &Integer)
    ensures
        integer_value(*final(a)) == integer_value(*old(a)) - integer_value(*b),
{
    *a -= b;
}

/// `<<=` on `Integer` with a `usize`: multiplies by 2 to the power `k`.
#[verifier::external_body]
pub(crate) fn integer_shl_assign(a: &mut Integer, k: usize)
    ensures
        integer_value(*final(a)) == integer_value(*old(a)) * pow2(k as nat),
{
    *a <<= k;
}

/// `>>=` on `Integer` with a `usize`: divides by 2 to the power `k`,
/// rounding towards minus infinity.
#[verifier::external_body]
pub(crate) fn integer_shr_assign(a: &mut Integer, k: usize)
    ensures
        integer_value(*final(a)) == integer_value(*old(a)) / (pow2(k as nat) as int),
{
    *a >>= k;
}

/// `Integer::div_rem_mut`: the quotient replaces the dividend and the
/// remainder replaces the divisor. The call panics on a zero divisor; the
/// contract speaks of a dividend that is not negative and a positive divisor,
/// where rounding towards zero and Euclidean division agree.
#[verifier::external_body]
pub(crate) fn integer_div_rem_mut(a: &mut Integer, d: &mut Integer)
    requires
        integer_value(*old(a)) >= 0,
        integer_value(*old(d)) > 0,
    ensures
        integer_value(*final(a)) == integer_value(*old(a)) / integer_value(*old(d)),
        integer_value(*final(d)) == integer_value(*old(a)) % integer_value(*old(d)),
{
    a.div_rem_mut(d);
}

/// `<` on `Integer`: the order of the integers.
#[verifier::external_body]
pub(crate) fn integer_lt(a: &Integer, b: &Integer) -> (r: bool)
    ensures
        r == (integer_value(*a) < integer_value(*b)),
{
    a < b
}

/// `Integer::is_odd`: whether the integer is odd.
#[verifier::external_body]
pub(crate) fn integer_is_odd(a: &Integer) -> (r: bool)
    ensures
        r == (integer_value(*a) % 2 == 1),
{
    a.is_odd()
}

} // verus!
