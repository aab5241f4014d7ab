//! Trusted boundary around the arbitrary-precision unsigned integers of the
//! `num_bigint` crate. The verifier sees a `BigUint` as an opaque value whose
//! mathematical content is given by the uninterpreted view `nat_of`; each
//! arithmetic operation the library uses is wrapped in a function whose
//! contract states, over `nat_of`, what the crate's source shows.

use vstd::prelude::*;

use num_bigint::BigUint;
use num_integer::Integer;

verus! {

#[verifier::external_type_specification]
#[verifier::external_body]
pub struct ExBigUint(num_bigint::BigUint);

/// The natural number that a `BigUint` holds.
pub uninterp spec fn nat_of(b: BigUint) -> nat;

/// True of `m` exactly when it is the least common multiple of the nonzero
/// naturals `a` and `b`: a common multiple, and no smaller positive common
/// multiple exists.
pub open spec fn is_lcm(a: nat, b: nat, m: nat) -> bool {
    &&& m % a == 0
    &&& m % b == 0
    &&& m >= 1
    &&& forall|c: nat| c >= 1 && #[trigger] (c % a) == 0 && c % b == 0 ==> m <= c
}

/// Relies on `<BigUint as From<u64>>::from`: the big integer with the given
/// value.
#[verifier::external_body]
pub(crate) fn big_from_u64(x: u64) -> (r: BigUint)
    ensures
        nat_of(r) == x as nat,
{
    BigUint::from(x)
}

/// Relies on `<BigUint as Clone>::clone`: an equal big integer.
#[verifier::external_body]
pub(crate) fn big_clone(a: &BigUint) -> (r: BigUint)
    ensures
        nat_of(r) == nat_of(*a),
{
    a.clone()
}

/// Relies on `<&BigUint as Add>::add`: the exact sum.
#[verifier::external_body]
pub(crate) fn big_add(a: &BigUint, b: &BigUint) -> (r: BigUint)
    ensures
        nat_of(r) == nat_of(*a) + nat_of(*b),
{
    a + b
}

/// Relies on `<&BigUint as Sub>::sub`: the exact difference. The crate's
/// subtraction panics when the subtrahend is larger, so that case is excluded.
#[verifier::external_body]
pub(crate) fn big_sub(a: &BigUint, b: &BigUint) -> (r: BigUint)
    requires
        nat_of(*b) <= nat_of(*a),
    ensures
        nat_of(r) == nat_of(*a) - nat_of(*b),
{
    a - b
}

/// Relies on `<&BigUint as Mul>::mul`: the exact product.
#[verifier::external_body]
pub(crate) fn big_mul(a: &BigUint, b: &BigUint) -> (r: BigUint)
    ensures
        nat_of(r) == nat_of(*a) * nat_of(*b),
{
    a * b
}

/// Relies on `<&BigUint as Div>::div`: the quotient rounded toward zero,
/// which on unsigned values is the floor. Division by zero panics in the
/// crate and is excluded.
#[verifier::external_body]
pub(crate) fn big_div(a: &BigUint, b: &BigUint) -> (r: BigUint)
    requires
        nat_of(*b) >= 1,
    ensures
        nat_of(r) == nat_of(*a) / nat_of(*b),
{
    a / b
}

/// Relies on `<&BigUint as Rem>::rem`: the remainder of floor division.
/// Division by zero panics in the crate and is excluded.
#[verifier::external_body]
pub(crate) fn big_rem(a: &BigUint, b: &BigUint) -> (r: BigUint)
    requires
        nat_of(*b) >= 1,
    ensures
        nat_of(r) == nat_of(*a) % nat_of(*b),
{
    a % b
}

/// Relies on `BigUint::pow`: the value raised to the given power.
#[verifier::external_body]
pub(crate) fn big_pow(a: &BigUint, e: u32) -> (r: BigUint)
    ensures
        nat_of(r) == crate::arith::pow_nat(nat_of(*a), e as nat),
{
    a.pow(e)
}

/// Relies on `BigUint::sqrt`: the truncated principal square root, the
/// largest `r` with `r * r <= a`.
#[verifier::external_body]
pub(crate) fn big_sqrt(a: &BigUint) -> (r: BigUint)
    ensures
        nat_of(r) * nat_of(r) <= nat_of(*a),
        nat_of(*a) < (nat_of(r) + 1) * (nat_of(r) + 1),
{
    a.sqrt()
}

/// Relies on `num_integer::Integer::lcm` for `BigUint`: the lowest common
/// multiple, `a / gcd(a, b) * b`. On zero arguments the crate returns zero,
/// so those are excluded.
#[verifier::external_body]
pub(crate) fn big_lcm(a: &BigUint, b: &BigUint) -> (r: BigUint)
    requires
        nat_of(*a) >= 1,
        nat_of(*b) >= 1,
    ensures
        is_lcm(nat_of(*a), nat_of(*b), nat_of(r)),
{
    a.lcm(b)
}

/// Relies on `num_integer::Integer::is_even` for `BigUint`: divisibility by
/// two, read off the lowest digit.
#[verifier::external_body]
pub(crate) fn big_is_even(a: &BigUint) -> (r: bool)
    ensures
        r == (nat_of(*a) % 2 == 0),
{
    a.is_even()
}

/// Relies on `<BigUint as Ord>::cmp`: the order of the numeric values.
#[verifier::external_body]
pub(crate) fn big_le(a: &BigUint, b: &BigUint) -> (r: bool)
    ensures
        r == (nat_of(*a) <= nat_of(*b)),
{
    a <= b
}

/// Relies on `<BigUint as PartialEq>::eq`: equality of the numeric values.
#[verifier::external_body]
pub(crate) fn big_eq(a: &BigUint, b: &BigUint) -> (r: bool)
    ensures
        r == (nat_of(*a) == nat_of(*b)),
{
    a == b
}

/// Relies on `<u64 as TryFrom<&BigUint>>::try_from`: succeeds exactly on
/// values that fit, returning the value itself; larger values are excluded.
#[verifier::external_body]
pub(crate) fn big_to_u64(a: &BigUint) -> (r: u64)
    requires
        nat_of(*a) <= u64::MAX,
    ensures
        r as nat == nat_of(*a),
{
    u64::try_from(a).unwrap_or(u64::MAX)
}

} // verus!
