//! The arbitrary-precision unsigned integers of `num`, as far as the crate
//! relies on them.  Nothing in this file is proved: each contract restates what
//! the corresponding operation of `num::BigUint` is documented to do.

use vstd::prelude::*;
use num::BigUint;

verus! {

#[verifier::external_type_specification]
#[verifier::external_body]
pub struct ExBigUint(BigUint);

/// The natural number that a `BigUint` holds.
pub uninterp spec fn big_value(b: BigUint) -> nat;

/// `BigUint::from(u64)`: the big integer with the same value as `v`.
#[verifier::external_body]
pub(crate) fn big_from_u64(v: u64) -> (b: BigUint)
    ensures
        big_value(b) == v,
{
    BigUint::from(v)
}

/// `BigUint::bits`: the fewest bits necessary to express the value, zero for zero.
#[verifier::external_body]
pub(crate) fn big_bits(b: &BigUint) -> (len: u64)
    ensures
        len == crate::numeric::bit_length(big_value(*b)),
{
    b.bits()
}

/// `BigUint::bit`: whether the bit in the given position is set.
#[verifier::external_body]
pub(crate) fn big_bit(b: &BigUint, i: u64) -> (set: bool)
    ensures
        set == crate::numeric::bit_at(big_value(*b), i as nat),
{
    b.bit(i)
}

/// `&BigUint * &BigUint`: the exact product.
#[verifier::external_body]
pub(crate) fn big_mul(a: &BigUint, b: &BigUint) -> (p: BigUint)
    ensures
        big_value(p) == big_value(*a) * big_value(*b),
{
    a * b
}

/// `&BigUint + &BigUint`: the exact sum.
#[verifier::external_body]
pub(crate) fn big_add(a: &BigUint, b: &BigUint) -> (s: BigUint)
    ensures
        big_value(s) == big_value(*a) + big_value(*b),
{
    a + b
}

/// `&BigUint % &BigUint`: the remainder of the division; it panics on a zero
/// divisor, which the precondition rules out.
#[verifier::external_body]
pub(crate) fn big_rem(a: &BigUint, m: &BigUint) -> (x: BigUint)
    requires
        big_value(*m) > 0,
    ensures
        big_value(x) == big_value(*a) % big_value(*m),
{
    a % m
}

/// `BigUint == BigUint`: equality of the values held.
#[verifier::external_body]
pub(crate) fn big_eq(a: &BigUint, b: &BigUint) -> (same: bool)
    ensures
        same == (big_value(*a) == big_value(*b)),
{
    a == b
}

} // verus!
