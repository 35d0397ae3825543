//! The unsigned-number capability that the polynomial engine is written against.

use vstd::prelude::*;
use num::BigUint;
use crate::numeric::{bit_length, bit_at, lemma_bit_length_u64};
use crate::bigint::{big_add, big_bit, big_bits, big_eq, big_from_u64, big_mul, big_rem, big_value};

verus! {

/// An unsigned integer representation: fixed-width or arbitrary precision.
///
/// Every value stands for a natural number, `value()`.  `fits(v)` says whether
/// the representation can hold `v`; the operations whose exact result might
/// not be representable ask for it.
pub trait UInt: Sized {
    /// The natural number that `self` stands for.
    spec fn value(&self) -> nat;

    /// Whether the representation can hold the number `v`.
    spec fn fits(v: nat) -> bool;

    /// What fits is closed downwards.
    proof fn lemma_fits_below(v: nat, w: nat)
        requires
            Self::fits(v),
            w <= v,
        ensures
            Self::fits(w),
    ;

    /// The representation of a 64-bit number.
    fn from_word(v: u64) -> (x: Self)
        ensures
            x.value() == v,
    ;

    /// The additive identity.
    fn zero() -> (x: Self)
        ensures
            x.value() == 0,
    ;

    /// The multiplicative identity.
    fn one() -> (x: Self)
        ensures
            x.value() == 1,
    ;

    /// The number of binary digits.
    fn bits(&self) -> (len: u64)
        ensures
            len == bit_length(self.value()),
    ;

    /// Whether the binary digit at position `i` is set.
    fn bit(&self, i: u64) -> (set: bool)
        ensures
            set == bit_at(self.value(), i as nat),
    ;

    /// The exact product.
    fn mul(&self, rhs: &Self) -> (p: Self)
        requires
            Self::fits(self.value() * rhs.value()),
        ensures
            p.value() == self.value() * rhs.value(),
    ;

    /// The exact sum.
    fn plus(&self, rhs: &Self) -> (s: Self)
        requires
            Self::fits(self.value() + rhs.value()),
        ensures
            s.value() == self.value() + rhs.value(),
    ;

    /// The remainder modulo a positive `m`.
    fn rem(&self, m: &Self) -> (x: Self)
        requires
            m.value() > 0,
        ensures
            x.value() == self.value() % m.value(),
    ;

    /// Whether two representations stand for the same number.
    fn same(&self, rhs: &Self) -> (b: bool)
        ensures
            b == (self.value() == rhs.value()),
    ;
}

impl UInt for u64 {
    open spec fn value(&self) -> nat {
        *self as nat
    }

    open spec fn fits(v: nat) -> bool {
        v <= u64::MAX
    }

    proof fn lemma_fits_below(v: nat, w: nat) {
    }

    fn from_word(v: u64) -> (x: Self) {
        v
    }

    fn zero() -> (x: Self) {
        0
    }

    fn one() -> (x: Self) {
        1
    }

    fn bits(&self) -> (len: u64) {
        let mut rest: u64 = *self;
        let mut len: u64 = 0;
        proof {
            lemma_bit_length_u64(*self);
        }
        while rest > 0
            invariant
                len + bit_length(rest as nat) == bit_length(*self as nat),
                bit_length(*self as nat) <= 64,
            decreases rest,
        {
            rest = rest / 2;
            len = len + 1;
        }
        len
    }

    fn bit(&self, i: u64) -> (set: bool) {
        if i >= 64 {
            proof {
                vstd::arithmetic::power2::lemma2_to64();
                if i > 64 {
                    vstd::arithmetic::power2::lemma_pow2_strictly_increases(64, i as nat);
                }
                vstd::arithmetic::div_mod::lemma_basic_div(*self as int, vstd::arithmetic::power2::pow2(i as nat) as int);
            }
            false
        } else {
            proof {
                vstd::bits::lemma_u64_shr_is_div(*self, i);
            }
            (*self >> i) % 2 == 1
        }
    }

    fn mul(&self, rhs: &Self) -> (p: Self) {
        *self * *rhs
    }

    fn plus(&self, rhs: &Self) -> (s: Self) {
        *self + *rhs
    }

    fn rem(&self, m: &Self) -> (x: Self) {
        *self % *m
    }

    fn same(&self, rhs: &Self) -> (b: bool) {
        *self == *rhs
    }
}

impl UInt for BigUint {
    open spec fn value(&self) -> nat {
        big_value(*self)
    }

    open spec fn fits(v: nat) -> bool {
        true
    }

    proof fn lemma_fits_below(v: nat, w: nat) {
    }

    fn from_word(v: u64) -> (x: Self) {
        big_from_u64(v)
    }

    fn zero() -> (x: Self) {
        big_from_u64(0)
    }

    fn one() -> (x: Self) {
        big_from_u64(1)
    }

    fn bits(&self) -> (len: u64) {
        big_bits(self)
    }

    fn bit(&self, i: u64) -> (set: bool) {
        big_bit(self, i)
    }

    fn mul(&self, rhs: &Self) -> (p: Self) {
        big_mul(self, rhs)
    }

    fn plus(&self, rhs: &Self) -> (s: Self) {
        big_add(self, rhs)
    }

    fn rem(&self, m: &Self) -> (x: Self) {
        big_rem(self, m)
    }

    fn same(&self, rhs: &Self) -> (b: bool) {
        big_eq(self, rhs)
    }
}

} // verus!
