//! Prime fields, as the verifier uses them.
use vstd::arithmetic::power::pow;
use vstd::prelude::*;

use crate::arithmetic::{congruent, invertible, is_inverse, reduce};
use crate::domain::GeneralEvaluationDomain;

verus! {

/// The `len` little-endian bytes of `value`.
pub open spec fn le_bytes(value: int, len: nat) -> Seq<u8> {
    Seq::new(len, |i: int| ((value / pow(256, i as nat)) % 256) as u8)
}

/// `g` has order `n` modulo `p`, and its powers below `n` are not only different from one:
/// one can divide by what separates them from it.
pub open spec fn is_primitive_root(p: int, g: int, n: nat) -> bool {
    &&& congruent(p, pow(g, n), 1)
    &&& forall|m: nat| 0 < m < n ==> invertible(p, #[trigger] pow(g, m) - 1)
}

/// The constants belong to one subgroup, and one can divide by its size.
pub open spec fn is_subgroup(p: int, size: nat, size_inv: int, gen: int, gen_inv: int) -> bool {
    &&& size > 0
    &&& is_inverse(p, size as int, size_inv)
    &&& is_inverse(p, gen, gen_inv)
    &&& is_primitive_root(p, gen, size)
}

/// A prime field with subgroups of suitable sizes.
///
/// An element stands for an integer in `0..modulus()`; every operation is described by
/// what it does to that integer.
pub trait PrimeField: Sized + Copy {
    /// The modulus of the field.
    spec fn modulus() -> int;

    /// The integer that the element stands for.
    spec fn value(self) -> int;

    /// The number of bytes that `to_bytes` writes.
    spec fn byte_len() -> nat;

    /// The largest `k` for which the field has a subgroup of size `2^k`.
    spec fn adicity() -> nat;

    /// The size of the subgroup that `general_domain` finds for `num_coeffs`, if any.
    spec fn domain_size(num_coeffs: nat) -> Option<nat>;

    /// The value of the generator of the subgroup that `general_domain` finds for
    /// `num_coeffs`.
    spec fn domain_generator(num_coeffs: nat) -> int;

    /// Values are reduced.
    proof fn lemma_value_range(x: Self)
        ensures
            0 <= x.value() < Self::modulus(),
            Self::modulus() > 1,
    ;

    /// Every value fits into the bytes that are written for it.
    proof fn lemma_byte_len()
        ensures
            Self::byte_len() > 0,
            Self::modulus() <= pow(256, Self::byte_len()),
    ;

    /// The neutral element of addition.
    fn zero() -> (r: Self)
        ensures
            r.value() == 0,
    ;

    /// The neutral element of multiplication.
    fn one() -> (r: Self)
        ensures
            r.value() == 1,
    ;

    /// The element that `x` stands for.
    fn from_u64(x: u64) -> (r: Self)
        ensures
            r.value() == reduce(Self::modulus(), x as int),
    ;

    /// Whether two elements are the same.
    fn equals(&self, other: &Self) -> (r: bool)
        ensures
            r == (self.value() == other.value()),
    ;

    /// The sum of two elements.
    fn plus(self, other: Self) -> (r: Self)
        ensures
            r.value() == reduce(Self::modulus(), self.value() + other.value()),
    ;

    /// The difference of two elements.
    fn minus(self, other: Self) -> (r: Self)
        ensures
            r.value() == reduce(Self::modulus(), self.value() - other.value()),
    ;

    /// The product of two elements.
    fn times(self, other: Self) -> (r: Self)
        ensures
            r.value() == reduce(Self::modulus(), self.value() * other.value()),
    ;

    /// The additive inverse.
    fn negate(self) -> (r: Self)
        ensures
            r.value() == reduce(Self::modulus(), -self.value()),
    ;

    /// The multiplicative inverse, which every element but zero has.
    fn inverse(self) -> (r: Option<Self>)
        ensures
            r is None <==> self.value() == 0,
            r matches Some(w) ==> is_inverse(Self::modulus(), self.value(), w.value()),
    ;

    /// The element raised to the power `exponent`.
    fn power(self, exponent: u64) -> (r: Self)
        ensures
            r.value() == reduce(Self::modulus(), pow(self.value(), exponent as nat)),
    ;

    /// Replaces every element of `elements` but the zeros by its inverse.
    fn batch_inversion(elements: &mut Vec<Self>)
        ensures
            final(elements)@.len() == old(elements)@.len(),
            forall|i: int|
                #![trigger final(elements)@[i]]
                0 <= i < old(elements)@.len() ==> if old(elements)@[i].value() == 0 {
                    final(elements)@[i].value() == 0
                } else {
                    is_inverse(
                        Self::modulus(),
                        old(elements)@[i].value(),
                        final(elements)@[i].value(),
                    )
                },
    ;

    /// The element as little-endian bytes.
    fn to_bytes(&self) -> (r: Vec<u8>)
        ensures
            r@ == le_bytes(self.value(), Self::byte_len()),
    ;

    /// The largest `k` for which the field has a subgroup of size `2^k`.
    fn two_adicity() -> (r: u32)
        ensures
            r == Self::adicity(),
    ;

    /// The subgroup that has room for `num_coeffs` coefficients, if the
    /// field has one.
    fn general_domain(num_coeffs: usize) -> (r: Option<GeneralEvaluationDomain<Self>>)
        requires
            num_coeffs <= usize::MAX / 2 + 1,
        ensures
            r is Some <==> Self::domain_size(num_coeffs as nat) is Some,
            r matches Some(d) ==> {
                &&& Self::domain_size(num_coeffs as nat) == Some(d.size as nat)
                &&& Self::domain_generator(num_coeffs as nat) == d.group_gen.value()
                &&& is_subgroup(
                    Self::modulus(),
                    d.size as nat,
                    d.size_inv.value(),
                    d.group_gen.value(),
                    d.group_gen_inv.value(),
                )
            },
    ;

    /// The square of an element.
    fn square(self) -> (r: Self)
        ensures
            r.value() == reduce(Self::modulus(), self.value() * self.value()),
    {
        self.times(self)
    }
}

} // verus!
