//! Computations with field elements whose meaning is an integer expression.
use vstd::prelude::*;

use crate::arithmetic::{
    congruent, lemma_congruent_is_reduced, lemma_difference_step, lemma_product_step,
    lemma_reduce_range, lemma_sum_step, reduce,
};
use crate::field::PrimeField;

verus! {

/// A field element that remembers which integer expression it is the reduction of.
///
/// The expression exists in proofs alone. It is built from the values of the first operands
/// by ordinary integer arithmetic, so that a long computation is described by one formula
/// that is reduced once.
pub struct Residue<F: PrimeField> {
    element: F,
    expression: Ghost<int>,
}

impl<F: PrimeField> Residue<F> {
    #[verifier::type_invariant]
    spec fn inv(self) -> bool {
        congruent(F::modulus(), self.element.value(), self.expression@)
    }

    /// The expression that the element is the reduction of.
    pub closed spec fn expression(self) -> int {
        self.expression@
    }

    /// The element `x`, which stands for its own value.
    pub fn of(x: F) -> (r: Self)
        ensures
            r.expression() == x.value(),
    {
        Residue { element: x, expression: Ghost(x.value()) }
    }

    /// The element `x` with another expression that it is the reduction of.
    pub fn with_expression(x: F, expression: Ghost<int>) -> (r: Self)
        requires
            x.value() == reduce(F::modulus(), expression@),
        ensures
            r.expression() == expression@,
    {
        proof {
            F::lemma_value_range(x);
            lemma_reduce_range(F::modulus(), expression@);
        }
        Residue { element: x, expression }
    }

    /// The element, with its value in terms of the expression.
    pub fn element(&self) -> (r: F)
        ensures
            r.value() == reduce(F::modulus(), self.expression()),
    {
        proof {
            use_type_invariant(self);
            F::lemma_value_range(self.element);
            lemma_congruent_is_reduced(F::modulus(), self.element.value(), self.expression@);
        }
        self.element
    }

    /// The sum.
    pub fn plus(&self, other: &Self) -> (r: Self)
        ensures
            r.expression() == self.expression() + other.expression(),
    {
        let element = self.element.plus(other.element);
        proof {
            use_type_invariant(self);
            use_type_invariant(other);
            F::lemma_value_range(element);
            lemma_sum_step(
                F::modulus(),
                element.value(),
                self.element.value(),
                other.element.value(),
                self.expression@,
                other.expression@,
            );
        }
        Residue { element, expression: Ghost(self.expression@ + other.expression@) }
    }

    /// The difference.
    pub fn minus(&self, other: &Self) -> (r: Self)
        ensures
            r.expression() == self.expression() - other.expression(),
    {
        let element = self.element.minus(other.element);
        proof {
            use_type_invariant(self);
            use_type_invariant(other);
            F::lemma_value_range(element);
            lemma_difference_step(
                F::modulus(),
                element.value(),
                self.element.value(),
                other.element.value(),
                self.expression@,
                other.expression@,
            );
        }
        Residue { element, expression: Ghost(self.expression@ - other.expression@) }
    }

    /// The product.
    pub fn times(&self, other: &Self) -> (r: Self)
        ensures
            r.expression() == self.expression() * other.expression(),
    {
        let element = self.element.times(other.element);
        proof {
            use_type_invariant(self);
            use_type_invariant(other);
            F::lemma_value_range(element);
            lemma_product_step(
                F::modulus(),
                element.value(),
                self.element.value(),
                other.element.value(),
                self.expression@,
                other.expression@,
            );
        }
        Residue { element, expression: Ghost(self.expression@ * other.expression@) }
    }

    /// The additive inverse.
    pub fn negate(&self) -> (r: Self)
        ensures
            r.expression() == -self.expression(),
    {
        let element = self.element.negate();
        proof {
            use_type_invariant(self);
            F::lemma_value_range(element);
            lemma_difference_step(
                F::modulus(),
                element.value(),
                0,
                self.element.value(),
                0,
                self.expression@,
            );
        }
        Residue { element, expression: Ghost(-self.expression@) }
    }

    /// The square.
    pub fn square(&self) -> (r: Self)
        ensures
            r.expression() == self.expression() * self.expression(),
    {
        self.times(self)
    }
}

} // verus!
