//! Public inputs.
use vstd::prelude::*;

use crate::field::PrimeField;

verus! {

/// The public inputs of a circuit, as the values of a polynomial on the domain.
#[derive(Debug)]
pub struct PublicInputs<F> {
    /// The values. The polynomial is zero at the elements of the domain beyond the last one.
    /// The transcript takes the values as they are listed: lists that differ in trailing
    /// zeros stand for the same polynomial, but draw different challenges.
    pub evaluations: Vec<F>,
}

impl<F: PrimeField> PublicInputs<F> {
    /// The public inputs in evaluation form.
    pub fn as_evals(&self) -> (r: &Vec<F>)
        ensures
            *r == self.evaluations,
    {
        &self.evaluations
    }
}

} // verus!
