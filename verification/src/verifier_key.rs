//! What the verifier knows of a circuit.
use vstd::prelude::*;

use crate::commitment::HomomorphicCommitment;
use crate::evaluations::ProofEvaluations;
use crate::field::PrimeField;

verus! {

/// Commitments to the columns of the lookup table.
#[derive(Debug)]
pub struct LookupVerifierKey<C> {
    /// Commitment to the first column.
    pub table_1: C,
    /// Commitment to the second column.
    pub table_2: C,
    /// Commitment to the third column.
    pub table_3: C,
    /// Commitment to the fourth column.
    pub table_4: C,
}

/// Commitments to the polynomials of the copy constraints.
#[derive(Debug)]
pub struct PermutationVerifierKey<C> {
    /// Commitment to the left sigma polynomial.
    pub left_sigma: C,
    /// Commitment to the right sigma polynomial.
    pub right_sigma: C,
    /// Commitment to the out sigma polynomial.
    pub out_sigma: C,
}

/// What the gates of a circuit contribute to the linearisation commitment.
///
/// Each method returns scalars, each with the commitment that it multiplies. What they are
/// is up to the gates.
pub trait GateConstraints<F: PrimeField, PC: HomomorphicCommitment<F>>: Sized {
    /// The contribution of the arithmetic gates.
    fn arithmetic(&self, evaluations: &ProofEvaluations<F>) -> Vec<(F, PC::Commitment)>;

    /// The contribution of the range gates.
    fn range(
        &self,
        selector: &PC::Commitment,
        separation_challenge: F,
        evaluations: &ProofEvaluations<F>,
    ) -> Vec<(F, PC::Commitment)>;

    /// The contribution of the logic gates.
    fn logic(
        &self,
        selector: &PC::Commitment,
        separation_challenge: F,
        evaluations: &ProofEvaluations<F>,
    ) -> Vec<(F, PC::Commitment)>;

    /// The contribution of the fixed base scalar multiplication gates.
    fn fixed_base_scalar_mul(
        &self,
        selector: &PC::Commitment,
        separation_challenge: F,
        evaluations: &ProofEvaluations<F>,
    ) -> Vec<(F, PC::Commitment)>;

    /// The contribution of the curve addition gates.
    fn curve_addition(
        &self,
        selector: &PC::Commitment,
        separation_challenge: F,
        evaluations: &ProofEvaluations<F>,
    ) -> Vec<(F, PC::Commitment)>;

    /// The contribution of the lookups. `challenges` are `delta`, `epsilon` and `zeta`.
    fn lookup(
        &self,
        key: &LookupVerifierKey<PC::Commitment>,
        evaluations: &ProofEvaluations<F>,
        challenges: (F, F, F),
        separation_challenge: F,
        l1_eval: F,
        z_2_comm: PC::Commitment,
        h_1_comm: PC::Commitment,
    ) -> Vec<(F, PC::Commitment)>;

    /// The contribution of the copy constraints. `challenges` are `alpha`, `beta` and `gamma`.
    fn permutation(
        &self,
        key: &PermutationVerifierKey<PC::Commitment>,
        evaluations: &ProofEvaluations<F>,
        z_challenge: F,
        challenges: (F, F, F),
        l1_eval: F,
        z_comm: PC::Commitment,
    ) -> Vec<(F, PC::Commitment)>;
}

/// The verifier's key of a circuit whose gates are `G`.
pub struct VerifierKey<F: PrimeField, PC: HomomorphicCommitment<F>, G> {
    /// Circuit size.
    pub n: usize,
    /// The gates, with what they need to know of the circuit.
    pub gates: G,
    /// Commitment to the selector of the range gates.
    pub range_selector_commitment: PC::Commitment,
    /// Commitment to the selector of the logic gates.
    pub logic_selector_commitment: PC::Commitment,
    /// Commitment to the selector of the fixed base scalar multiplication gates.
    pub fixed_group_add_selector_commitment: PC::Commitment,
    /// Commitment to the selector of the curve addition gates.
    pub variable_group_add_selector_commitment: PC::Commitment,
    /// Commitments to the lookup table.
    pub lookup: LookupVerifierKey<PC::Commitment>,
    /// Commitments to the permutation polynomials.
    pub permutation: PermutationVerifierKey<PC::Commitment>,
}

/// What all gates of a circuit contribute to one linearisation commitment.
pub struct GateTerms<F, C> {
    /// The contribution of the arithmetic gates.
    pub arithmetic: Vec<(F, C)>,
    /// The contribution of the range gates.
    pub range: Vec<(F, C)>,
    /// The contribution of the logic gates.
    pub logic: Vec<(F, C)>,
    /// The contribution of the fixed base scalar multiplication gates.
    pub fixed_base_scalar_mul: Vec<(F, C)>,
    /// The contribution of the curve addition gates.
    pub curve_addition: Vec<(F, C)>,
    /// The contribution of the lookups.
    pub lookup: Vec<(F, C)>,
    /// The contribution of the copy constraints.
    pub permutation: Vec<(F, C)>,
}

impl<F, C> GateTerms<F, C> {
    /// All contributions, in the order in which they enter the commitment.
    pub open spec fn all(self) -> Seq<(F, C)> {
        self.arithmetic@ + self.range@ + self.logic@ + self.fixed_base_scalar_mul@
            + self.curve_addition@ + self.lookup@ + self.permutation@
    }
}

} // verus!
