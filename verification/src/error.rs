//! What can go wrong when a proof is verified.
use vstd::prelude::*;

verus! {

/// The errors of [`crate::proof_system::Proof::verify`].
#[derive(Debug, PartialEq, Eq, Structural, Clone, Copy)]
pub enum Error {
    /// The field has no subgroup that has room for the circuit.
    InvalidEvalDomainSize {
        /// The number of trailing zero bits of the circuit size. This is the log size of
        /// the group where the circuit size is a power of two.
        log_size_of_group: u32,
        /// Two-adicity of the field.
        adicity: u32,
    },
    /// The openings do not match the commitments.
    ProofVerificationError,
}

} // verus!
