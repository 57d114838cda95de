//! Verification of PLONK proofs.
//!
//! A [`proof_system::Proof`] is checked against the key of a circuit, the key of a commitment
//! scheme and the public inputs. The library is written for any field, commitment scheme and
//! gates; [`kzg::Kzg`] is the scheme over BLS12-381.
pub mod arithmetic;
pub mod basic_laws;
pub mod bls12_381;
pub mod byte_laws;
pub mod challenges;
pub mod claim_laws;
pub mod claims;
pub mod commitment;
pub mod domain;
pub mod encoding;
pub mod encoding_laws;
pub mod equivalence;
pub mod error;
pub mod evaluations;
pub mod field;
pub mod g1;
pub mod interpolation;
pub mod kzg;
pub mod lagrange;
pub mod linearisation;
pub mod linearisation_laws;
pub mod openings;
pub mod polynomial;
pub mod proof_encoding;
pub mod proof_system;
pub mod proof_traits;
pub mod public_inputs;
pub mod r0_laws;
pub mod residue;
pub mod sponge;
pub mod transcript;
pub mod transcript_laws;
pub mod verdict_laws;
pub mod verifier_key;
