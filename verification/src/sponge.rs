//! A transcript over the BLAKE2s hash function.
use ark_bls12_381::Fr as ArkFr;
use ark_ff::{PrimeField as ArkPrimeField, UniformRand};
use ark_marlin::rng::FiatShamirRng as ArkRng;
use blake2::Blake2s;
use vstd::prelude::*;

use crate::bls12_381::Fr;
use crate::transcript::{FiatShamirRng, Log};

verus! {

/// Holds an `ark_marlin::rng::FiatShamirRng` over BLAKE2s.
///
/// What it holds is known through [`absorbed`]: the seed it was made with, what it has
/// absorbed since, and when elements were drawn from it.
#[verifier::external_body]
pub struct Sponge {
    pub(crate) rng: ArkRng<Blake2s>,
}

/// The history of the `FiatShamirRng` that the sponge holds.
pub uninterp spec fn absorbed(sponge: Sponge) -> Seq<Option<Seq<u8>>>;

/// The value of the scalar that `UniformRand::rand` draws from a `FiatShamirRng` with the
/// given history.
pub uninterp spec fn fiat_shamir_scalar(log: Seq<Option<Seq<u8>>>) -> int;

/// Wraps `FiatShamirRng::from_seed`: a generator whose history is the seed alone.
#[verifier::external_body]
fn ark_from_seed(seed: &Vec<u8>) -> (r: Sponge)
    ensures
        absorbed(r) == seq![Some(seed@)],
{
    Sponge { rng: ArkRng::from_seed(seed) }
}

/// Wraps `FiatShamirRng::absorb`: the input is added to the history.
#[verifier::external_body]
fn ark_absorb(sponge: &mut Sponge, input: &Vec<u8>)
    ensures
        absorbed(*final(sponge)) == absorbed(*old(sponge)).push(Some(input@)),
{
    sponge.rng.absorb(input);
}

/// Wraps `UniformRand::rand` of `ark_bls12_381::Fr` on a `FiatShamirRng`: the scalar is
/// determined by the history, and the draw is added to it.
#[verifier::external_body]
fn ark_rand(sponge: &mut Sponge) -> (r: Fr)
    ensures
        r.int_value() == fiat_shamir_scalar(absorbed(*old(sponge))),
        absorbed(*final(sponge)) == absorbed(*old(sponge)).push(None),
{
    Fr { limbs: ArkFr::rand(&mut sponge.rng).into_repr().0 }
}

impl FiatShamirRng<Fr> for Sponge {
    open spec fn log(&self) -> Log {
        absorbed(*self)
    }

    open spec fn drawn(log: Log) -> int {
        fiat_shamir_scalar(log)
    }

    fn from_seed(seed: &Vec<u8>) -> (r: Self) {
        ark_from_seed(seed)
    }

    fn absorb(&mut self, input: &Vec<u8>) {
        ark_absorb(self, input);
    }

    fn rand(&mut self) -> (r: Fr) {
        ark_rand(self)
    }
}

} // verus!
