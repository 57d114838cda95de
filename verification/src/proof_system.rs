//! Proofs and their verification.
use vstd::arithmetic::power::pow;
use vstd::prelude::*;

use crate::arithmetic::{
    congruent, inverse_of, lemma_congruent_product, lemma_inverse_is, lemma_reduce_range,
    lemma_reduce_small, reduce,
};
use crate::challenges::Challenges;
use crate::commitment::HomomorphicCommitment;
use crate::domain::{trailing_zero_bits, trailing_zeros, GeneralEvaluationDomain};
use crate::error::Error;
use crate::evaluations::ProofEvaluations;
use crate::field::{is_subgroup, PrimeField};
use crate::interpolation::{has_denominators, is_outside};
use crate::lagrange::{compute_first_lagrange_evaluation, first_lagrange_denominator, values};
use crate::linearisation::{gates_return, term_points, term_scalars};
use crate::public_inputs::PublicInputs;
use crate::transcript::{after_challenges, FiatShamirRng};
use crate::verifier_key::{GateConstraints, GateTerms, VerifierKey};

verus! {

/// A proof: commitments to the witness, permutation, lookup and quotient polynomials, the
/// evaluations of some of them, and the openings that tie both together.
#[derive(Debug)]
pub struct Proof<F: PrimeField, PC: HomomorphicCommitment<F>> {
    /// Commitment to the witness polynomial for the left wires.
    pub a_comm: PC::Commitment,
    /// Commitment to the witness polynomial for the right wires.
    pub b_comm: PC::Commitment,
    /// Commitment to the witness polynomial for the output wires.
    pub c_comm: PC::Commitment,
    /// Commitment to the witness polynomial for the fourth wires.
    pub d_comm: PC::Commitment,
    /// Commitment to the permutation polynomial.
    pub z_comm: PC::Commitment,
    /// Commitment to the lookup query polynomial.
    pub f_comm: PC::Commitment,
    /// Commitment to first half of sorted polynomial.
    pub h_1_comm: PC::Commitment,
    /// Commitment to second half of sorted polynomial.
    pub h_2_comm: PC::Commitment,
    /// Commitment to the lookup permutation polynomial.
    pub z_2_comm: PC::Commitment,
    /// Commitment to the first piece of the quotient polynomial.
    pub t_1_comm: PC::Commitment,
    /// Commitment to the second piece of the quotient polynomial.
    pub t_2_comm: PC::Commitment,
    /// Commitment to the third piece of the quotient polynomial.
    pub t_3_comm: PC::Commitment,
    /// Commitment to the fourth piece of the quotient polynomial.
    pub t_4_comm: PC::Commitment,
    /// Subset of all of the evaluations added to the proof.
    pub evaluations: ProofEvaluations<F>,
    /// Batch opening proof of the aggregated witnesses.
    pub batch_opening: PC::BatchProof,
}

/// The value of the first Lagrange polynomial of a domain of `n` elements at `z`.
pub open spec fn first_lagrange(p: int, n: nat, z: int) -> int {
    reduce(
        p,
        reduce(p, pow(z, n) - 1) * inverse_of(p, first_lagrange_denominator(n as int, z)),
    )
}

/// One can divide by whatever the verification divides by, on a domain of `n` elements that
/// `group_gen` generates and at the evaluation point `z`.
pub open spec fn has_quotients(
    p: int,
    pub_inputs: Seq<int>,
    n: nat,
    group_gen: int,
    z: int,
) -> bool {
    &&& is_subgroup(p, n, inverse_of(p, n as int), group_gen, inverse_of(p, group_gen))
    &&& pub_inputs.len() <= n && is_outside(p, z, group_gen, n) ==> has_denominators(
        p,
        pub_inputs,
        z,
        inverse_of(p, group_gen),
    )
}

impl<F: PrimeField, PC: HomomorphicCommitment<F>> Proof<F, PC> {
    /// The conditions under which the openings can be checked at all, on a domain of size
    /// `n`: the permutation challenges are different, the evaluation point is not the first
    /// element of the domain, the evaluations are complete, and there is one opening for
    /// each of the two points.
    pub open spec fn is_checkable(self, pub_inputs: Seq<int>, n: nat) -> bool {
        let beta_log = self.beta_log(pub_inputs);
        let beta = PC::Rng::drawn(beta_log);
        let gamma = PC::Rng::drawn(after_challenges::<F, PC::Rng>(beta_log, 1));
        let delta = PC::Rng::drawn(after_challenges::<F, PC::Rng>(beta_log, 2));
        let epsilon = PC::Rng::drawn(after_challenges::<F, PC::Rng>(beta_log, 3));
        let z = PC::Rng::drawn(self.z_log(pub_inputs));
        &&& beta != gamma
        &&& beta != delta
        &&& beta != epsilon
        &&& gamma != delta
        &&& gamma != epsilon
        &&& delta != epsilon
        &&& !congruent(F::modulus(), first_lagrange_denominator(n as int, z), 0)
        &&& self.has_shifted_evaluations()
        &&& PC::opening_count(self.batch_opening) == 2
    }

    /// The verdict may be `accepted`: there are challenges as the transcript gives them, and
    /// contributions that the gates may return for them, with which the commitment scheme
    /// accepts the openings if and only if `accepted`.
    pub open spec fn may_come_out<G: GateConstraints<F, PC>>(
        self,
        key: VerifierKey<F, PC, G>,
        verifier_key: PC::VerifierKey,
        pub_inputs: Seq<int>,
        n: nat,
        group_gen: int,
        accepted: bool,
    ) -> bool {
        exists|c: Challenges<F>, l1_eval: F, terms: GateTerms<F, PC::Commitment>| #[trigger]
            gates_return(self, key, c, l1_eval, terms) && self.draws(pub_inputs, c)
                && l1_eval.value() == first_lagrange(F::modulus(), n, c.z_challenge.value())
                && congruent(
                F::modulus(),
                l1_eval.value() * (n * (c.z_challenge.value() - 1)),
                pow(c.z_challenge.value(), n) - 1,
            ) && has_quotients(F::modulus(), pub_inputs, n, group_gen, c.z_challenge.value())
                && accepted == self.opens(
                key,
                verifier_key,
                pub_inputs,
                n,
                group_gen,
                c,
                l1_eval.value(),
                self.linearisation(terms.all(), n, c.z_challenge.value()),
                self.separation_log(pub_inputs).push(None),
            )
    }

    /// What [`Proof::verify`] returns for the proof.
    pub open spec fn is_verdict<G: GateConstraints<F, PC>>(
        self,
        key: VerifierKey<F, PC, G>,
        verifier_key: PC::VerifierKey,
        pub_inputs: Seq<int>,
        verdict: Result<(), Error>,
    ) -> bool {
        match F::domain_size(key.n as nat) {
            None => verdict == Err::<(), Error>(
                Error::InvalidEvalDomainSize {
                    log_size_of_group: trailing_zero_bits(key.n as nat) as u32,
                    adicity: F::adicity() as u32,
                },
            ),
            Some(n) => {
                &&& verdict is Err ==> verdict == Err::<(), Error>(Error::ProofVerificationError)
                &&& self.may_come_out(
                    key,
                    verifier_key,
                    pub_inputs,
                    n,
                    F::domain_generator(key.n as nat),
                    verdict is Ok,
                )
            },
        }
    }

    /// Verifies the proof on the given domain with the challenges that were drawn for it.
    fn verify_on(
        &self,
        plonk_verifier_key: &VerifierKey<F, PC, impl GateConstraints<F, PC>>,
        verifier_key: &PC::VerifierKey,
        pub_inputs: &PublicInputs<F>,
        domain: &GeneralEvaluationDomain<F>,
        challenges: &Challenges<F>,
        fs_rng: &mut PC::Rng,
    ) -> (r: Result<(), Error>)
        requires
            domain.wf(),
            self.draws(values(pub_inputs.evaluations@), *challenges),
            old(fs_rng).log() == self.separation_log(values(pub_inputs.evaluations@)).push(None),
            self.is_checkable(values(pub_inputs.evaluations@), domain.size as nat),
        ensures
            r is Err ==> r == Err::<(), Error>(Error::ProofVerificationError),
            self.may_come_out(
                *plonk_verifier_key,
                *verifier_key,
                values(pub_inputs.evaluations@),
                domain.size as nat,
                domain.group_gen.value(),
                r is Ok,
            ),
    {
        // The zero polynomial and the first Lagrange polynomial, evaluated at `z_challenge`.
        let z_challenge = challenges.z_challenge;
        let z_h_eval = domain.evaluate_vanishing_polynomial(z_challenge);
        let l1_eval = compute_first_lagrange_evaluation(domain, &z_h_eval, &z_challenge);
        let lin_comm = self.compute_linearisation_commitment(
            domain,
            challenges,
            l1_eval,
            plonk_verifier_key,
        );
        let accepted = self.check_openings(
            plonk_verifier_key,
            verifier_key,
            pub_inputs,
            domain,
            challenges,
            l1_eval,
            lin_comm,
            fs_rng,
        );
        proof {
            let p = F::modulus();
            F::lemma_value_range(z_challenge);
            lemma_inverse_is(p, domain.size as int, domain.size_inv.value());
            lemma_inverse_is(p, domain.group_gen.value(), domain.group_gen_inv.value());
            lemma_reduce_range(p, pow(z_challenge.value(), domain.size as nat) - 1);
        }
        if accepted {
            Ok(())
        } else {
            Err(Error::ProofVerificationError)
        }
    }

    /// Verifies the proof.
    ///
    /// The size of the circuit needs a next power of two, and the proof has to be one that
    /// can be checked: see [`Proof::is_checkable`]. [`Proof::try_verify`] finds out whether
    /// that is so. Where the gates have no choice in what they contribute, the result is
    /// determined by the proof, the keys and the public inputs.
    pub fn verify<G: GateConstraints<F, PC>>(
        &self,
        plonk_verifier_key: &VerifierKey<F, PC, G>,
        verifier_key: &PC::VerifierKey,
        pub_inputs: &PublicInputs<F>,
    ) -> (r: Result<(), Error>)
        requires
            plonk_verifier_key.n <= usize::MAX / 2 + 1,
            F::domain_size(plonk_verifier_key.n as nat) matches Some(n) ==> self.is_checkable(
                values(pub_inputs.evaluations@),
                n,
            ),
        ensures
            self.is_verdict(
                *plonk_verifier_key,
                *verifier_key,
                values(pub_inputs.evaluations@),
                r,
            ),
            gates_are_determined(*self, *plonk_verifier_key, values(pub_inputs.evaluations@))
                ==> forall|other: Result<(), Error>| #[trigger]
                self.is_verdict(
                    *plonk_verifier_key,
                    *verifier_key,
                    values(pub_inputs.evaluations@),
                    other,
                ) ==> other == r,
    {
        let n = plonk_verifier_key.n;
        let r = match GeneralEvaluationDomain::<F>::new(n) {
            None => Err(
                Error::InvalidEvalDomainSize {
                    log_size_of_group: trailing_zeros(n),
                    adicity: F::two_adicity(),
                },
            ),
            Some(domain) => {
                let (challenges, mut fs_rng) = self.draw_challenges(pub_inputs);
                self.verify_on(
                    plonk_verifier_key,
                    verifier_key,
                    pub_inputs,
                    &domain,
                    &challenges,
                    &mut fs_rng,
                )
            },
        };
        proof {
            let pi = values(pub_inputs.evaluations@);
            if gates_are_determined(*self, *plonk_verifier_key, pi) {
                assert forall|other: Result<(), Error>| #[trigger]
                    self.is_verdict(*plonk_verifier_key, *verifier_key, pi, other) implies other
                    == r by {
                    lemma_one_verdict(*self, *plonk_verifier_key, *verifier_key, pi, other, r);
                }
            }
        }
        r
    }

    /// Verifies the proof where it can be checked at all, and returns `None` where it
    /// cannot: see [`Proof::is_checkable`].
    pub fn try_verify<G: GateConstraints<F, PC>>(
        &self,
        plonk_verifier_key: &VerifierKey<F, PC, G>,
        verifier_key: &PC::VerifierKey,
        pub_inputs: &PublicInputs<F>,
    ) -> (r: Option<Result<(), Error>>)
        ensures
            r is Some <==> plonk_verifier_key.n <= usize::MAX / 2 + 1 && (F::domain_size(
                plonk_verifier_key.n as nat,
            ) matches Some(n) ==> self.is_checkable(values(pub_inputs.evaluations@), n)),
            r matches Some(verdict) ==> self.is_verdict(
                *plonk_verifier_key,
                *verifier_key,
                values(pub_inputs.evaluations@),
                verdict,
            ),
    {
        if plonk_verifier_key.n > usize::MAX / 2 + 1 {
            return None;
        }
        if let Some(domain) = GeneralEvaluationDomain::<F>::new(plonk_verifier_key.n) {
            let (challenges, _) = self.draw_challenges(pub_inputs);
            let custom = &self.evaluations.custom_evals;
            let denominator = F::from_u64(domain.size).times(
                challenges.z_challenge.minus(F::one()),
            );
            proof {
                lemma_denominator_is_zero::<F>(
                    domain.size,
                    challenges.z_challenge,
                    denominator,
                );
            }
            if !challenges.check_distinct() || denominator.equals(&F::zero()) || custom.find(
                &"a_next_eval".to_owned(),
            ).is_none() || custom.find(&"b_next_eval".to_owned()).is_none() || custom.find(
                &"d_next_eval".to_owned(),
            ).is_none() || PC::count_openings(&self.batch_opening) != 2 {
                return None;
            }
        }
        Some(self.verify(plonk_verifier_key, verifier_key, pub_inputs))
    }
}

/// The denominator of the first Lagrange polynomial is zero exactly where its value is.
proof fn lemma_denominator_is_zero<F: PrimeField>(n: u64, z: F, denominator: F)
    requires
        denominator.value() == reduce(
            F::modulus(),
            reduce(F::modulus(), n as int) * reduce(F::modulus(), z.value() - 1),
        ),
    ensures
        denominator.value() == 0 <==> congruent(
            F::modulus(),
            first_lagrange_denominator(n as int, z.value()),
            0,
        ),
{
    let p = F::modulus();
    F::lemma_value_range(z);
    lemma_reduce_range(p, n as int);
    lemma_reduce_range(p, z.value() - 1);
    lemma_congruent_product(
        p,
        reduce(p, n as int),
        reduce(p, z.value() - 1),
        n as int,
        z.value() - 1,
    );
    lemma_reduce_small(p, 0);
}

/// The gates have no choice in what they contribute to the linearisation of the proof.
pub open spec fn gates_are_determined<
    F: PrimeField,
    PC: HomomorphicCommitment<F>,
    G: GateConstraints<F, PC>,
>(p: Proof<F, PC>, key: VerifierKey<F, PC, G>, pub_inputs: Seq<int>) -> bool {
    forall|
        c: Challenges<F>,
        l1: F,
        terms: GateTerms<F, PC::Commitment>,
        d: Challenges<F>,
        l2: F,
        others: GateTerms<F, PC::Commitment>,
    | #[trigger]
        gates_return(p, key, c, l1, terms) && #[trigger] gates_return(p, key, d, l2, others)
            && p.draws(pub_inputs, c) && p.draws(pub_inputs, d) && l1.value() == l2.value()
            ==> term_scalars(terms.all()) == term_scalars(others.all()) && term_points::<F, PC>(
            terms.all(),
        ) == term_points::<F, PC>(others.all())
}

/// Where the gates have no choice, there is one verdict on a proof: it is determined by the
/// proof, the keys and the public inputs.
pub proof fn lemma_one_verdict<
    F: PrimeField,
    PC: HomomorphicCommitment<F>,
    G: GateConstraints<F, PC>,
>(
    p: Proof<F, PC>,
    key: VerifierKey<F, PC, G>,
    verifier_key: PC::VerifierKey,
    pub_inputs: Seq<int>,
    first: Result<(), Error>,
    second: Result<(), Error>,
)
    requires
        p.is_verdict(key, verifier_key, pub_inputs, first),
        p.is_verdict(key, verifier_key, pub_inputs, second),
        gates_are_determined(p, key, pub_inputs),
    ensures
        first == second,
{
    if let Some(n) = F::domain_size(key.n as nat) {
        let gen = F::domain_generator(key.n as nat);
        let log = p.separation_log(pub_inputs).push(None);
        let (c, l1, terms) = choose|
            c: Challenges<F>,
            l1: F,
            terms: GateTerms<F, PC::Commitment>,
        | #[trigger]
            gates_return(p, key, c, l1, terms) && p.draws(pub_inputs, c) && l1.value()
                == first_lagrange(F::modulus(), n, c.z_challenge.value()) && first is Ok == p.opens(
                key,
                verifier_key,
                pub_inputs,
                n,
                gen,
                c,
                l1.value(),
                p.linearisation(terms.all(), n, c.z_challenge.value()),
                log,
            );
        let (d, l2, others) = choose|
            d: Challenges<F>,
            l2: F,
            others: GateTerms<F, PC::Commitment>,
        | #[trigger]
            gates_return(p, key, d, l2, others) && p.draws(pub_inputs, d) && l2.value()
                == first_lagrange(F::modulus(), n, d.z_challenge.value()) && second is Ok
                == p.opens(
                key,
                verifier_key,
                pub_inputs,
                n,
                gen,
                d,
                l2.value(),
                p.linearisation(others.all(), n, d.z_challenge.value()),
                log,
            );
        assert(p.r0(pub_inputs, n, gen, c, l1.value()) == p.r0(pub_inputs, n, gen, d, l2.value()));
        assert(first is Ok == second is Ok);
        if let (Ok(a), Ok(b)) = (first, second) {
            assert(a == b);
        }
    }
}

} // verus!
