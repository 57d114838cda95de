//! Copies of proofs, the empty proof, and equality of proofs.
use vstd::prelude::*;
use vstd::std_specs::cmp::PartialEqSpecImpl;

use crate::bls12_381::Fr;
use crate::commitment::HomomorphicCommitment;
use crate::encoding::Canonical;
use crate::evaluations::{
    CustomEvaluations, LookupEvaluations, PermutationEvaluations, ProofEvaluations,
    WireEvaluations,
};
use crate::field::PrimeField;
use crate::g1::{g1_multiple, G1};
use crate::proof_encoding::lemma_proof_round_trip;
use crate::proof_system::Proof;

verus! {

/// The lists have the same labels and the same elements.
pub open spec fn same_entries<F>(a: Seq<(String, F)>, b: Seq<(String, F)>) -> bool {
    &&& a.len() == b.len()
    &&& forall|i: int|
        #![trigger a[i]]
        #![trigger b[i]]
        0 <= i < a.len() ==> a[i].0@ == b[i].0@ && a[i].1 == b[i].1
}

impl<F: PrimeField> Clone for ProofEvaluations<F> {
    fn clone(&self) -> (r: Self)
        ensures
            r.wire_evals == self.wire_evals,
            r.perm_evals == self.perm_evals,
            r.lookup_evals == self.lookup_evals,
            same_entries(r.custom_evals.vals@, self.custom_evals.vals@),
    {
        let entries = &self.custom_evals.vals;
        let mut vals: Vec<(String, F)> = Vec::new();
        let mut i: usize = 0;
        while i < entries.len()
            invariant
                i <= entries.len(),
                vals@.len() == i,
                forall|j: int|
                    #![trigger vals@[j]]
                    0 <= j < i ==> vals@[j].0@ == entries@[j].0@ && vals@[j].1 == entries@[j].1,
            decreases entries.len() - i,
        {
            vals.push((entries[i].0.clone(), entries[i].1));
            i = i + 1;
        }
        ProofEvaluations {
            wire_evals: WireEvaluations {
                a_eval: self.wire_evals.a_eval,
                b_eval: self.wire_evals.b_eval,
                c_eval: self.wire_evals.c_eval,
                d_eval: self.wire_evals.d_eval,
            },
            perm_evals: PermutationEvaluations {
                left_sigma_eval: self.perm_evals.left_sigma_eval,
                right_sigma_eval: self.perm_evals.right_sigma_eval,
                out_sigma_eval: self.perm_evals.out_sigma_eval,
                permutation_eval: self.perm_evals.permutation_eval,
            },
            lookup_evals: LookupEvaluations {
                q_lookup_eval: self.lookup_evals.q_lookup_eval,
                z2_next_eval: self.lookup_evals.z2_next_eval,
                h1_eval: self.lookup_evals.h1_eval,
                h1_next_eval: self.lookup_evals.h1_next_eval,
                h2_eval: self.lookup_evals.h2_eval,
                f_eval: self.lookup_evals.f_eval,
                table_eval: self.lookup_evals.table_eval,
                table_next_eval: self.lookup_evals.table_next_eval,
            },
            custom_evals: CustomEvaluations { vals },
        }
    }
}

impl<F: PrimeField, PC: HomomorphicCommitment<F>> Clone for Proof<F, PC> where
    PC::BatchProof: Clone,
 {
    fn clone(&self) -> (r: Self)
        ensures
            r.a_comm == self.a_comm,
            r.b_comm == self.b_comm,
            r.c_comm == self.c_comm,
            r.d_comm == self.d_comm,
            r.z_comm == self.z_comm,
            r.f_comm == self.f_comm,
            r.h_1_comm == self.h_1_comm,
            r.h_2_comm == self.h_2_comm,
            r.z_2_comm == self.z_2_comm,
            r.t_1_comm == self.t_1_comm,
            r.t_2_comm == self.t_2_comm,
            r.t_3_comm == self.t_3_comm,
            r.t_4_comm == self.t_4_comm,
            r.evaluations.wire_evals == self.evaluations.wire_evals,
            r.evaluations.perm_evals == self.evaluations.perm_evals,
            r.evaluations.lookup_evals == self.evaluations.lookup_evals,
            same_entries(
                r.evaluations.custom_evals.vals@,
                self.evaluations.custom_evals.vals@,
            ),
            cloned(self.batch_opening, r.batch_opening),
    {
        Proof {
            a_comm: self.a_comm,
            b_comm: self.b_comm,
            c_comm: self.c_comm,
            d_comm: self.d_comm,
            z_comm: self.z_comm,
            f_comm: self.f_comm,
            h_1_comm: self.h_1_comm,
            h_2_comm: self.h_2_comm,
            z_2_comm: self.z_2_comm,
            t_1_comm: self.t_1_comm,
            t_2_comm: self.t_2_comm,
            t_3_comm: self.t_3_comm,
            t_4_comm: self.t_4_comm,
            evaluations: self.evaluations.clone(),
            batch_opening: self.batch_opening.clone(),
        }
    }
}

impl Default for G1 {
    fn default() -> (r: Self)
        ensures
            r.exponent() == 0,
            r.coordinates() == g1_multiple(0),
    {
        G1::generator_multiple(Fr::zero())
    }
}

impl<F: PrimeField> Default for ProofEvaluations<F> {
    fn default() -> (r: Self)
        ensures
            r.listed() == Seq::new(14, |i: int| 0int),
            r.lookup_evals.table_eval.value() == 0,
            r.lookup_evals.table_next_eval.value() == 0,
            r.custom_evals.vals@.len() == 0,
    {
        let zero = F::zero();
        let r = ProofEvaluations {
            wire_evals: WireEvaluations { a_eval: zero, b_eval: zero, c_eval: zero, d_eval: zero },
            perm_evals: PermutationEvaluations {
                left_sigma_eval: zero,
                right_sigma_eval: zero,
                out_sigma_eval: zero,
                permutation_eval: zero,
            },
            lookup_evals: LookupEvaluations {
                q_lookup_eval: zero,
                z2_next_eval: zero,
                h1_eval: zero,
                h1_next_eval: zero,
                h2_eval: zero,
                f_eval: zero,
                table_eval: zero,
                table_next_eval: zero,
            },
            custom_evals: CustomEvaluations { vals: Vec::new() },
        };
        assert(r.listed() =~= Seq::new(14, |i: int| 0int));
        r
    }
}

impl<F: PrimeField, PC: HomomorphicCommitment<F>> Default for Proof<F, PC> where
    PC::Commitment: Default,
    PC::BatchProof: Default,
 {
    fn default() -> (r: Self)
        ensures
            call_ensures(PC::Commitment::default, (), r.a_comm),
            call_ensures(PC::Commitment::default, (), r.b_comm),
            call_ensures(PC::Commitment::default, (), r.c_comm),
            call_ensures(PC::Commitment::default, (), r.d_comm),
            call_ensures(PC::Commitment::default, (), r.z_comm),
            call_ensures(PC::Commitment::default, (), r.f_comm),
            call_ensures(PC::Commitment::default, (), r.h_1_comm),
            call_ensures(PC::Commitment::default, (), r.h_2_comm),
            call_ensures(PC::Commitment::default, (), r.z_2_comm),
            call_ensures(PC::Commitment::default, (), r.t_1_comm),
            call_ensures(PC::Commitment::default, (), r.t_2_comm),
            call_ensures(PC::Commitment::default, (), r.t_3_comm),
            call_ensures(PC::Commitment::default, (), r.t_4_comm),
            r.evaluations.listed() == Seq::new(14, |i: int| 0int),
            r.evaluations.lookup_evals.table_eval.value() == 0,
            r.evaluations.lookup_evals.table_next_eval.value() == 0,
            r.evaluations.custom_evals.vals@.len() == 0,
            call_ensures(PC::BatchProof::default, (), r.batch_opening),
    {
        Proof {
            a_comm: PC::Commitment::default(),
            b_comm: PC::Commitment::default(),
            c_comm: PC::Commitment::default(),
            d_comm: PC::Commitment::default(),
            z_comm: PC::Commitment::default(),
            f_comm: PC::Commitment::default(),
            h_1_comm: PC::Commitment::default(),
            h_2_comm: PC::Commitment::default(),
            z_2_comm: PC::Commitment::default(),
            t_1_comm: PC::Commitment::default(),
            t_2_comm: PC::Commitment::default(),
            t_3_comm: PC::Commitment::default(),
            t_4_comm: PC::Commitment::default(),
            evaluations: ProofEvaluations::default(),
            batch_opening: PC::BatchProof::default(),
        }
    }
}

/// Whether two lists of bytes are the same.
fn same_bytes(a: &Vec<u8>, b: &Vec<u8>) -> (r: bool)
    ensures
        r == (a@ == b@),
{
    if a.len() != b.len() {
        return false;
    }
    let mut i: usize = 0;
    while i < a.len()
        invariant
            i <= a.len(),
            a.len() == b.len(),
            forall|j: int| 0 <= j < i ==> a@[j] == b@[j],
        decreases a.len() - i,
    {
        if a[i] != b[i] {
            return false;
        }
        i = i + 1;
    }
    assert(a@ =~= b@);
    true
}

impl<F: PrimeField + Canonical, PC: HomomorphicCommitment<F>> PartialEqSpecImpl
    for Proof<F, PC> where
    PC::Commitment: Canonical,
    PC::BatchProof: Canonical,
 {
    open spec fn obeys_eq_spec() -> bool {
        true
    }

    open spec fn eq_spec(&self, other: &Self) -> bool {
        self.model() == other.model()
    }
}

/// Proofs are equal where their encodings are, which is where all their parts are.
impl<F: PrimeField + Canonical, PC: HomomorphicCommitment<F>> PartialEq for Proof<F, PC> where
    PC::Commitment: Canonical,
    PC::BatchProof: Canonical,
 {
    fn eq(&self, other: &Self) -> (r: bool) {
        let mut first: Vec<u8> = Vec::new();
        let mut second: Vec<u8> = Vec::new();
        self.serialize(&mut first);
        other.serialize(&mut second);
        proof {
            let none = Seq::<u8>::empty();
            lemma_proof_round_trip::<F, PC>(self.model(), none);
            lemma_proof_round_trip::<F, PC>(other.model(), none);
        }
        same_bytes(&first, &second)
    }
}

impl<F: PrimeField + Canonical, PC: HomomorphicCommitment<F>> Eq for Proof<F, PC> where
    PC::Commitment: Canonical,
    PC::BatchProof: Canonical,
 {

}

} // verus!
