//! The canonical encoding of proofs.
use vstd::prelude::*;

use crate::commitment::HomomorphicCommitment;
use crate::encoding::{
    all_encodings, decode_all, deserialize_all, lemma_all_length, lemma_all_round_trip, models,
    serialize_all, Canonical, Decoded, SerializationError,
};
use crate::evaluations::{
    CustomEvaluations, LookupEvaluations, PermutationEvaluations, ProofEvaluations,
    WireEvaluations,
};
use crate::field::PrimeField;
use crate::proof_system::Proof;

verus! {

/// What a proof is to specifications: its commitments and evaluations in the order of its
/// fields, the custom evaluations, and the openings.
pub struct ProofModel<C, E, B> {
    /// The commitments.
    pub commitments: Seq<C>,
    /// The evaluations of the wires, of the permutation and of the lookups.
    pub evaluations: Seq<E>,
    /// The labelled evaluations.
    pub custom: Seq<(Seq<char>, E)>,
    /// The openings.
    pub batch_opening: B,
}

impl<F: PrimeField + Canonical> ProofEvaluations<F> {
    /// The models of the evaluations without labels.
    pub open spec fn unlabelled(self) -> Seq<F::Model> {
        seq![
            self.wire_evals.a_eval.model(),
            self.wire_evals.b_eval.model(),
            self.wire_evals.c_eval.model(),
            self.wire_evals.d_eval.model(),
            self.perm_evals.left_sigma_eval.model(),
            self.perm_evals.right_sigma_eval.model(),
            self.perm_evals.out_sigma_eval.model(),
            self.perm_evals.permutation_eval.model(),
            self.lookup_evals.q_lookup_eval.model(),
            self.lookup_evals.z2_next_eval.model(),
            self.lookup_evals.h1_eval.model(),
            self.lookup_evals.h1_next_eval.model(),
            self.lookup_evals.h2_eval.model(),
            self.lookup_evals.f_eval.model(),
            self.lookup_evals.table_eval.model(),
            self.lookup_evals.table_next_eval.model(),
        ]
    }
}

impl<F: PrimeField + Canonical, PC: HomomorphicCommitment<F>> Canonical for Proof<F, PC> where
    PC::Commitment: Canonical,
    PC::BatchProof: Canonical,
 {
    type Model = ProofModel<
        <PC::Commitment as Canonical>::Model,
        F::Model,
        <PC::BatchProof as Canonical>::Model,
    >;

    open spec fn model(self) -> Self::Model {
        ProofModel {
            commitments: seq![
                self.a_comm.model(),
                self.b_comm.model(),
                self.c_comm.model(),
                self.d_comm.model(),
                self.z_comm.model(),
                self.f_comm.model(),
                self.h_1_comm.model(),
                self.h_2_comm.model(),
                self.z_2_comm.model(),
                self.t_1_comm.model(),
                self.t_2_comm.model(),
                self.t_3_comm.model(),
                self.t_4_comm.model(),
            ],
            evaluations: self.evaluations.unlabelled(),
            custom: self.evaluations.custom_evals.vals.model(),
            batch_opening: self.batch_opening.model(),
        }
    }

    open spec fn is_valid(m: Self::Model) -> bool {
        &&& m.commitments.len() == 13
        &&& m.evaluations.len() == 16
        &&& forall|i: int|
            0 <= i < m.commitments.len() ==> PC::Commitment::is_valid(#[trigger] m.commitments[i])
        &&& forall|i: int| 0 <= i < m.evaluations.len() ==> F::is_valid(#[trigger] m.evaluations[i])
        &&& <Vec<(String, F)> as Canonical>::is_valid(m.custom)
        &&& PC::BatchProof::is_valid(m.batch_opening)
    }

    /// The fields, one after another.
    open spec fn encoding(m: Self::Model) -> Seq<u8> {
        all_encodings::<PC::Commitment>(m.commitments) + (all_encodings::<F>(m.evaluations) + (
        <Vec<(String, F)> as Canonical>::encoding(m.custom) + PC::BatchProof::encoding(
            m.batch_opening,
        )))
    }

    open spec fn decoding(bytes: Seq<u8>) -> Decoded<Self::Model> {
        match decode_all::<PC::Commitment>(bytes, 13) {
            Err(e) => Err(e),
            Ok((commitments, i)) => match decode_all::<F>(bytes.skip(i as int), 16) {
                Err(e) => Err(e),
                Ok((evaluations, j)) => match <Vec<(String, F)> as Canonical>::decoding(
                    bytes.skip((i + j) as int),
                ) {
                    Err(e) => Err(e),
                    Ok((custom, k)) => match PC::BatchProof::decoding(
                        bytes.skip((i + j + k) as int),
                    ) {
                        Err(e) => Err(e),
                        Ok((batch_opening, l)) => Ok(
                            (
                                ProofModel { commitments, evaluations, custom, batch_opening },
                                i + j + k + l,
                            ),
                        ),
                    },
                },
            },
        }
    }

    proof fn lemma_round_trip(m: Self::Model, rest: Seq<u8>) {
        let first = all_encodings::<PC::Commitment>(m.commitments);
        let second = all_encodings::<F>(m.evaluations);
        let third = <Vec<(String, F)> as Canonical>::encoding(m.custom);
        let fourth = PC::BatchProof::encoding(m.batch_opening);
        let bytes = Self::encoding(m) + rest;
        lemma_all_round_trip::<PC::Commitment>(m.commitments, second + (third + (fourth + rest)));
        lemma_all_round_trip::<F>(m.evaluations, third + (fourth + rest));
        <Vec<(String, F)> as Canonical>::lemma_round_trip(m.custom, fourth + rest);
        PC::BatchProof::lemma_round_trip(m.batch_opening, rest);
        let i = first.len() as int;
        let j = second.len() as int;
        let k = third.len() as int;
        assert(bytes =~= first + (second + (third + (fourth + rest))));
        assert(bytes.skip(i) =~= second + (third + (fourth + rest)));
        assert(bytes.skip(i + j) =~= third + (fourth + rest));
        assert(bytes.skip(i + j + k) =~= fourth + rest);
    }

    proof fn lemma_decoded_length(bytes: Seq<u8>) {
        lemma_all_length::<PC::Commitment>(bytes, 13);
        if let Ok((commitments, i)) = decode_all::<PC::Commitment>(bytes, 13) {
            lemma_all_length::<F>(bytes.skip(i as int), 16);
            if let Ok((evaluations, j)) = decode_all::<F>(bytes.skip(i as int), 16) {
                let rest = bytes.skip((i + j) as int);
                <Vec<(String, F)> as Canonical>::lemma_decoded_length(rest);
                if let Ok((custom, k)) = <Vec<(String, F)> as Canonical>::decoding(rest) {
                    PC::BatchProof::lemma_decoded_length(bytes.skip((i + j + k) as int));
                }
            }
        }
    }

    fn serialize(&self, out: &mut Vec<u8>) {
        let ghost before = out@;
        let commitments: Vec<PC::Commitment> = vec![
            self.a_comm,
            self.b_comm,
            self.c_comm,
            self.d_comm,
            self.z_comm,
            self.f_comm,
            self.h_1_comm,
            self.h_2_comm,
            self.z_2_comm,
            self.t_1_comm,
            self.t_2_comm,
            self.t_3_comm,
            self.t_4_comm,
        ];
        let evaluations: Vec<F> = vec![
            self.evaluations.wire_evals.a_eval,
            self.evaluations.wire_evals.b_eval,
            self.evaluations.wire_evals.c_eval,
            self.evaluations.wire_evals.d_eval,
            self.evaluations.perm_evals.left_sigma_eval,
            self.evaluations.perm_evals.right_sigma_eval,
            self.evaluations.perm_evals.out_sigma_eval,
            self.evaluations.perm_evals.permutation_eval,
            self.evaluations.lookup_evals.q_lookup_eval,
            self.evaluations.lookup_evals.z2_next_eval,
            self.evaluations.lookup_evals.h1_eval,
            self.evaluations.lookup_evals.h1_next_eval,
            self.evaluations.lookup_evals.h2_eval,
            self.evaluations.lookup_evals.f_eval,
            self.evaluations.lookup_evals.table_eval,
            self.evaluations.lookup_evals.table_next_eval,
        ];
        serialize_all(&commitments, out);
        serialize_all(&evaluations, out);
        self.evaluations.custom_evals.vals.serialize(out);
        self.batch_opening.serialize(out);
        proof {
            let m = self.model();
            assert(models(commitments@) =~= m.commitments);
            assert(models(evaluations@) =~= m.evaluations);
            assert(out@ =~= before + Self::encoding(m));
        }
    }

    fn deserialize(bytes: &Vec<u8>, start: usize) -> (r: Result<
        (Self, usize),
        SerializationError,
    >) {
        let ghost whole = bytes@.skip(start as int);
        proof {
            lemma_all_length::<PC::Commitment>(whole, 13);
        }
        let (c, second) = match deserialize_all::<PC::Commitment>(bytes, start, 13) {
            Ok(read) => read,
            Err(e) => {
                return Err(e);
            },
        };
        proof {
            assert(whole.skip(second - start) =~= bytes@.skip(second as int));
            lemma_all_length::<F>(bytes@.skip(second as int), 16);
        }
        let (e, third) = match deserialize_all::<F>(bytes, second, 16) {
            Ok(read) => read,
            Err(e) => {
                return Err(e);
            },
        };
        proof {
            assert(whole.skip(third - start) =~= bytes@.skip(third as int));
        }
        let (vals, fourth) = match <Vec<(String, F)> as Canonical>::deserialize(bytes, third) {
            Ok(read) => read,
            Err(e) => {
                return Err(e);
            },
        };
        proof {
            assert(whole.skip(fourth - start) =~= bytes@.skip(fourth as int));
        }
        let (batch_opening, end) = match <PC::BatchProof as Canonical>::deserialize(
            bytes,
            fourth,
        ) {
            Ok(read) => read,
            Err(e) => {
                return Err(e);
            },
        };
        proof {
            assert(c@.len() == 13 && e@.len() == 16);
        }
        let evaluations = ProofEvaluations {
            wire_evals: WireEvaluations {
                a_eval: e[0],
                b_eval: e[1],
                c_eval: e[2],
                d_eval: e[3],
            },
            perm_evals: PermutationEvaluations {
                left_sigma_eval: e[4],
                right_sigma_eval: e[5],
                out_sigma_eval: e[6],
                permutation_eval: e[7],
            },
            lookup_evals: LookupEvaluations {
                q_lookup_eval: e[8],
                z2_next_eval: e[9],
                h1_eval: e[10],
                h1_next_eval: e[11],
                h2_eval: e[12],
                f_eval: e[13],
                table_eval: e[14],
                table_next_eval: e[15],
            },
            custom_evals: CustomEvaluations { vals },
        };
        let read_proof = Proof {
            a_comm: c[0],
            b_comm: c[1],
            c_comm: c[2],
            d_comm: c[3],
            z_comm: c[4],
            f_comm: c[5],
            h_1_comm: c[6],
            h_2_comm: c[7],
            z_2_comm: c[8],
            t_1_comm: c[9],
            t_2_comm: c[10],
            t_3_comm: c[11],
            t_4_comm: c[12],
            evaluations,
            batch_opening,
        };
        assert(read_proof.model().commitments =~= models(c@));
        assert(read_proof.model().evaluations =~= models(e@));
        Ok((read_proof, end))
    }
}

/// A proof that was written is read again as it was, whatever bytes follow it.
pub proof fn lemma_proof_round_trip<F: PrimeField + Canonical, PC: HomomorphicCommitment<F>>(
    m: <Proof<F, PC> as Canonical>::Model,
    rest: Seq<u8>,
) where PC::Commitment: Canonical, PC::BatchProof: Canonical
    requires
        <Proof<F, PC> as Canonical>::is_valid(m),
    ensures
        <Proof<F, PC> as Canonical>::decoding(<Proof<F, PC> as Canonical>::encoding(m) + rest)
            == Decoded::Ok((m, <Proof<F, PC> as Canonical>::encoding(m).len())),
{
    <Proof<F, PC> as Canonical>::lemma_round_trip(m, rest);
}

} // verus!
