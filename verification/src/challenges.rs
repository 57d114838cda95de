//! The challenges of a proof.
use vstd::prelude::*;

use crate::commitment::{all_point_bytes, commitments_to_bytes, points, HomomorphicCommitment};
use crate::evaluations::{all_le_bytes, elements_to_bytes, ProofEvaluations};
use crate::field::{le_bytes, PrimeField};
use crate::lagrange::values;
use crate::proof_system::Proof;
use crate::public_inputs::PublicInputs;
use crate::transcript::{
    after_challenge, after_challenges, draw_challenge, lemma_after_challenges, FiatShamirRng,
    Log,
};

verus! {

/// The challenges that the verifier draws, in this order.
#[derive(Debug)]
pub struct Challenges<F> {
    /// The challenge that compresses the lookup table.
    pub zeta: F,
    /// The first permutation challenge.
    pub beta: F,
    /// The second permutation challenge.
    pub gamma: F,
    /// The first lookup permutation challenge.
    pub delta: F,
    /// The second lookup permutation challenge.
    pub epsilon: F,
    /// The challenge that separates the permutation constraints.
    pub alpha: F,
    /// The challenge that separates the range constraints.
    pub range_sep_challenge: F,
    /// The challenge that separates the logic constraints.
    pub logic_sep_challenge: F,
    /// The challenge that separates the fixed base scalar multiplication constraints.
    pub fixed_base_sep_challenge: F,
    /// The challenge that separates the curve addition constraints.
    pub var_base_sep_challenge: F,
    /// The challenge that separates the lookup constraints.
    pub lookup_sep_challenge: F,
    /// The point at which the polynomials are evaluated.
    pub z_challenge: F,
    /// The challenge that combines the openings.
    pub separation_challenge: F,
}

impl<F: PrimeField> Challenges<F> {
    /// The permutation and lookup permutation challenges are different from each other.
    pub open spec fn are_distinct(self) -> bool {
        &&& self.beta.value() != self.gamma.value()
        &&& self.beta.value() != self.delta.value()
        &&& self.beta.value() != self.epsilon.value()
        &&& self.gamma.value() != self.delta.value()
        &&& self.gamma.value() != self.epsilon.value()
        &&& self.delta.value() != self.epsilon.value()
    }

    /// Whether the permutation and lookup permutation challenges are different from each
    /// other.
    pub fn check_distinct(&self) -> (r: bool)
        ensures
            r == self.are_distinct(),
    {
        !self.beta.equals(&self.gamma) && !self.beta.equals(&self.delta) && !self.beta.equals(
            &self.epsilon,
        ) && !self.gamma.equals(&self.delta) && !self.gamma.equals(&self.epsilon)
            && !self.delta.equals(&self.epsilon)
    }
}

/// The name that every transcript starts with: the bytes of `Plonk`.
pub open spec fn protocol_name() -> Seq<u8> {
    seq![0x50u8, 0x6c, 0x6f, 0x6e, 0x6b]
}

/// The history at which `zeta` is drawn: the public inputs and the wires are fixed.
pub open spec fn wires_log<F: PrimeField, PC: HomomorphicCommitment<F>>(
    public_inputs: Seq<int>,
    wires: Seq<PC::Point>,
) -> Log {
    seq![
        Some(protocol_name()),
        Some(all_le_bytes(public_inputs, F::byte_len())),
        Some(all_point_bytes::<F, PC>(wires)),
    ]
}

/// The history at which `beta` is drawn, and `gamma`, `delta` and `epsilon` after it: the
/// lookup queries and the sorted polynomials are fixed.
pub open spec fn sorted_log<F: PrimeField, PC: HomomorphicCommitment<F>>(
    log: Log,
    f: PC::Point,
    h: Seq<PC::Point>,
) -> Log {
    after_challenge::<F, PC::Rng>(log).push(Some(PC::point_bytes(f))).push(
        Some(all_point_bytes::<F, PC>(h)),
    )
}

/// The history at which `alpha` is drawn, and the separation challenges after it: the
/// permutation polynomial is fixed.
pub open spec fn permutation_log<F: PrimeField, PC: HomomorphicCommitment<F>>(
    log: Log,
    z: PC::Point,
) -> Log {
    after_challenges::<F, PC::Rng>(log, 4).push(Some(PC::point_bytes(z)))
}

/// The history at which the evaluation point is drawn: the quotient polynomial is fixed.
pub open spec fn quotient_log<F: PrimeField, PC: HomomorphicCommitment<F>>(
    log: Log,
    t: Seq<PC::Point>,
) -> Log {
    after_challenges::<F, PC::Rng>(log, 6).push(Some(all_point_bytes::<F, PC>(t)))
}

/// The history after each of the values has been put in by itself.
pub open spec fn absorbed_each(log: Log, values: Seq<int>, len: nat) -> Log
    decreases values.len(),
{
    if values.len() == 0 {
        log
    } else {
        absorbed_each(log, values.drop_last(), len).push(Some(le_bytes(values.last(), len)))
    }
}

/// The history at which the challenge for the openings is drawn: the evaluations are fixed.
pub open spec fn evaluations_log<F: PrimeField, PC: HomomorphicCommitment<F>>(
    log: Log,
    evaluations: ProofEvaluations<F>,
) -> Log {
    absorbed_each(
        after_challenge::<F, PC::Rng>(log).push(
            Some(all_le_bytes(evaluations.listed(), F::byte_len())),
        ),
        evaluations.custom_evals.listed(),
        F::byte_len(),
    )
}

/// Putting values in one by one keeps the earlier history.
pub proof fn lemma_absorbed_each(log: Log, values: Seq<int>, len: nat)
    ensures
        absorbed_each(log, values, len).len() == log.len() + values.len(),
        log.is_prefix_of(absorbed_each(log, values, len)),
        forall|i: int|
            0 <= i < values.len() ==> #[trigger] absorbed_each(log, values, len)[log.len() + i]
                == Some(le_bytes(values[i], len)),
    decreases values.len(),
{
    let all = absorbed_each(log, values, len);
    if values.len() > 0 {
        let shorter = values.drop_last();
        let before = absorbed_each(log, shorter, len);
        lemma_absorbed_each(log, shorter, len);
        assert(all == before.push(Some(le_bytes(values.last(), len))));
        assert forall|i: int| 0 <= i < values.len() implies #[trigger] all[log.len() + i] == Some(
            le_bytes(values[i], len),
        ) by {
            if i < shorter.len() {
                assert(all[log.len() + i] == before[log.len() + i]);
            }
        }
    }
}

impl<F: PrimeField, PC: HomomorphicCommitment<F>> Proof<F, PC> {
    /// The commitments to the wires.
    pub open spec fn wire_points(self) -> Seq<PC::Point> {
        seq![
            PC::point(self.a_comm),
            PC::point(self.b_comm),
            PC::point(self.c_comm),
            PC::point(self.d_comm),
        ]
    }

    /// The commitments to the sorted polynomials.
    pub open spec fn sorted_points(self) -> Seq<PC::Point> {
        seq![PC::point(self.h_1_comm), PC::point(self.h_2_comm)]
    }

    /// The history at which `zeta` is drawn.
    pub open spec fn zeta_log(self, pub_inputs: Seq<int>) -> Log {
        wires_log::<F, PC>(pub_inputs, self.wire_points())
    }

    /// The history at which `beta` is drawn.
    pub open spec fn beta_log(self, pub_inputs: Seq<int>) -> Log {
        sorted_log::<F, PC>(
            self.zeta_log(pub_inputs),
            PC::point(self.f_comm),
            self.sorted_points(),
        )
    }

    /// The history at which `alpha` is drawn.
    pub open spec fn alpha_log(self, pub_inputs: Seq<int>) -> Log {
        permutation_log::<F, PC>(self.beta_log(pub_inputs), PC::point(self.z_comm))
    }

    /// The history at which the evaluation point is drawn.
    pub open spec fn z_log(self, pub_inputs: Seq<int>) -> Log {
        quotient_log::<F, PC>(self.alpha_log(pub_inputs), self.quotient_points())
    }

    /// The history at which the challenge for the openings is drawn.
    pub open spec fn separation_log(self, pub_inputs: Seq<int>) -> Log {
        evaluations_log::<F, PC>(self.z_log(pub_inputs), self.evaluations)
    }

    /// The challenges are those that the transcript of the proof gives.
    pub open spec fn draws(self, pub_inputs: Seq<int>, c: Challenges<F>) -> bool {
        let beta_log = self.beta_log(pub_inputs);
        let alpha_log = self.alpha_log(pub_inputs);
        &&& c.zeta.value() == PC::Rng::drawn(self.zeta_log(pub_inputs))
        &&& c.beta.value() == PC::Rng::drawn(beta_log)
        &&& c.gamma.value() == PC::Rng::drawn(after_challenges::<F, PC::Rng>(beta_log, 1))
        &&& c.delta.value() == PC::Rng::drawn(after_challenges::<F, PC::Rng>(beta_log, 2))
        &&& c.epsilon.value() == PC::Rng::drawn(after_challenges::<F, PC::Rng>(beta_log, 3))
        &&& c.alpha.value() == PC::Rng::drawn(alpha_log)
        &&& c.range_sep_challenge.value() == PC::Rng::drawn(
            after_challenges::<F, PC::Rng>(alpha_log, 1),
        )
        &&& c.logic_sep_challenge.value() == PC::Rng::drawn(
            after_challenges::<F, PC::Rng>(alpha_log, 2),
        )
        &&& c.fixed_base_sep_challenge.value() == PC::Rng::drawn(
            after_challenges::<F, PC::Rng>(alpha_log, 3),
        )
        &&& c.var_base_sep_challenge.value() == PC::Rng::drawn(
            after_challenges::<F, PC::Rng>(alpha_log, 4),
        )
        &&& c.lookup_sep_challenge.value() == PC::Rng::drawn(
            after_challenges::<F, PC::Rng>(alpha_log, 5),
        )
        &&& c.z_challenge.value() == PC::Rng::drawn(self.z_log(pub_inputs))
        &&& c.separation_challenge.value() == PC::Rng::drawn(self.separation_log(pub_inputs))
    }

    /// Draws the challenges of the proof.
    ///
    /// The verifier puts the same elements into the transcript as the prover did, and so
    /// draws the same challenges.
    pub fn draw_challenges(&self, pub_inputs: &PublicInputs<F>) -> (r: (Challenges<F>, PC::Rng))
        ensures
            self.draws(values(pub_inputs.evaluations@), r.0),
            r.1.log() == self.separation_log(values(pub_inputs.evaluations@)).push(None),
    {
        let ghost pi = values(pub_inputs.evaluations@);
        let mut name: Vec<u8> = Vec::new();
        name.push(0x50);
        name.push(0x6c);
        name.push(0x6f);
        name.push(0x6e);
        name.push(0x6b);
        assert(name@ =~= protocol_name());
        let mut fs_rng = PC::Rng::from_seed(&name);

        // Public inputs, in evaluation form.
        fs_rng.absorb(&elements_to_bytes(pub_inputs.as_evals()));

        // Commitments to the witness polynomials.
        let w_commits: Vec<PC::Commitment> = vec![
            self.a_comm,
            self.b_comm,
            self.c_comm,
            self.d_comm,
        ];
        fs_rng.absorb(&commitments_to_bytes::<F, PC>(&w_commits));
        proof {
            assert(points::<F, PC>(w_commits@) =~= self.wire_points());
            assert(fs_rng.log() =~= self.zeta_log(pi));
        }

        // Table compression challenge.
        let zeta: F = draw_challenge(&mut fs_rng);

        // Commitments to the lookup queries and to the sorted polynomials.
        fs_rng.absorb(&PC::to_bytes(&self.f_comm));
        let h_commits: Vec<PC::Commitment> = vec![self.h_1_comm, self.h_2_comm];
        fs_rng.absorb(&commitments_to_bytes::<F, PC>(&h_commits));
        proof {
            assert(points::<F, PC>(h_commits@) =~= self.sorted_points());
            assert(fs_rng.log() == self.beta_log(pi));
            reveal_with_fuel(after_challenges, 7);
        }

        // Permutation challenges.
        let beta: F = draw_challenge(&mut fs_rng);
        let gamma: F = draw_challenge(&mut fs_rng);
        let delta: F = draw_challenge(&mut fs_rng);
        let epsilon: F = draw_challenge(&mut fs_rng);

        // Commitment to the permutation polynomial.
        fs_rng.absorb(&PC::to_bytes(&self.z_comm));
        assert(fs_rng.log() == self.alpha_log(pi));

        let alpha: F = draw_challenge(&mut fs_rng);
        let range_sep_challenge: F = draw_challenge(&mut fs_rng);
        let logic_sep_challenge: F = draw_challenge(&mut fs_rng);
        let fixed_base_sep_challenge: F = draw_challenge(&mut fs_rng);
        let var_base_sep_challenge: F = draw_challenge(&mut fs_rng);
        let lookup_sep_challenge: F = draw_challenge(&mut fs_rng);

        // Commitments to the quotient polynomial.
        let t_commits: Vec<PC::Commitment> = vec![
            self.t_1_comm,
            self.t_2_comm,
            self.t_3_comm,
            self.t_4_comm,
        ];
        fs_rng.absorb(&commitments_to_bytes::<F, PC>(&t_commits));
        proof {
            assert(points::<F, PC>(t_commits@) =~= self.quotient_points());
            assert(fs_rng.log() == self.z_log(pi));
        }

        let z_challenge: F = draw_challenge(&mut fs_rng);

        // Evaluations.
        let listed: Vec<F> = vec![
            self.evaluations.wire_evals.a_eval,
            self.evaluations.wire_evals.b_eval,
            self.evaluations.wire_evals.c_eval,
            self.evaluations.wire_evals.d_eval,
            self.evaluations.perm_evals.left_sigma_eval,
            self.evaluations.perm_evals.right_sigma_eval,
            self.evaluations.perm_evals.out_sigma_eval,
            self.evaluations.perm_evals.permutation_eval,
            self.evaluations.lookup_evals.f_eval,
            self.evaluations.lookup_evals.q_lookup_eval,
            self.evaluations.lookup_evals.z2_next_eval,
            self.evaluations.lookup_evals.h1_eval,
            self.evaluations.lookup_evals.h1_next_eval,
            self.evaluations.lookup_evals.h2_eval,
        ];
        fs_rng.absorb(&elements_to_bytes(&listed));
        assert(values(listed@) =~= self.evaluations.listed());
        let ghost start = fs_rng.log();
        let ghost customs = self.evaluations.custom_evals.listed();
        let mut i: usize = 0;
        assert(customs.take(0) =~= Seq::<int>::empty());
        while i < self.evaluations.custom_evals.vals.len()
            invariant
                i <= self.evaluations.custom_evals.vals.len(),
                customs == self.evaluations.custom_evals.listed(),
                fs_rng.log() == absorbed_each(start, customs.take(i as int), F::byte_len()),
            decreases self.evaluations.custom_evals.vals.len() - i,
        {
            fs_rng.absorb(&self.evaluations.custom_evals.vals[i].1.to_bytes());
            i = i + 1;
            assert(customs.take(i as int).drop_last() =~= customs.take(i - 1));
        }
        assert(customs.take(i as int) =~= customs);

        let separation_challenge = fs_rng.rand();
        let challenges = Challenges {
            zeta,
            beta,
            gamma,
            delta,
            epsilon,
            alpha,
            range_sep_challenge,
            logic_sep_challenge,
            fixed_base_sep_challenge,
            var_base_sep_challenge,
            lookup_sep_challenge,
            z_challenge,
            separation_challenge,
        };
        (challenges, fs_rng)
    }
}

/// Where two proofs have the same history at the last challenge, the same was put in: the
/// public inputs, the commitments to the wires, to the lookup queries, to the sorted
/// polynomials, to the permutation polynomial and to the quotient polynomial, the evaluations
/// that enter the transcript together and the labelled evaluations agree in their bytes.
pub proof fn lemma_transcript_binds<F: PrimeField, PC: HomomorphicCommitment<F>>(
    first: Proof<F, PC>,
    first_inputs: Seq<int>,
    second: Proof<F, PC>,
    second_inputs: Seq<int>,
)
    requires
        first.separation_log(first_inputs) == second.separation_log(second_inputs),
    ensures
        all_le_bytes(first_inputs, F::byte_len()) == all_le_bytes(second_inputs, F::byte_len()),
        all_point_bytes::<F, PC>(first.wire_points()) == all_point_bytes::<F, PC>(
            second.wire_points(),
        ),
        PC::point_bytes(PC::point(first.f_comm)) == PC::point_bytes(PC::point(second.f_comm)),
        all_point_bytes::<F, PC>(first.sorted_points()) == all_point_bytes::<F, PC>(
            second.sorted_points(),
        ),
        PC::point_bytes(PC::point(first.z_comm)) == PC::point_bytes(PC::point(second.z_comm)),
        all_point_bytes::<F, PC>(first.quotient_points()) == all_point_bytes::<F, PC>(
            second.quotient_points(),
        ),
        all_le_bytes(first.evaluations.listed(), F::byte_len()) == all_le_bytes(
            second.evaluations.listed(),
            F::byte_len(),
        ),
        first.evaluations.custom_evals.listed().len()
            == second.evaluations.custom_evals.listed().len(),
        forall|i: int|
            0 <= i < first.evaluations.custom_evals.listed().len() ==> le_bytes(
                #[trigger] first.evaluations.custom_evals.listed()[i],
                F::byte_len(),
            ) == le_bytes(second.evaluations.custom_evals.listed()[i], F::byte_len()),
{
    lemma_history(first, first_inputs);
    lemma_history(second, second_inputs);
    let a = first.separation_log(first_inputs);
    let b = second.separation_log(second_inputs);
    let x = first.evaluations.custom_evals.listed();
    let y = second.evaluations.custom_evals.listed();
    assert(a[1] == b[1] && a[2] == b[2] && a[5] == b[5] && a[6] == b[6] && a[15] == b[15] && a[28]
        == b[28] && a[31] == b[31]);
    assert(a.len() == 32 + x.len() && b.len() == 32 + y.len());
    assert forall|i: int| 0 <= i < x.len() implies le_bytes(#[trigger] x[i], F::byte_len())
        == le_bytes(y[i], F::byte_len()) by {
        assert(a[32 + i] == Some(le_bytes(x[i], F::byte_len())));
        assert(b[32 + i] == Some(le_bytes(y[i], F::byte_len())));
    }
}

/// Where everything stands in the history of a proof.
proof fn lemma_history<F: PrimeField, PC: HomomorphicCommitment<F>>(
    p: Proof<F, PC>,
    pub_inputs: Seq<int>,
)
    ensures
        ({
            let log = p.separation_log(pub_inputs);
            let custom = p.evaluations.custom_evals.listed();
            let len = F::byte_len();
            &&& log.len() == 32 + custom.len()
            &&& log[1] == Some(all_le_bytes(pub_inputs, len))
            &&& log[2] == Some(all_point_bytes::<F, PC>(p.wire_points()))
            &&& log[5] == Some(PC::point_bytes(PC::point(p.f_comm)))
            &&& log[6] == Some(all_point_bytes::<F, PC>(p.sorted_points()))
            &&& log[15] == Some(PC::point_bytes(PC::point(p.z_comm)))
            &&& log[28] == Some(all_point_bytes::<F, PC>(p.quotient_points()))
            &&& log[31] == Some(all_le_bytes(p.evaluations.listed(), len))
            &&& forall|i: int|
                0 <= i < custom.len() ==> #[trigger] log[32 + i] == Some(le_bytes(custom[i], len))
        }),
{
    let len = F::byte_len();
    let custom = p.evaluations.custom_evals.listed();
    let beta_log = p.beta_log(pub_inputs);
    let alpha_log = p.alpha_log(pub_inputs);
    let z_log = p.z_log(pub_inputs);
    let start = after_challenge::<F, PC::Rng>(z_log).push(
        Some(all_le_bytes(p.evaluations.listed(), len)),
    );
    let log = p.separation_log(pub_inputs);
    assert(beta_log.len() == 7);
    lemma_after_challenges::<F, PC::Rng>(beta_log, 4);
    assert(alpha_log.len() == 16 && forall|i: int| 0 <= i < 7 ==> alpha_log[i] == beta_log[i]);
    lemma_after_challenges::<F, PC::Rng>(alpha_log, 6);
    assert(z_log.len() == 29 && forall|i: int| 0 <= i < 16 ==> z_log[i] == alpha_log[i]);
    assert(start.len() == 32 && forall|i: int| 0 <= i < 29 ==> start[i] == z_log[i]);
    lemma_absorbed_each(start, custom, len);
    assert(forall|i: int| 0 <= i < 32 ==> log[i] == start[i]);
    assert forall|i: int| 0 <= i < custom.len() implies #[trigger] log[32 + i] == Some(
        le_bytes(custom[i], len),
    ) by {
        assert(log[start.len() + i] == Some(le_bytes(custom[i], len)));
    }
}

} // verus!
