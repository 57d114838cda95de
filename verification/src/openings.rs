//! What the openings of a proof have to show.
use vstd::arithmetic::power::lemma_pow1;
use vstd::prelude::*;

use crate::arithmetic::{
    inverse_of, lemma_congruent_difference, lemma_inverse_is, lemma_reduce_range,
    lemma_reduce_small, reduce,
};
use crate::challenges::Challenges;
use crate::claims::{
    add_claims, asked_at, claimed_at, labelled, lemma_asked_at, lemma_claims_kept_apart,
    lemma_two_points_answered, numbered_label,
};
use crate::commitment::{
    is_answered, point_labels, points, EvaluationsModel, HomomorphicCommitment, QueryModel,
};
use crate::domain::GeneralEvaluationDomain;
use crate::field::PrimeField;
use crate::interpolation::{has_denominators, is_outside};
use crate::lagrange::{barycentric_eval, values};
use crate::linearisation::r0_value;
use crate::proof_system::Proof;
use crate::public_inputs::PublicInputs;
use crate::residue::Residue;
use crate::transcript::{FiatShamirRng, Log};
use crate::verifier_key::VerifierKey;

verus! {

/// What the openings have to show: commitments with their labels, the points at which they
/// are opened, and the values that they take there.
pub struct Statement<Point> {
    /// The labelled commitments.
    pub commitments: Seq<(Seq<char>, Point)>,
    /// Which commitment is opened where.
    pub queries: Set<QueryModel>,
    /// The claimed values.
    pub evaluations: EvaluationsModel,
}

/// The statement that some commitments take the values `w_values` at `z`, and others the
/// values `saw_values` at `omega_z`.
pub open spec fn two_point_statement<Point>(
    w_points: Seq<Point>,
    w_values: Seq<int>,
    z: int,
    saw_points: Seq<Point>,
    saw_values: Seq<int>,
    omega_z: int,
) -> Statement<Point> {
    Statement {
        commitments: labelled("w_"@, w_points) + labelled("saw_"@, saw_points),
        queries: asked_at("w_"@, w_points.len(), "z"@, z).union(
            asked_at("saw_"@, saw_points.len(), "omega_z"@, omega_z),
        ),
        evaluations: claimed_at("w_"@, w_values, z).union_prefer_right(
            claimed_at("saw_"@, saw_values, omega_z),
        ),
    }
}

impl<F: PrimeField, PC: HomomorphicCommitment<F>> Proof<F, PC> {
    /// The evaluations that the openings need are all there.
    pub open spec fn has_shifted_evaluations(self) -> bool {
        let custom = self.evaluations.custom_evals;
        custom.contains("a_next_eval"@) && custom.contains("b_next_eval"@) && custom.contains(
            "d_next_eval"@,
        )
    }

    /// The combination of the columns of the lookup table.
    pub open spec fn table_point<G>(key: VerifierKey<F, PC, G>, zeta: int) -> PC::Point {
        let p = F::modulus();
        PC::combination(
            seq![
                PC::point(key.lookup.table_1),
                PC::point(key.lookup.table_2),
                PC::point(key.lookup.table_3),
                PC::point(key.lookup.table_4),
            ],
            seq![1, zeta, reduce(p, zeta * zeta), reduce(p, zeta * zeta * zeta)],
        )
    }

    /// The value of `r_0` for the proof, on the domain of size `n` that `group_gen`
    /// generates.
    pub open spec fn r0(
        self,
        pub_inputs: Seq<int>,
        n: nat,
        group_gen: int,
        c: Challenges<F>,
        l1_eval: int,
    ) -> int {
        let p = F::modulus();
        r0_value(
            self.evaluations,
            barycentric_eval(
                p,
                pub_inputs,
                c.z_challenge.value(),
                n,
                inverse_of(p, n as int),
                inverse_of(p, group_gen),
            ),
            c.alpha.value(),
            c.beta.value(),
            c.gamma.value(),
            c.delta.value(),
            c.epsilon.value(),
            l1_eval,
            self.evaluations.perm_evals.permutation_eval.value(),
            self.evaluations.lookup_evals.z2_next_eval.value(),
            self.evaluations.lookup_evals.h1_next_eval.value(),
            self.evaluations.lookup_evals.h2_eval.value(),
            c.lookup_sep_challenge.value(),
        )
    }

    /// What the openings of the proof have to show, where `lin` is the linearisation
    /// commitment: at `z` the linearisation is `-r_0`, and the other polynomials take the
    /// values that the proof lists, at `z` and at `z * omega`.
    pub open spec fn statement<G>(
        self,
        key: VerifierKey<F, PC, G>,
        c: Challenges<F>,
        r0: int,
        lin: PC::Point,
        group_gen: int,
    ) -> Statement<PC::Point> {
        let p = F::modulus();
        let z = c.z_challenge.value();
        let table = Self::table_point(key, c.zeta.value());
        let wires = self.evaluations.wire_evals;
        let perm = self.evaluations.perm_evals;
        let lookup = self.evaluations.lookup_evals;
        let custom = self.evaluations.custom_evals;
        two_point_statement(
            seq![
                lin,
                PC::point(key.permutation.left_sigma),
                PC::point(key.permutation.right_sigma),
                PC::point(key.permutation.out_sigma),
                PC::point(self.f_comm),
                PC::point(self.h_2_comm),
                table,
                PC::point(self.a_comm),
                PC::point(self.b_comm),
                PC::point(self.c_comm),
                PC::point(self.d_comm),
            ],
            seq![
                reduce(p, -r0),
                perm.left_sigma_eval.value(),
                perm.right_sigma_eval.value(),
                perm.out_sigma_eval.value(),
                lookup.f_eval.value(),
                lookup.h2_eval.value(),
                lookup.table_eval.value(),
                wires.a_eval.value(),
                wires.b_eval.value(),
                wires.c_eval.value(),
                wires.d_eval.value(),
            ],
            z,
            seq![
                PC::point(self.z_comm),
                PC::point(self.a_comm),
                PC::point(self.b_comm),
                PC::point(self.d_comm),
                PC::point(self.h_1_comm),
                PC::point(self.z_2_comm),
                table,
            ],
            seq![
                perm.permutation_eval.value(),
                custom.value_of("a_next_eval"@),
                custom.value_of("b_next_eval"@),
                custom.value_of("d_next_eval"@),
                lookup.h1_next_eval.value(),
                lookup.z2_next_eval.value(),
                lookup.table_next_eval.value(),
            ],
            reduce(p, z * group_gen),
        )
    }

    /// Whether the commitment scheme accepts the openings of the proof, where `lin` is the
    /// linearisation commitment and `log` is the history of the transcript.
    pub open spec fn opens<G>(
        self,
        key: VerifierKey<F, PC, G>,
        verifier_key: PC::VerifierKey,
        pub_inputs: Seq<int>,
        n: nat,
        group_gen: int,
        c: Challenges<F>,
        l1_eval: int,
        lin: PC::Point,
        log: Log,
    ) -> bool {
        let statement = self.statement(
            key,
            c,
            self.r0(pub_inputs, n, group_gen, c, l1_eval),
            lin,
            group_gen,
        );
        PC::accepts(
            verifier_key,
            statement.commitments,
            statement.queries,
            statement.evaluations,
            self.batch_opening,
            c.separation_challenge.value(),
            log,
        )
    }

    /// Computes the commitment to the compressed lookup table.
    pub fn compute_table_commitment<G>(plonk_verifier_key: &VerifierKey<F, PC, G>, zeta: F) -> (r:
        PC::Commitment)
        ensures
            PC::point(r) == Self::table_point(*plonk_verifier_key, zeta.value()),
    {
        let key = &plonk_verifier_key.lookup;
        let z = Residue::of(zeta);
        let zeta_sq = z.square();
        let zeta_cu = zeta_sq.times(&z);
        let tables: Vec<PC::Commitment> = vec![key.table_1, key.table_2, key.table_3, key.table_4];
        let scalars: Vec<F> = vec![F::one(), zeta, zeta_sq.element(), zeta_cu.element()];
        proof {
            let p = F::modulus();
            assert(points::<F, PC>(tables@) =~= seq![
                PC::point(key.table_1),
                PC::point(key.table_2),
                PC::point(key.table_3),
                PC::point(key.table_4),
            ]);
            assert(values(scalars@) =~= seq![
                1,
                zeta.value(),
                reduce(p, zeta.value() * zeta.value()),
                reduce(p, zeta.value() * zeta.value() * zeta.value()),
            ]);
        }
        PC::multi_scalar_mul(&tables, &scalars)
    }

    /// Lists what the openings have to show.
    pub fn collect_claims<G>(
        &self,
        plonk_verifier_key: &VerifierKey<F, PC, G>,
        challenges: &Challenges<F>,
        domain: &GeneralEvaluationDomain<F>,
        r0: F,
        lin_comm: PC::Commitment,
    ) -> (r: PC::Claims)
        requires
            self.has_shifted_evaluations(),
        ensures
            ({
                let statement = self.statement(
                    *plonk_verifier_key,
                    *challenges,
                    r0.value(),
                    PC::point(lin_comm),
                    domain.group_gen.value(),
                );
                &&& PC::commitments(r) == statement.commitments
                &&& PC::queries(r) == statement.queries
                &&& PC::evaluations(r) == statement.evaluations
                &&& is_answered(statement.commitments, statement.queries, statement.evaluations)
                &&& point_labels(statement.queries).len() == 2
            }),
    {
        let table_comm = Self::compute_table_commitment(plonk_verifier_key, challenges.zeta);
        let wires = &self.evaluations.wire_evals;
        let perm = &self.evaluations.perm_evals;
        let lookup = &self.evaluations.lookup_evals;
        let custom = &self.evaluations.custom_evals;

        let w_commits: Vec<PC::Commitment> = vec![
            lin_comm,
            plonk_verifier_key.permutation.left_sigma,
            plonk_verifier_key.permutation.right_sigma,
            plonk_verifier_key.permutation.out_sigma,
            self.f_comm,
            self.h_2_comm,
            table_comm,
            self.a_comm,
            self.b_comm,
            self.c_comm,
            self.d_comm,
        ];
        let saw_commits: Vec<PC::Commitment> = vec![
            self.z_comm,
            self.a_comm,
            self.b_comm,
            self.d_comm,
            self.h_1_comm,
            self.z_2_comm,
            table_comm,
        ];
        let w_evals: Vec<F> = vec![
            r0.negate(),
            perm.left_sigma_eval,
            perm.right_sigma_eval,
            perm.out_sigma_eval,
            lookup.f_eval,
            lookup.h2_eval,
            lookup.table_eval,
            wires.a_eval,
            wires.b_eval,
            wires.c_eval,
            wires.d_eval,
        ];
        let saw_evals: Vec<F> = vec![
            perm.permutation_eval,
            custom.get("a_next_eval"),
            custom.get("b_next_eval"),
            custom.get("d_next_eval"),
            lookup.h1_next_eval,
            lookup.z2_next_eval,
            lookup.table_next_eval,
        ];

        let z_challenge = challenges.z_challenge;
        let shifted = z_challenge.times(domain.element(1));
        let z_label = "z".to_owned();
        let omega_z_label = "omega_z".to_owned();
        let mut claims = PC::no_claims();
        add_claims::<F, PC>(&mut claims, "w_", &w_commits, &z_label, z_challenge, &w_evals);
        add_claims::<F, PC>(&mut claims, "saw_", &saw_commits, &omega_z_label, shifted, &saw_evals);
        proof {
            let p = F::modulus();
            let gen = domain.group_gen.value();
            lemma_pow1(gen);
            F::lemma_value_range(domain.group_gen);
            lemma_reduce_small(p, gen);
            let statement = self.statement(
                *plonk_verifier_key,
                *challenges,
                r0.value(),
                PC::point(lin_comm),
                gen,
            );
            let w_points = points::<F, PC>(w_commits@);
            let saw_points = points::<F, PC>(saw_commits@);
            assert(statement == two_point_statement(
                w_points,
                values(w_evals@),
                z_challenge.value(),
                saw_points,
                values(saw_evals@),
                shifted.value(),
            )) by {
                let table = Self::table_point(*plonk_verifier_key, challenges.zeta.value());
                assert(w_points =~= seq![
                    PC::point(lin_comm),
                    PC::point(plonk_verifier_key.permutation.left_sigma),
                    PC::point(plonk_verifier_key.permutation.right_sigma),
                    PC::point(plonk_verifier_key.permutation.out_sigma),
                    PC::point(self.f_comm),
                    PC::point(self.h_2_comm),
                    table,
                    PC::point(self.a_comm),
                    PC::point(self.b_comm),
                    PC::point(self.c_comm),
                    PC::point(self.d_comm),
                ]);
                assert(saw_points =~= seq![
                    PC::point(self.z_comm),
                    PC::point(self.a_comm),
                    PC::point(self.b_comm),
                    PC::point(self.d_comm),
                    PC::point(self.h_1_comm),
                    PC::point(self.z_2_comm),
                    table,
                ]);
                assert(values(w_evals@) =~= seq![
                    reduce(p, -r0.value()),
                    perm.left_sigma_eval.value(),
                    perm.right_sigma_eval.value(),
                    perm.out_sigma_eval.value(),
                    lookup.f_eval.value(),
                    lookup.h2_eval.value(),
                    lookup.table_eval.value(),
                    wires.a_eval.value(),
                    wires.b_eval.value(),
                    wires.c_eval.value(),
                    wires.d_eval.value(),
                ]);
                assert(values(saw_evals@) =~= seq![
                    perm.permutation_eval.value(),
                    custom.value_of("a_next_eval"@),
                    custom.value_of("b_next_eval"@),
                    custom.value_of("d_next_eval"@),
                    lookup.h1_next_eval.value(),
                    lookup.z2_next_eval.value(),
                    lookup.table_next_eval.value(),
                ]);
            }
            assert(PC::commitments(claims) =~= statement.commitments);
            assert(PC::queries(claims) =~= statement.queries);
            assert(PC::evaluations(claims) =~= statement.evaluations);
            assert("z"@ != "omega_z"@) by {
                reveal_strlit("z");
                reveal_strlit("omega_z");
                assert("z"@.len() != "omega_z"@.len());
            }
            lemma_two_points_answered(
                "w_"@,
                w_points,
                values(w_evals@),
                "z"@,
                z_challenge.value(),
                "saw_"@,
                saw_points,
                values(saw_evals@),
                "omega_z"@,
                shifted.value(),
            );
        }
        claims
    }
}

impl<F: PrimeField, PC: HomomorphicCommitment<F>> Proof<F, PC> {
    /// Checks the openings of the proof, given its linearisation commitment.
    pub fn check_openings<G>(
        &self,
        plonk_verifier_key: &VerifierKey<F, PC, G>,
        verifier_key: &PC::VerifierKey,
        pub_inputs: &PublicInputs<F>,
        domain: &GeneralEvaluationDomain<F>,
        challenges: &Challenges<F>,
        l1_eval: F,
        lin_comm: PC::Commitment,
        fs_rng: &mut PC::Rng,
    ) -> (r: bool)
        requires
            domain.wf(),
            self.has_shifted_evaluations(),
            PC::opening_count(self.batch_opening) == 2,
        ensures
            r == self.opens(
                *plonk_verifier_key,
                *verifier_key,
                values(pub_inputs.evaluations@),
                domain.size as nat,
                domain.group_gen.value(),
                *challenges,
                l1_eval.value(),
                PC::point(lin_comm),
                old(fs_rng).log(),
            ),
            // One can divide by what the value of the public input polynomial takes.
            pub_inputs.evaluations.len() <= domain.size && is_outside(
                F::modulus(),
                challenges.z_challenge.value(),
                domain.group_gen.value(),
                domain.size as nat,
            ) ==> has_denominators(
                F::modulus(),
                values(pub_inputs.evaluations@),
                challenges.z_challenge.value(),
                domain.group_gen_inv.value(),
            ),
    {
        let r0 = self.compute_r0(
            domain,
            pub_inputs.as_evals(),
            challenges.alpha,
            challenges.beta,
            challenges.gamma,
            challenges.delta,
            challenges.epsilon,
            challenges.z_challenge,
            l1_eval,
            self.evaluations.perm_evals.permutation_eval,
            self.evaluations.lookup_evals.z2_next_eval,
            self.evaluations.lookup_evals.h1_next_eval,
            self.evaluations.lookup_evals.h2_eval,
            challenges.lookup_sep_challenge,
        );
        let claims = self.collect_claims(plonk_verifier_key, challenges, domain, r0, lin_comm);
        proof {
            let p = F::modulus();
            F::lemma_value_range(r0);
            lemma_inverse_is(p, domain.size as int, domain.size_inv.value());
            lemma_inverse_is(p, domain.group_gen.value(), domain.group_gen_inv.value());
            let e = self.r0(
                values(pub_inputs.evaluations@),
                domain.size as nat,
                domain.group_gen.value(),
                *challenges,
                l1_eval.value(),
            );
            assert(r0.value() == reduce(p, e));
            lemma_reduce_range(p, e);
            lemma_congruent_difference(p, 0, r0.value(), 0, e);
        }
        PC::batch_check(
            verifier_key,
            &claims,
            &self.batch_opening,
            challenges.separation_challenge,
            fs_rng,
        )
    }
}

/// Every commitment of a statement about two points is asked for once, at its point, and its
/// own value is claimed for it there.
pub proof fn lemma_statement_is_complete<Point>(
    w_points: Seq<Point>,
    w_values: Seq<int>,
    z: int,
    saw_points: Seq<Point>,
    saw_values: Seq<int>,
    omega_z: int,
    i: nat,
)
    requires
        w_points.len() == w_values.len(),
        saw_points.len() == saw_values.len(),
    ensures
        ({
            let s = two_point_statement(w_points, w_values, z, saw_points, saw_values, omega_z);
            let w = numbered_label("w_"@, i);
            let saw = numbered_label("saw_"@, i);
            &&& i < w_points.len() ==> {
                &&& s.commitments[i as int] == (w, w_points[i as int])
                &&& s.queries.contains((w, ("z"@, z)))
                &&& s.evaluations.contains_key((w, z))
                &&& s.evaluations[(w, z)] == w_values[i as int]
            }
            &&& i < saw_points.len() ==> {
                &&& s.commitments[(w_points.len() + i) as int] == (saw, saw_points[i as int])
                &&& s.queries.contains((saw, ("omega_z"@, omega_z)))
                &&& s.evaluations.contains_key((saw, omega_z))
                &&& s.evaluations[(saw, omega_z)] == saw_values[i as int]
            }
            &&& s.commitments.len() == w_points.len() + saw_points.len()
        }),
{
    reveal_strlit("w_");
    reveal_strlit("saw_");
    lemma_claims_kept_apart("w_"@, w_values, z, "saw_"@, saw_values, omega_z, i);
    let w = numbered_label("w_"@, i);
    let saw = numbered_label("saw_"@, i);
    lemma_asked_at("w_"@, w_points.len(), "z"@, z, (w, ("z"@, z)));
    lemma_asked_at(
        "saw_"@,
        saw_points.len(),
        "omega_z"@,
        omega_z,
        (saw, ("omega_z"@, omega_z)),
    );
}

} // verus!
