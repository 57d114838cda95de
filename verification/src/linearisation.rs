//! The linearisation of a proof.
use vstd::arithmetic::power::{lemma_pow0, lemma_pow_adds, pow};
use vstd::prelude::*;

use crate::arithmetic::{
    congruent, lemma_congruent_difference, lemma_congruent_product, lemma_reduce_small, reduce,
};
use crate::challenges::Challenges;
use crate::commitment::{points, HomomorphicCommitment};
use crate::domain::GeneralEvaluationDomain;
use crate::evaluations::ProofEvaluations;
use crate::field::PrimeField;
use crate::interpolation::{has_denominators, is_outside};
use crate::lagrange::{barycentric_eval, compute_barycentric_eval, values};
use crate::proof_system::Proof;
use crate::residue::Residue;
use crate::verifier_key::{GateConstraints, GateTerms, VerifierKey};

verus! {

/// The part `r_0` of the linearisation that does not multiply any polynomial:
///
/// ```text
/// PI(z) - (a + beta sigma_1 + gamma)(b + beta sigma_2 + gamma)(c + beta sigma_3 + gamma)
///             (d + gamma) z_hat alpha
///       - L_1(z) alpha^2
///       - s^2 z2_next (epsilon (1 + delta) + delta h2)(epsilon (1 + delta) + h2 + delta h1_next)
///       - s^3 L_1(z)
/// ```
///
/// with `s` the separation challenge of the lookups.
pub open spec fn r0_value<F: PrimeField>(
    evaluations: ProofEvaluations<F>,
    pi_eval: int,
    alpha: int,
    beta: int,
    gamma: int,
    delta: int,
    epsilon: int,
    l1_eval: int,
    z_hat_eval: int,
    z2_next_eval: int,
    h1_next_eval: int,
    h2_eval: int,
    lookup_sep_challenge: int,
) -> int {
    let wires = evaluations.wire_evals;
    let perm = evaluations.perm_evals;
    let b = (wires.a_eval.value() + beta * perm.left_sigma_eval.value() + gamma) * (
    wires.b_eval.value() + beta * perm.right_sigma_eval.value() + gamma) * (wires.c_eval.value()
        + beta * perm.out_sigma_eval.value() + gamma) * ((wires.d_eval.value() + gamma) * z_hat_eval
        * alpha);
    let c = l1_eval * (alpha * alpha);
    let epsilon_one_plus_delta = epsilon * (1 + delta);
    let s = lookup_sep_challenge;
    let d = (s * s) * z2_next_eval * (epsilon_one_plus_delta + delta * h2_eval) * (
    epsilon_one_plus_delta + h2_eval + delta * h1_next_eval);
    let e = (s * s) * s * l1_eval;
    pi_eval - b - c - d - e
}

/// The scalar of the `k`-th piece of the quotient polynomial: `-Z_H(z) * z^(k n)`.
pub open spec fn quotient_scalar(p: int, z: int, n: nat, k: nat) -> int {
    reduce(p, -(pow(z, n) - 1) * pow(z, k * n))
}

/// The scalars of all four pieces.
pub open spec fn quotient_scalars(p: int, z: int, n: nat) -> Seq<int> {
    Seq::new(4, |k: int| quotient_scalar(p, z, n, k as nat))
}

/// The values of the scalars of some terms.
pub open spec fn term_scalars<F: PrimeField, C>(terms: Seq<(F, C)>) -> Seq<int> {
    terms.map_values(|t: (F, C)| t.0.value())
}

/// The points of some terms.
pub open spec fn term_points<F: PrimeField, PC: HomomorphicCommitment<F>>(
    terms: Seq<(F, PC::Commitment)>,
) -> Seq<PC::Point> {
    terms.map_values(|t: (F, PC::Commitment)| PC::point(t.1))
}

/// Adds the scalars and the points of `terms` at the end of two lists.
fn extend_with_terms<F: PrimeField, PC: HomomorphicCommitment<F>>(
    scalars: &mut Vec<F>,
    commitments: &mut Vec<PC::Commitment>,
    terms: &Vec<(F, PC::Commitment)>,
)
    ensures
        values(final(scalars)@) == values(old(scalars)@) + term_scalars(terms@),
        points::<F, PC>(final(commitments)@) == points::<F, PC>(old(commitments)@)
            + term_points::<F, PC>(terms@),
{
    let ghost before = values(scalars@);
    let ghost before_points = points::<F, PC>(commitments@);
    let mut i: usize = 0;
    assert(before =~= before + term_scalars(terms@).take(0));
    assert(before_points =~= before_points + term_points::<F, PC>(terms@).take(0));
    while i < terms.len()
        invariant
            i <= terms.len(),
            values(scalars@) == before + term_scalars(terms@).take(i as int),
            points::<F, PC>(commitments@) == before_points + term_points::<F, PC>(terms@).take(
                i as int,
            ),
        decreases terms.len() - i,
    {
        let ghost old_scalars = scalars@;
        let ghost old_commitments = commitments@;
        scalars.push(terms[i].0);
        commitments.push(terms[i].1);
        i = i + 1;
        proof {
            assert(values(scalars@) =~= values(old_scalars).push(terms@[i - 1].0.value()));
            assert(points::<F, PC>(commitments@) =~= points::<F, PC>(old_commitments).push(
                PC::point(terms@[i - 1].1),
            ));
            assert(term_scalars(terms@).take(i as int) =~= term_scalars(terms@).take(i - 1).push(
                terms@[i - 1].0.value(),
            ));
            assert(term_points::<F, PC>(terms@).take(i as int) =~= term_points::<F, PC>(
                terms@,
            ).take(i - 1).push(PC::point(terms@[i - 1].1)));
        }
    }
    assert(term_scalars(terms@).take(i as int) =~= term_scalars(terms@));
    assert(term_points::<F, PC>(terms@).take(i as int) =~= term_points::<F, PC>(terms@));
}

impl<F: PrimeField, PC: HomomorphicCommitment<F>> Proof<F, PC> {
    /// The commitments to the pieces of the quotient polynomial.
    pub open spec fn quotient_points(self) -> Seq<PC::Point> {
        seq![
            PC::point(self.t_1_comm),
            PC::point(self.t_2_comm),
            PC::point(self.t_3_comm),
            PC::point(self.t_4_comm),
        ]
    }

    /// The linearisation commitment, where the gates contribute `terms`.
    pub open spec fn linearisation(
        self,
        terms: Seq<(F, PC::Commitment)>,
        n: nat,
        z_challenge: int,
    ) -> PC::Point {
        PC::combination(
            term_points::<F, PC>(terms) + self.quotient_points(),
            term_scalars(terms) + quotient_scalars(F::modulus(), z_challenge, n),
        )
    }

    /// Computes the part of the linearisation that does not multiply any polynomial.
    pub fn compute_r0(
        &self,
        domain: &GeneralEvaluationDomain<F>,
        pub_inputs: &Vec<F>,
        alpha: F,
        beta: F,
        gamma: F,
        delta: F,
        epsilon: F,
        z_challenge: F,
        l1_eval: F,
        z_hat_eval: F,
        z2_next_eval: F,
        h1_next_eval: F,
        h2_eval: F,
        lookup_sep_challenge: F,
    ) -> (r: F)
        ensures
            r.value() == reduce(
                F::modulus(),
                r0_value(
                    self.evaluations,
                    barycentric_eval(
                        F::modulus(),
                        values(pub_inputs@),
                        z_challenge.value(),
                        domain.size as nat,
                        domain.size_inv.value(),
                        domain.group_gen_inv.value(),
                    ),
                    alpha.value(),
                    beta.value(),
                    gamma.value(),
                    delta.value(),
                    epsilon.value(),
                    l1_eval.value(),
                    z_hat_eval.value(),
                    z2_next_eval.value(),
                    h1_next_eval.value(),
                    h2_eval.value(),
                    lookup_sep_challenge.value(),
                ),
            ),
            ({
                let p = F::modulus();
                let n = domain.size as nat;
                let pi = barycentric_eval(
                    p,
                    values(pub_inputs@),
                    z_challenge.value(),
                    n,
                    domain.size_inv.value(),
                    domain.group_gen_inv.value(),
                );
                let wires = self.evaluations.wire_evals;
                let sigmas = self.evaluations.perm_evals;
                let s = lookup_sep_challenge.value();
                let shift = epsilon.value() * (1 + delta.value());
                &&& 0 <= r.value() < p
                &&& r.value() % p == (pi - (wires.a_eval.value() + beta.value()
                    * sigmas.left_sigma_eval.value() + gamma.value()) * (wires.b_eval.value()
                    + beta.value() * sigmas.right_sigma_eval.value() + gamma.value()) * (
                wires.c_eval.value() + beta.value() * sigmas.out_sigma_eval.value()
                    + gamma.value()) * ((wires.d_eval.value() + gamma.value())
                    * z_hat_eval.value() * alpha.value()) - l1_eval.value() * (alpha.value()
                    * alpha.value()) - (s * s) * z2_next_eval.value() * (shift + delta.value()
                    * h2_eval.value()) * (shift + h2_eval.value() + delta.value()
                    * h1_next_eval.value()) - (s * s) * s * l1_eval.value()) % p
                &&& domain.wf() && pub_inputs.len() <= domain.size && is_outside(
                    p,
                    z_challenge.value(),
                    domain.group_gen.value(),
                    n,
                ) ==> has_denominators(
                    p,
                    values(pub_inputs@),
                    z_challenge.value(),
                    domain.group_gen_inv.value(),
                )
                // On the domain, the public inputs do not count.
                &&& pow(z_challenge.value(), n) % p == 1int % p ==> pi % p == 0
            }),
    {
        // The public input polynomial evaluated at `z_challenge`.
        let pi_eval = Residue::with_expression(
            compute_barycentric_eval(pub_inputs, z_challenge, domain),
            Ghost(
                barycentric_eval(
                    F::modulus(),
                    values(pub_inputs@),
                    z_challenge.value(),
                    domain.size as nat,
                    domain.size_inv.value(),
                    domain.group_gen_inv.value(),
                ),
            ),
        );
        let alpha = Residue::of(alpha);
        let beta = Residue::of(beta);
        let gamma = Residue::of(gamma);
        let delta = Residue::of(delta);
        let epsilon = Residue::of(epsilon);
        let l1_eval = Residue::of(l1_eval);
        let h2_eval = Residue::of(h2_eval);
        let wires = &self.evaluations.wire_evals;
        let perm = &self.evaluations.perm_evals;

        let alpha_sq = alpha.square();

        let lookup_sep_challenge = Residue::of(lookup_sep_challenge);
        let lookup_sep_challenge_sq = lookup_sep_challenge.square();
        let lookup_sep_challenge_cu = lookup_sep_challenge_sq.times(&lookup_sep_challenge);

        // a + beta * sigma_1 + gamma
        let beta_sig1 = beta.times(&Residue::of(perm.left_sigma_eval));
        let b_0 = Residue::of(wires.a_eval).plus(&beta_sig1).plus(&gamma);

        // b + beta * sigma_2 + gamma
        let beta_sig2 = beta.times(&Residue::of(perm.right_sigma_eval));
        let b_1 = Residue::of(wires.b_eval).plus(&beta_sig2).plus(&gamma);

        // c + beta * sigma_3 + gamma
        let beta_sig3 = beta.times(&Residue::of(perm.out_sigma_eval));
        let b_2 = Residue::of(wires.c_eval).plus(&beta_sig3).plus(&gamma);

        // ((d + gamma) * z_hat) * alpha
        let b_3 = Residue::of(wires.d_eval).plus(&gamma).times(&Residue::of(z_hat_eval)).times(
            &alpha,
        );

        let b = b_0.times(&b_1).times(&b_2).times(&b_3);

        // l_1(z) * alpha^2
        let c = l1_eval.times(&alpha_sq);

        let epsilon_one_plus_delta = epsilon.times(&Residue::of(F::one()).plus(&delta));

        let d_0 = lookup_sep_challenge_sq.times(&Residue::of(z2_next_eval));
        let d_1 = epsilon_one_plus_delta.plus(&delta.times(&h2_eval));
        let d_2 = epsilon_one_plus_delta.plus(&h2_eval).plus(
            &delta.times(&Residue::of(h1_next_eval)),
        );
        let d = d_0.times(&d_1).times(&d_2);

        let e = lookup_sep_challenge_cu.times(&l1_eval);

        let r = pi_eval.minus(&b).minus(&c).minus(&d).minus(&e).element();
        proof {
            F::lemma_value_range(r);
            lemma_reduce_small(F::modulus(), r.value());
        }
        r
    }

    /// Computes the linearisation commitment from what the gates contribute.
    pub fn combine_linearisation(
        &self,
        domain: &GeneralEvaluationDomain<F>,
        z_challenge: F,
        terms: &GateTerms<F, PC::Commitment>,
    ) -> (r: PC::Commitment)
        ensures
            PC::point(r) == self.linearisation(
                terms.all(),
                domain.size as nat,
                z_challenge.value(),
            ),
    {
        let mut scalars: Vec<F> = Vec::new();
        let mut commitments: Vec<PC::Commitment> = Vec::new();
        extend_with_terms::<F, PC>(&mut scalars, &mut commitments, &terms.arithmetic);
        extend_with_terms::<F, PC>(&mut scalars, &mut commitments, &terms.range);
        extend_with_terms::<F, PC>(&mut scalars, &mut commitments, &terms.logic);
        extend_with_terms::<F, PC>(&mut scalars, &mut commitments, &terms.fixed_base_scalar_mul);
        extend_with_terms::<F, PC>(&mut scalars, &mut commitments, &terms.curve_addition);
        extend_with_terms::<F, PC>(&mut scalars, &mut commitments, &terms.lookup);
        extend_with_terms::<F, PC>(&mut scalars, &mut commitments, &terms.permutation);
        proof {
            assert(values(scalars@) =~= term_scalars(terms.all()));
            assert(points::<F, PC>(commitments@) =~= term_points::<F, PC>(terms.all()));
        }

        // Second part
        let ghost p = F::modulus();
        let ghost z = z_challenge.value();
        let ghost n = domain.size as nat;
        let vanishing_poly_eval = Residue::with_expression(
            domain.evaluate_vanishing_polynomial(z_challenge),
            Ghost(pow(z, n) - 1),
        );
        // z_challenge ^ n
        let z_challenge_to_n = vanishing_poly_eval.plus(&Residue::of(F::one()));

        let t_1_scalar = vanishing_poly_eval.negate();
        let t_2_scalar = t_1_scalar.times(&z_challenge_to_n);
        let t_3_scalar = t_2_scalar.times(&z_challenge_to_n);
        let t_4_scalar = t_3_scalar.times(&z_challenge_to_n);
        let ghost before = scalars@;
        let ghost before_commitments = commitments@;
        scalars.push(t_1_scalar.element());
        scalars.push(t_2_scalar.element());
        scalars.push(t_3_scalar.element());
        scalars.push(t_4_scalar.element());
        commitments.push(self.t_1_comm);
        commitments.push(self.t_2_comm);
        commitments.push(self.t_3_comm);
        commitments.push(self.t_4_comm);
        proof {
            lemma_quotient_scalars(p, z, n);
            assert(values(scalars@) =~= values(before) + quotient_scalars(p, z, n));
            assert(points::<F, PC>(commitments@) =~= points::<F, PC>(before_commitments)
                + self.quotient_points());
        }
        PC::multi_scalar_mul(&commitments, &scalars)
    }
}

/// The scalars of the pieces of the quotient polynomial arise from each other: with
/// `v = z^n - 1`, the `k`-th one is `-v * (v + 1)^k`.
pub proof fn lemma_quotient_scalars(p: int, z: int, n: nat)
    ensures
        ({
            let v = pow(z, n) - 1;
            &&& quotient_scalar(p, z, n, 0) == reduce(p, -v)
            &&& quotient_scalar(p, z, n, 1) == reduce(p, -v * (v + 1))
            &&& quotient_scalar(p, z, n, 2) == reduce(p, -v * (v + 1) * (v + 1))
            &&& quotient_scalar(p, z, n, 3) == reduce(p, -v * (v + 1) * (v + 1) * (v + 1))
        }),
{
    let v = pow(z, n) - 1;
    let q = pow(z, n);
    lemma_pow0(z);
    assert(0 * n == 0 && 1 * n == n && 2 * n == n + n && 3 * n == n + n + n) by (nonlinear_arith);
    lemma_pow_adds(z, n, n);
    lemma_pow_adds(z, n + n, n);
    assert(-v * 1 == -v);
    assert(-v * (q * q) == -v * q * q) by (nonlinear_arith);
    assert(-v * (q * q * q) == -v * q * q * q) by (nonlinear_arith);
}

/// The gates, when asked for their contributions to the linearisation of `proof` with the
/// given challenges, may return `terms`.
pub open spec fn gates_return<
    F: PrimeField,
    PC: HomomorphicCommitment<F>,
    G: GateConstraints<F, PC>,
>(
    proof: Proof<F, PC>,
    key: VerifierKey<F, PC, G>,
    challenges: Challenges<F>,
    l1_eval: F,
    terms: GateTerms<F, PC::Commitment>,
) -> bool {
    let c = challenges;
    &&& call_ensures(G::arithmetic, (&key.gates, &proof.evaluations), terms.arithmetic)
    &&& call_ensures(
        G::range,
        (
            &key.gates,
            &key.range_selector_commitment,
            c.range_sep_challenge,
            &proof.evaluations,
        ),
        terms.range,
    )
    &&& call_ensures(
        G::logic,
        (
            &key.gates,
            &key.logic_selector_commitment,
            c.logic_sep_challenge,
            &proof.evaluations,
        ),
        terms.logic,
    )
    &&& call_ensures(
        G::fixed_base_scalar_mul,
        (
            &key.gates,
            &key.fixed_group_add_selector_commitment,
            c.fixed_base_sep_challenge,
            &proof.evaluations,
        ),
        terms.fixed_base_scalar_mul,
    )
    &&& call_ensures(
        G::curve_addition,
        (
            &key.gates,
            &key.variable_group_add_selector_commitment,
            c.var_base_sep_challenge,
            &proof.evaluations,
        ),
        terms.curve_addition,
    )
    &&& call_ensures(
        G::lookup,
        (
            &key.gates,
            &key.lookup,
            &proof.evaluations,
            (c.delta, c.epsilon, c.zeta),
            c.lookup_sep_challenge,
            l1_eval,
            proof.z_2_comm,
            proof.h_1_comm,
        ),
        terms.lookup,
    )
    &&& call_ensures(
        G::permutation,
        (
            &key.gates,
            &key.permutation,
            &proof.evaluations,
            c.z_challenge,
            (c.alpha, c.beta, c.gamma),
            l1_eval,
            proof.z_comm,
        ),
        terms.permutation,
    )
}

impl<F: PrimeField, PC: HomomorphicCommitment<F>> Proof<F, PC> {
    /// Asks the gates for their contributions to the linearisation commitment.
    pub fn collect_gate_terms<G: GateConstraints<F, PC>>(
        &self,
        plonk_verifier_key: &VerifierKey<F, PC, G>,
        challenges: &Challenges<F>,
        l1_eval: F,
    ) -> (r: GateTerms<F, PC::Commitment>)
        ensures
            gates_return(*self, *plonk_verifier_key, *challenges, l1_eval, r),
    {
        let key = plonk_verifier_key;
        let gates = &key.gates;
        let evaluations = &self.evaluations;
        let c = challenges;
        let arithmetic = gates.arithmetic(evaluations);
        let range = gates.range(
            &key.range_selector_commitment,
            c.range_sep_challenge,
            evaluations,
        );
        let logic = gates.logic(
            &key.logic_selector_commitment,
            c.logic_sep_challenge,
            evaluations,
        );
        let fixed_base_scalar_mul = gates.fixed_base_scalar_mul(
            &key.fixed_group_add_selector_commitment,
            c.fixed_base_sep_challenge,
            evaluations,
        );
        let curve_addition = gates.curve_addition(
            &key.variable_group_add_selector_commitment,
            c.var_base_sep_challenge,
            evaluations,
        );
        let lookup = gates.lookup(
            &key.lookup,
            evaluations,
            (c.delta, c.epsilon, c.zeta),
            c.lookup_sep_challenge,
            l1_eval,
            self.z_2_comm,
            self.h_1_comm,
        );
        let permutation = gates.permutation(
            &key.permutation,
            evaluations,
            c.z_challenge,
            (c.alpha, c.beta, c.gamma),
            l1_eval,
            self.z_comm,
        );
        GateTerms {
            arithmetic,
            range,
            logic,
            fixed_base_scalar_mul,
            curve_addition,
            lookup,
            permutation,
        }
    }

    /// Computes the linearisation commitment: the contributions of the gates and the pieces
    /// of the quotient polynomial.
    pub fn compute_linearisation_commitment<G: GateConstraints<F, PC>>(
        &self,
        domain: &GeneralEvaluationDomain<F>,
        challenges: &Challenges<F>,
        l1_eval: F,
        plonk_verifier_key: &VerifierKey<F, PC, G>,
    ) -> (r: PC::Commitment)
        ensures
            is_linearisation(
                *self,
                *plonk_verifier_key,
                *challenges,
                l1_eval,
                domain.size as nat,
                PC::point(r),
            ),
    {
        let terms = self.collect_gate_terms(plonk_verifier_key, challenges, l1_eval);
        self.combine_linearisation(domain, challenges.z_challenge, &terms)
    }
}

/// `point` may be the linearisation commitment of the proof: the gates may contribute terms
/// with which it is the combination.
pub open spec fn is_linearisation<
    F: PrimeField,
    PC: HomomorphicCommitment<F>,
    G: GateConstraints<F, PC>,
>(
    p: Proof<F, PC>,
    key: VerifierKey<F, PC, G>,
    c: Challenges<F>,
    l1_eval: F,
    n: nat,
    point: PC::Point,
) -> bool {
    exists|terms: GateTerms<F, PC::Commitment>| #[trigger]
        gates_return(p, key, c, l1_eval, terms) && point == p.linearisation(
            terms.all(),
            n,
            c.z_challenge.value(),
        )
}

/// Of a proof, the linearisation depends on the evaluations, on the commitments to the two
/// permutation polynomials and to the first half of the sorted polynomial, and on those to
/// the quotient polynomial: where two proofs agree in these, the gates may return the same
/// for both, and the combination is the same.
pub proof fn lemma_linearisation_depends<
    F: PrimeField,
    PC: HomomorphicCommitment<F>,
    G: GateConstraints<F, PC>,
>(
    a: Proof<F, PC>,
    b: Proof<F, PC>,
    key: VerifierKey<F, PC, G>,
    c: Challenges<F>,
    l1_eval: F,
    terms: GateTerms<F, PC::Commitment>,
    n: nat,
    z: int,
)
    requires
        a.evaluations == b.evaluations,
        a.z_comm == b.z_comm,
        a.z_2_comm == b.z_2_comm,
        a.h_1_comm == b.h_1_comm,
        a.quotient_points() == b.quotient_points(),
    ensures
        gates_return(a, key, c, l1_eval, terms) == gates_return(b, key, c, l1_eval, terms),
        a.linearisation(terms.all(), n, z) == b.linearisation(terms.all(), n, z),
{
}

/// The combination of some terms, followed by the four pieces of the quotient polynomial.
pub proof fn lemma_linearisation_is_sum<F: PrimeField, PC: HomomorphicCommitment<F>>(
    p: Proof<F, PC>,
    terms: Seq<(F, PC::Commitment)>,
    n: nat,
    z: int,
)
    ensures
        ({
            let t = p.quotient_points();
            let s = quotient_scalars(F::modulus(), z, n);
            let gates = PC::combination(term_points::<F, PC>(terms), term_scalars(terms));
            p.linearisation(terms, n, z) == PC::plus(
                PC::plus(
                    PC::plus(
                        PC::plus(gates, PC::scaled(s[0], t[0])),
                        PC::scaled(s[1], t[1]),
                    ),
                    PC::scaled(s[2], t[2]),
                ),
                PC::scaled(s[3], t[3]),
            )
        }),
{
    let t = p.quotient_points();
    let s = quotient_scalars(F::modulus(), z, n);
    let p0 = term_points::<F, PC>(terms);
    let s0 = term_scalars(terms);
    let p1 = p0.push(t[0]);
    let s1 = s0.push(s[0]);
    let p2 = p1.push(t[1]);
    let s2 = s1.push(s[1]);
    let p3 = p2.push(t[2]);
    let s3 = s2.push(s[2]);
    PC::lemma_combination(p0, s0, t[0], s[0]);
    PC::lemma_combination(p1, s1, t[1], s[1]);
    PC::lemma_combination(p2, s2, t[2], s[2]);
    PC::lemma_combination(p3, s3, t[3], s[3]);
    assert(p0 + t =~= p3.push(t[3]));
    assert(s0 + s =~= s3.push(s[3]));
}

/// Of four points, the second and the third may change places in a sum of two sums.
pub proof fn lemma_plus_interchange<F: PrimeField, PC: HomomorphicCommitment<F>>(
    a: PC::Point,
    b: PC::Point,
    c: PC::Point,
    d: PC::Point,
)
    ensures
        PC::plus(PC::plus(a, b), PC::plus(c, d)) == PC::plus(PC::plus(a, c), PC::plus(b, d)),
{
    PC::lemma_plus(a, b, PC::plus(c, d));
    PC::lemma_plus(b, c, d);
    PC::lemma_plus(c, b, d);
    PC::lemma_plus(a, c, PC::plus(b, d));
}

/// The linearisation is additive in the pieces of the quotient polynomial: adding `d[k]` to
/// the commitment to the `k`-th piece adds `-Z_H(z) * z^(k n) * d[k]` to it.
pub proof fn lemma_quotient_is_additive<F: PrimeField, PC: HomomorphicCommitment<F>>(
    a: Proof<F, PC>,
    b: Proof<F, PC>,
    d: Seq<PC::Point>,
    terms: Seq<(F, PC::Commitment)>,
    n: nat,
    z: int,
)
    requires
        d.len() == 4,
        forall|k: int|
            0 <= k < 4 ==> #[trigger] b.quotient_points()[k] == PC::plus(
                a.quotient_points()[k],
                d[k],
            ),
    ensures
        ({
            let p = F::modulus();
            b.linearisation(terms, n, z) == PC::plus(
                a.linearisation(terms, n, z),
                PC::plus(
                    PC::plus(
                        PC::plus(
                            PC::scaled(quotient_scalar(p, z, n, 0), d[0]),
                            PC::scaled(quotient_scalar(p, z, n, 1), d[1]),
                        ),
                        PC::scaled(quotient_scalar(p, z, n, 2), d[2]),
                    ),
                    PC::scaled(quotient_scalar(p, z, n, 3), d[3]),
                ),
            )
        }),
{
    let s = quotient_scalars(F::modulus(), z, n);
    let t = a.quotient_points();
    let u = b.quotient_points();
    assert(u[0] == PC::plus(t[0], d[0]) && u[1] == PC::plus(t[1], d[1]) && u[2] == PC::plus(
        t[2],
        d[2],
    ) && u[3] == PC::plus(t[3], d[3]));
    lemma_linearisation_is_sum(a, terms, n, z);
    lemma_linearisation_is_sum(b, terms, n, z);
    PC::lemma_scaled(s[0], t[0], d[0]);
    PC::lemma_scaled(s[1], t[1], d[1]);
    PC::lemma_scaled(s[2], t[2], d[2]);
    PC::lemma_scaled(s[3], t[3], d[3]);
    let gates = PC::combination(term_points::<F, PC>(terms), term_scalars(terms));
    let t0 = PC::scaled(s[0], t[0]);
    let t1 = PC::scaled(s[1], t[1]);
    let t2 = PC::scaled(s[2], t[2]);
    let t3 = PC::scaled(s[3], t[3]);
    let d0 = PC::scaled(s[0], d[0]);
    let d1 = PC::scaled(s[1], d[1]);
    let d2 = PC::scaled(s[2], d[2]);
    let d3 = PC::scaled(s[3], d[3]);
    let sum1 = PC::plus(gates, t0);
    let sum2 = PC::plus(sum1, t1);
    let sum3 = PC::plus(sum2, t2);
    let extra2 = PC::plus(d0, d1);
    let extra3 = PC::plus(extra2, d2);
    PC::lemma_plus(gates, t0, d0);
    lemma_plus_interchange::<F, PC>(sum1, d0, t1, d1);
    lemma_plus_interchange::<F, PC>(sum2, extra2, t2, d2);
    lemma_plus_interchange::<F, PC>(sum3, extra3, t3, d3);
}

/// The pieces of the quotient polynomial are multiplied by the vanishing polynomial: where
/// `z` is in the domain, the commitments to them do not count.
pub proof fn lemma_quotient_vanishes_on_domain<F: PrimeField, PC: HomomorphicCommitment<F>>(
    a: Proof<F, PC>,
    b: Proof<F, PC>,
    terms: Seq<(F, PC::Commitment)>,
    n: nat,
    z: int,
)
    requires
        congruent(F::modulus(), pow(z, n), 1),
    ensures
        a.linearisation(terms, n, z) == b.linearisation(terms, n, z),
{
    let p = F::modulus();
    let s = quotient_scalars(p, z, n);
    let v = pow(z, n) - 1;
    F::lemma_value_range(arbitrary());
    assert forall|k: int| 0 <= k < 4 implies #[trigger] s[k] == 0 by {
        let q = pow(z, (k as nat) * n);
        lemma_congruent_difference(p, 1, pow(z, n), 1, 1);
        lemma_congruent_product(p, -v, q, 0, q);
        lemma_reduce_small(p, 0);
        assert(0 * q == 0);
    }
    lemma_linearisation_is_sum(a, terms, n, z);
    lemma_linearisation_is_sum(b, terms, n, z);
    let t = a.quotient_points();
    let u = b.quotient_points();
    assert(s[0] == 0 && s[1] == 0 && s[2] == 0 && s[3] == 0);
    PC::lemma_scaled(0, t[0], u[0]);
    PC::lemma_scaled(0, u[0], t[0]);
    PC::lemma_scaled(0, t[1], u[1]);
    PC::lemma_scaled(0, u[1], t[1]);
    PC::lemma_scaled(0, t[2], u[2]);
    PC::lemma_scaled(0, u[2], t[2]);
    PC::lemma_scaled(0, t[3], u[3]);
    PC::lemma_scaled(0, u[3], t[3]);
}

/// Two contributions have the same scalars and the same points.
pub open spec fn same_terms<F: PrimeField, PC: HomomorphicCommitment<F>>(
    a: Seq<(F, PC::Commitment)>,
    b: Seq<(F, PC::Commitment)>,
) -> bool {
    term_scalars(a) == term_scalars(b) && term_points::<F, PC>(a) == term_points::<F, PC>(b)
}

/// All terms of a contribution multiply the given point.
pub open spec fn multiplies_only<F: PrimeField, PC: HomomorphicCommitment<F>>(
    terms: Seq<(F, PC::Commitment)>,
    point: PC::Point,
) -> bool {
    forall|i: int| 0 <= i < terms.len() ==> PC::point((#[trigger] terms[i]).1) == point
}

/// The combination of some terms.
spec fn combined<F: PrimeField, PC: HomomorphicCommitment<F>>(
    terms: Seq<(F, PC::Commitment)>,
) -> PC::Point {
    PC::combination(term_points::<F, PC>(terms), term_scalars(terms))
}

proof fn lemma_combined_push<F: PrimeField, PC: HomomorphicCommitment<F>>(
    terms: Seq<(F, PC::Commitment)>,
)
    ensures
        terms.len() == 0 ==> combined::<F, PC>(terms) == PC::neutral(),
        terms.len() > 0 ==> combined::<F, PC>(terms) == PC::plus(
            combined::<F, PC>(terms.drop_last()),
            PC::scaled(terms.last().0.value(), PC::point(terms.last().1)),
        ),
{
    if terms.len() == 0 {
        PC::lemma_combination(
            term_points::<F, PC>(terms),
            term_scalars(terms),
            PC::neutral(),
            0,
        );
    } else {
        let rest = terms.drop_last();
        let a = PC::point(terms.last().1);
        let s = terms.last().0.value();
        PC::lemma_combination(term_points::<F, PC>(rest), term_scalars(rest), a, s);
        assert(term_points::<F, PC>(terms) =~= term_points::<F, PC>(rest).push(a));
        assert(term_scalars(terms) =~= term_scalars(rest).push(s));
    }
}

/// Terms that are the same may follow terms that combine to the same.
proof fn lemma_combined_concat<F: PrimeField, PC: HomomorphicCommitment<F>>(
    a: Seq<(F, PC::Commitment)>,
    b: Seq<(F, PC::Commitment)>,
    x: Seq<(F, PC::Commitment)>,
    y: Seq<(F, PC::Commitment)>,
)
    requires
        combined::<F, PC>(a) == combined::<F, PC>(b),
        same_terms::<F, PC>(x, y),
    ensures
        combined::<F, PC>(a + x) == combined::<F, PC>(b + y),
    decreases x.len(),
{
    assert(x.len() == term_scalars(x).len() && y.len() == term_scalars(y).len());
    if x.len() == 0 {
        assert(a + x =~= a);
        assert(b + y =~= b);
    } else {
        let v = x.drop_last();
        let w = y.drop_last();
        assert(term_scalars(v) =~= term_scalars(x).drop_last());
        assert(term_scalars(w) =~= term_scalars(y).drop_last());
        assert(term_points::<F, PC>(v) =~= term_points::<F, PC>(x).drop_last());
        assert(term_points::<F, PC>(w) =~= term_points::<F, PC>(y).drop_last());
        lemma_combined_concat::<F, PC>(a, b, v, w);
        lemma_combined_push::<F, PC>(a + x);
        lemma_combined_push::<F, PC>(b + y);
        assert((a + x).drop_last() =~= a + v);
        assert((b + y).drop_last() =~= b + w);
        assert(term_scalars(x).last() == x.last().0.value());
        assert(term_scalars(y).last() == y.last().0.value());
        assert(term_points::<F, PC>(x).last() == PC::point(x.last().1));
        assert(term_points::<F, PC>(y).last() == PC::point(y.last().1));
    }
}

/// Terms that multiply the neutral element do not count.
proof fn lemma_combined_neutral<F: PrimeField, PC: HomomorphicCommitment<F>>(
    a: Seq<(F, PC::Commitment)>,
    x: Seq<(F, PC::Commitment)>,
)
    requires
        multiplies_only::<F, PC>(x, PC::neutral()),
    ensures
        combined::<F, PC>(a + x) == combined::<F, PC>(a),
    decreases x.len(),
{
    if x.len() == 0 {
        assert(a + x =~= a);
    } else {
        let v = x.drop_last();
        let before = combined::<F, PC>(a);
        lemma_combined_neutral::<F, PC>(a, v);
        lemma_combined_push::<F, PC>(a + x);
        assert((a + x).drop_last() =~= a + v);
        assert(PC::point(x[x.len() - 1].1) == PC::neutral());
        PC::lemma_scaled(x.last().0.value(), before, before);
        lemma_combined_push::<F, PC>(a);
        if a.len() == 0 {
            PC::lemma_plus(before, before, before);
        } else {
            PC::lemma_plus(
                combined::<F, PC>(a.drop_last()),
                PC::scaled(a.last().0.value(), PC::point(a.last().1)),
                before,
            );
        }
    }
}

/// One gate's contribution, after terms that combine to the same: it is the same as the
/// other, or neither counts.
proof fn lemma_one_gate<F: PrimeField, PC: HomomorphicCommitment<F>>(
    a: Seq<(F, PC::Commitment)>,
    b: Seq<(F, PC::Commitment)>,
    x: Seq<(F, PC::Commitment)>,
    y: Seq<(F, PC::Commitment)>,
)
    requires
        combined::<F, PC>(a) == combined::<F, PC>(b),
        same_terms::<F, PC>(x, y) || (multiplies_only::<F, PC>(x, PC::neutral())
            && multiplies_only::<F, PC>(y, PC::neutral())),
    ensures
        combined::<F, PC>(a + x) == combined::<F, PC>(b + y),
{
    if same_terms::<F, PC>(x, y) {
        lemma_combined_concat::<F, PC>(a, b, x, y);
    } else {
        lemma_combined_neutral::<F, PC>(a, x);
        lemma_combined_neutral::<F, PC>(b, y);
    }
}

/// A gate that is asked the same question twice gives the same answer.
pub open spec fn answers_alike<
    F: PrimeField,
    PC: HomomorphicCommitment<F>,
    G: GateConstraints<F, PC>,
>(p: Proof<F, PC>, key: VerifierKey<F, PC, G>) -> bool {
    forall|
        c: Challenges<F>,
        d: Challenges<F>,
        l1: F,
        x: GateTerms<F, PC::Commitment>,
        y: GateTerms<F, PC::Commitment>,
    | #[trigger]
        gates_return(p, key, c, l1, x) && #[trigger] gates_return(p, key, d, l1, y) ==> {
            &&& same_terms::<F, PC>(x.arithmetic@, y.arithmetic@)
            &&& c.range_sep_challenge == d.range_sep_challenge ==> same_terms::<F, PC>(
                x.range@,
                y.range@,
            )
            &&& c.logic_sep_challenge == d.logic_sep_challenge ==> same_terms::<F, PC>(
                x.logic@,
                y.logic@,
            )
            &&& c.fixed_base_sep_challenge == d.fixed_base_sep_challenge ==> same_terms::<F, PC>(
                x.fixed_base_scalar_mul@,
                y.fixed_base_scalar_mul@,
            )
            &&& c.var_base_sep_challenge == d.var_base_sep_challenge ==> same_terms::<F, PC>(
                x.curve_addition@,
                y.curve_addition@,
            )
            &&& c.delta == d.delta && c.epsilon == d.epsilon && c.zeta == d.zeta
                && c.lookup_sep_challenge == d.lookup_sep_challenge ==> same_terms::<F, PC>(
                x.lookup@,
                y.lookup@,
            )
            &&& c.z_challenge == d.z_challenge && c.alpha == d.alpha && c.beta == d.beta && c.gamma
                == d.gamma ==> same_terms::<F, PC>(x.permutation@, y.permutation@)
        }
}

/// The range, logic, fixed base and curve addition gates multiply nothing but their
/// selectors.
pub open spec fn multiply_selectors<
    F: PrimeField,
    PC: HomomorphicCommitment<F>,
    G: GateConstraints<F, PC>,
>(p: Proof<F, PC>, key: VerifierKey<F, PC, G>) -> bool {
    forall|c: Challenges<F>, l1: F, x: GateTerms<F, PC::Commitment>| #[trigger]
        gates_return(p, key, c, l1, x) ==> {
            &&& multiplies_only::<F, PC>(x.range@, PC::point(key.range_selector_commitment))
            &&& multiplies_only::<F, PC>(x.logic@, PC::point(key.logic_selector_commitment))
            &&& multiplies_only::<F, PC>(
                x.fixed_base_scalar_mul@,
                PC::point(key.fixed_group_add_selector_commitment),
            )
            &&& multiplies_only::<F, PC>(
                x.curve_addition@,
                PC::point(key.variable_group_add_selector_commitment),
            )
        }
}

/// Each separation challenge reaches its own gate alone: where it changes and the selector of
/// its gate is neutral, the linearisation commitment stays the same. The gates are to give
/// the same answer to the same question, and to multiply nothing but their selectors.
pub proof fn lemma_separation_challenges<
    F: PrimeField,
    PC: HomomorphicCommitment<F>,
    G: GateConstraints<F, PC>,
>(
    p: Proof<F, PC>,
    key: VerifierKey<F, PC, G>,
    c: Challenges<F>,
    d: Challenges<F>,
    l1_eval: F,
    n: nat,
    first: PC::Point,
    second: PC::Point,
)
    requires
        answers_alike(p, key),
        multiply_selectors(p, key),
        c.zeta == d.zeta,
        c.beta == d.beta,
        c.gamma == d.gamma,
        c.delta == d.delta,
        c.epsilon == d.epsilon,
        c.alpha == d.alpha,
        c.lookup_sep_challenge == d.lookup_sep_challenge,
        c.z_challenge == d.z_challenge,
        c.range_sep_challenge == d.range_sep_challenge || PC::point(key.range_selector_commitment)
            == PC::neutral(),
        c.logic_sep_challenge == d.logic_sep_challenge || PC::point(key.logic_selector_commitment)
            == PC::neutral(),
        c.fixed_base_sep_challenge == d.fixed_base_sep_challenge || PC::point(
            key.fixed_group_add_selector_commitment,
        ) == PC::neutral(),
        c.var_base_sep_challenge == d.var_base_sep_challenge || PC::point(
            key.variable_group_add_selector_commitment,
        ) == PC::neutral(),
        is_linearisation(p, key, c, l1_eval, n, first),
        is_linearisation(p, key, d, l1_eval, n, second),
    ensures
        first == second,
{
    let z = c.z_challenge.value();
    let x = choose|x: GateTerms<F, PC::Commitment>| #[trigger]
        gates_return(p, key, c, l1_eval, x) && first == p.linearisation(x.all(), n, z);
    let y = choose|y: GateTerms<F, PC::Commitment>| #[trigger]
        gates_return(p, key, d, l1_eval, y) && second == p.linearisation(y.all(), n, z);
    assert(gates_return(p, key, c, l1_eval, x) && gates_return(p, key, d, l1_eval, y));
    let x1 = x.arithmetic@ + x.range@;
    let y1 = y.arithmetic@ + y.range@;
    let x2 = x1 + x.logic@;
    let y2 = y1 + y.logic@;
    let x3 = x2 + x.fixed_base_scalar_mul@;
    let y3 = y2 + y.fixed_base_scalar_mul@;
    let x4 = x3 + x.curve_addition@;
    let y4 = y3 + y.curve_addition@;
    lemma_one_gate::<F, PC>(x.arithmetic@, y.arithmetic@, x.range@, y.range@);
    lemma_one_gate::<F, PC>(x1, y1, x.logic@, y.logic@);
    lemma_one_gate::<F, PC>(x2, y2, x.fixed_base_scalar_mul@, y.fixed_base_scalar_mul@);
    lemma_one_gate::<F, PC>(x3, y3, x.curve_addition@, y.curve_addition@);
    lemma_combined_concat::<F, PC>(x4, y4, x.lookup@, y.lookup@);
    lemma_combined_concat::<F, PC>(
        x4 + x.lookup@,
        y4 + y.lookup@,
        x.permutation@,
        y.permutation@,
    );
    assert(combined::<F, PC>(x.all()) == combined::<F, PC>(y.all()));
    lemma_linearisation_is_sum(p, x.all(), n, z);
    lemma_linearisation_is_sum(p, y.all(), n, z);
}

/// Where gates give the same answer to the same question, there is one linearisation
/// commitment, and proofs that agree in what it depends on share it.
pub proof fn lemma_one_linearisation<
    F: PrimeField,
    PC: HomomorphicCommitment<F>,
    G: GateConstraints<F, PC>,
>(
    a: Proof<F, PC>,
    b: Proof<F, PC>,
    key: VerifierKey<F, PC, G>,
    c: Challenges<F>,
    l1_eval: F,
    n: nat,
    first: PC::Point,
    second: PC::Point,
)
    requires
        a.evaluations == b.evaluations,
        a.z_comm == b.z_comm,
        a.z_2_comm == b.z_2_comm,
        a.h_1_comm == b.h_1_comm,
        a.quotient_points() == b.quotient_points(),
        answers_alike(a, key),
        is_linearisation(a, key, c, l1_eval, n, first),
        is_linearisation(b, key, c, l1_eval, n, second),
    ensures
        first == second,
{
    let z = c.z_challenge.value();
    let x = choose|x: GateTerms<F, PC::Commitment>| #[trigger]
        gates_return(a, key, c, l1_eval, x) && first == a.linearisation(x.all(), n, z);
    let y = choose|y: GateTerms<F, PC::Commitment>| #[trigger]
        gates_return(b, key, c, l1_eval, y) && second == b.linearisation(y.all(), n, z);
    lemma_linearisation_depends(a, b, key, c, l1_eval, y, n, z);
    assert(gates_return(a, key, c, l1_eval, x) && gates_return(a, key, c, l1_eval, y));
    lemma_same_terms_all::<F, PC>(x, y);
}

/// Where all contributions are the same, so are all terms.
proof fn lemma_same_terms_all<F: PrimeField, PC: HomomorphicCommitment<F>>(
    x: GateTerms<F, PC::Commitment>,
    y: GateTerms<F, PC::Commitment>,
)
    requires
        same_terms::<F, PC>(x.arithmetic@, y.arithmetic@),
        same_terms::<F, PC>(x.range@, y.range@),
        same_terms::<F, PC>(x.logic@, y.logic@),
        same_terms::<F, PC>(x.fixed_base_scalar_mul@, y.fixed_base_scalar_mul@),
        same_terms::<F, PC>(x.curve_addition@, y.curve_addition@),
        same_terms::<F, PC>(x.lookup@, y.lookup@),
        same_terms::<F, PC>(x.permutation@, y.permutation@),
    ensures
        same_terms::<F, PC>(x.all(), y.all()),
{
    let x1 = x.arithmetic@ + x.range@;
    let y1 = y.arithmetic@ + y.range@;
    let x2 = x1 + x.logic@;
    let y2 = y1 + y.logic@;
    let x3 = x2 + x.fixed_base_scalar_mul@;
    let y3 = y2 + y.fixed_base_scalar_mul@;
    let x4 = x3 + x.curve_addition@;
    let y4 = y3 + y.curve_addition@;
    lemma_same_terms_concat::<F, PC>(x.arithmetic@, y.arithmetic@, x.range@, y.range@);
    lemma_same_terms_concat::<F, PC>(x1, y1, x.logic@, y.logic@);
    lemma_same_terms_concat::<F, PC>(x2, y2, x.fixed_base_scalar_mul@, y.fixed_base_scalar_mul@);
    lemma_same_terms_concat::<F, PC>(x3, y3, x.curve_addition@, y.curve_addition@);
    lemma_same_terms_concat::<F, PC>(x4, y4, x.lookup@, y.lookup@);
    lemma_same_terms_concat::<F, PC>(
        x4 + x.lookup@,
        y4 + y.lookup@,
        x.permutation@,
        y.permutation@,
    );
}

proof fn lemma_same_terms_concat<F: PrimeField, PC: HomomorphicCommitment<F>>(
    a: Seq<(F, PC::Commitment)>,
    b: Seq<(F, PC::Commitment)>,
    x: Seq<(F, PC::Commitment)>,
    y: Seq<(F, PC::Commitment)>,
)
    requires
        same_terms::<F, PC>(a, b),
        same_terms::<F, PC>(x, y),
    ensures
        same_terms::<F, PC>(a + x, b + y),
{
    assert(term_scalars(a + x) =~= term_scalars(a) + term_scalars(x));
    assert(term_scalars(b + y) =~= term_scalars(b) + term_scalars(y));
    assert(term_points::<F, PC>(a + x) =~= term_points::<F, PC>(a) + term_points::<F, PC>(x));
    assert(term_points::<F, PC>(b + y) =~= term_points::<F, PC>(b) + term_points::<F, PC>(y));
}

/// Of two proofs that differ in the pieces of the quotient polynomial alone, one may have a
/// linearisation commitment exactly where the other may, if the evaluation point is in the
/// domain.
pub proof fn lemma_linearisation_on_domain<
    F: PrimeField,
    PC: HomomorphicCommitment<F>,
    G: GateConstraints<F, PC>,
>(
    a: Proof<F, PC>,
    b: Proof<F, PC>,
    key: VerifierKey<F, PC, G>,
    c: Challenges<F>,
    l1_eval: F,
    n: nat,
    point: PC::Point,
)
    requires
        a.evaluations == b.evaluations,
        a.z_comm == b.z_comm,
        a.z_2_comm == b.z_2_comm,
        a.h_1_comm == b.h_1_comm,
        congruent(F::modulus(), pow(c.z_challenge.value(), n), 1),
    ensures
        is_linearisation(a, key, c, l1_eval, n, point) == is_linearisation(
            b,
            key,
            c,
            l1_eval,
            n,
            point,
        ),
{
    let z = c.z_challenge.value();
    assert forall|terms: GateTerms<F, PC::Commitment>|
        #![trigger gates_return(a, key, c, l1_eval, terms)]
        #![trigger gates_return(b, key, c, l1_eval, terms)]
        gates_return(a, key, c, l1_eval, terms) == gates_return(b, key, c, l1_eval, terms)
            && a.linearisation(terms.all(), n, z) == b.linearisation(terms.all(), n, z) by {
        lemma_quotient_vanishes_on_domain(a, b, terms.all(), n, z);
    }
}

/// Where gates give the same answer to the same question, adding `d[k]` to the commitment to
/// the `k`-th piece of the quotient polynomial adds `-Z_H(z) * z^(k n) * d[k]` to the
/// linearisation commitment.
pub proof fn lemma_linearisation_is_additive<
    F: PrimeField,
    PC: HomomorphicCommitment<F>,
    G: GateConstraints<F, PC>,
>(
    a: Proof<F, PC>,
    b: Proof<F, PC>,
    d: Seq<PC::Point>,
    key: VerifierKey<F, PC, G>,
    c: Challenges<F>,
    l1_eval: F,
    n: nat,
    first: PC::Point,
    second: PC::Point,
)
    requires
        a.evaluations == b.evaluations,
        a.z_comm == b.z_comm,
        a.z_2_comm == b.z_2_comm,
        a.h_1_comm == b.h_1_comm,
        d.len() == 4,
        forall|k: int|
            0 <= k < 4 ==> #[trigger] b.quotient_points()[k] == PC::plus(
                a.quotient_points()[k],
                d[k],
            ),
        answers_alike(a, key),
        is_linearisation(a, key, c, l1_eval, n, first),
        is_linearisation(b, key, c, l1_eval, n, second),
    ensures
        ({
            let p = F::modulus();
            let z = c.z_challenge.value();
            second == PC::plus(
                first,
                PC::plus(
                    PC::plus(
                        PC::plus(
                            PC::scaled(quotient_scalar(p, z, n, 0), d[0]),
                            PC::scaled(quotient_scalar(p, z, n, 1), d[1]),
                        ),
                        PC::scaled(quotient_scalar(p, z, n, 2), d[2]),
                    ),
                    PC::scaled(quotient_scalar(p, z, n, 3), d[3]),
                ),
            )
        }),
{
    let z = c.z_challenge.value();
    let x = choose|x: GateTerms<F, PC::Commitment>| #[trigger]
        gates_return(a, key, c, l1_eval, x) && first == a.linearisation(x.all(), n, z);
    let y = choose|y: GateTerms<F, PC::Commitment>| #[trigger]
        gates_return(b, key, c, l1_eval, y) && second == b.linearisation(y.all(), n, z);
    assert(gates_return(a, key, c, l1_eval, x) && gates_return(a, key, c, l1_eval, y));
    lemma_same_terms_all::<F, PC>(x, y);
    lemma_quotient_is_additive(a, b, d, x.all(), n, z);
}

} // verus!
