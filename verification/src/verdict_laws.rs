//! What a verdict says of the polynomials behind the commitments.
use vstd::arithmetic::power::{
    lemma1_pow, lemma_pow0, lemma_pow1, lemma_pow_adds, lemma_pow_multiplies, lemma_pow_positive,
    pow,
};
use vstd::prelude::*;

use crate::arithmetic::{
    congruent, inverse_of, lemma_congruent_difference, lemma_congruent_power,
    lemma_congruent_product, lemma_congruent_sum, lemma_reduce_range, lemma_reduce_small, reduce,
};
use crate::challenges::Challenges;
use crate::claim_laws::{
    are_claims, claimed_at_next, claimed_at_z, lemma_statement_is_claimed, table_total,
};
use crate::claims::{lemma_asked_at, lemma_claims_kept_apart, lemma_labels_differ, numbered_label};
use crate::commitment::{EvaluationsModel, HomomorphicCommitment, QueryModel};
use crate::domain::{lemma_count_below_width, trailing_zero_bits, trailing_zeros};
use crate::error::Error;
use crate::evaluations::{first_labelled, CustomEvaluations};
use crate::field::PrimeField;
use crate::interpolation::{
    evaluation_at, interpolates, is_outside, lemma_barycentric_interpolates,
};
use crate::lagrange::{barycentric_eval, barycentric_sum, values};
use crate::linearisation::gates_return;
use crate::linearisation_laws::{
    gates_total, lemma_gates_are_asked, lemma_linearisation_total, may_answer, quotient_total,
    total,
};
use crate::openings::two_point_statement;
use crate::polynomial::evaluate;
use crate::proof_system::{first_lagrange, has_quotients, Proof};
use crate::public_inputs::PublicInputs;
use crate::transcript::Log;
use crate::transcript_laws::{is_history, lemma_draws_is_history};
use crate::verifier_key::{GateConstraints, GateTerms, VerifierKey};

verus! {

/// `ev` gives the values of the polynomials behind commitments: sums and multiples of
/// commitments are commitments to sums and multiples of polynomials.
pub open spec fn is_evaluation<F: PrimeField, PC: HomomorphicCommitment<F>>(
    ev: spec_fn(PC::Point, int) -> int,
) -> bool {
    &&& forall|a: PC::Point, x: int| 0 <= #[trigger] ev(a, x) < F::modulus()
    &&& forall|a: PC::Point, b: PC::Point, x: int| #[trigger]
        ev(PC::plus(a, b), x) % F::modulus() == (ev(a, x) + ev(b, x)) % F::modulus()
    &&& forall|s: int, a: PC::Point, x: int| #[trigger]
        ev(PC::scaled(s, a), x) % F::modulus() == (s * ev(a, x)) % F::modulus()
}

/// Every claim is true: the polynomial behind a commitment that is asked for takes the claimed
/// value at the point at which it is asked for.
pub open spec fn claims_hold<Point>(
    ev: spec_fn(Point, int) -> int,
    commitments: Seq<(Seq<char>, Point)>,
    queries: Set<QueryModel>,
    evaluations: EvaluationsModel,
) -> bool {
    forall|q: QueryModel, i: int|
        #![trigger queries.contains(q), commitments[i]]
        queries.contains(q) && 0 <= i < commitments.len() && commitments[i].0 == q.0
            ==> evaluations.contains_key((q.0, q.1.1)) && evaluations[(q.0, q.1.1)] == ev(
            commitments[i].1,
            q.1.1,
        )
}

/// The scheme accepts the openings for all claims that are true.
pub open spec fn accepts_truth<F: PrimeField, PC: HomomorphicCommitment<F>>(
    ev: spec_fn(PC::Point, int) -> int,
    verifier_key: PC::VerifierKey,
    proof: PC::BatchProof,
    challenge: int,
    log: Log,
) -> bool {
    forall|
        commitments: Seq<(Seq<char>, PC::Point)>,
        queries: Set<QueryModel>,
        evaluations: EvaluationsModel,
    |
        claims_hold(ev, commitments, queries, evaluations) ==> #[trigger] PC::accepts(
            verifier_key,
            commitments,
            queries,
            evaluations,
            proof,
            challenge,
            log,
        )
}

/// The scheme accepts the openings for no claims but those that are true.
pub open spec fn rejects_untruth<F: PrimeField, PC: HomomorphicCommitment<F>>(
    ev: spec_fn(PC::Point, int) -> int,
    verifier_key: PC::VerifierKey,
    proof: PC::BatchProof,
    challenge: int,
    log: Log,
) -> bool {
    forall|
        commitments: Seq<(Seq<char>, PC::Point)>,
        queries: Set<QueryModel>,
        evaluations: EvaluationsModel,
    | #[trigger]
        PC::accepts(
            verifier_key,
            commitments,
            queries,
            evaluations,
            proof,
            challenge,
            log,
        ) ==> claims_hold(ev, commitments, queries, evaluations)
}

/// The sum of the values at `x` of the polynomials behind some terms, each multiplied by its
/// scalar.
pub open spec fn weighed<F: PrimeField, PC: HomomorphicCommitment<F>>(
    ev: spec_fn(PC::Point, int) -> int,
    terms: Seq<(F, PC::Commitment)>,
    x: int,
) -> int
    decreases terms.len(),
{
    if terms.len() == 0 {
        0
    } else {
        weighed::<F, PC>(ev, terms.drop_last(), x) + terms.last().0.value() * ev(
            PC::point(terms.last().1),
            x,
        )
    }
}

/// The value at `x` of the polynomial that the columns of the lookup table combine to.
pub open spec fn table_value<F: PrimeField, PC: HomomorphicCommitment<F>, G>(
    ev: spec_fn(PC::Point, int) -> int,
    key: VerifierKey<F, PC, G>,
    zeta: int,
    x: int,
) -> int {
    ev(PC::point(key.lookup.table_1), x) + zeta * ev(PC::point(key.lookup.table_2), x) + zeta * zeta
        * ev(PC::point(key.lookup.table_3), x) + zeta * zeta * zeta * ev(
        PC::point(key.lookup.table_4),
        x,
    )
}

/// The evaluations that the proof lists are those of the committed polynomials, at the
/// evaluation point `z` and at `z * omega`.
pub open spec fn evaluations_are_right<F: PrimeField, PC: HomomorphicCommitment<F>, G>(
    ev: spec_fn(PC::Point, int) -> int,
    p: Proof<F, PC>,
    key: VerifierKey<F, PC, G>,
    zeta: int,
    z: int,
    omega: int,
) -> bool {
    let wires = p.evaluations.wire_evals;
    let perm = p.evaluations.perm_evals;
    let lookup = p.evaluations.lookup_evals;
    let custom = p.evaluations.custom_evals;
    let next = (z * omega) % F::modulus();
    &&& ev(PC::point(p.a_comm), z) == wires.a_eval.value()
    &&& ev(PC::point(p.b_comm), z) == wires.b_eval.value()
    &&& ev(PC::point(p.c_comm), z) == wires.c_eval.value()
    &&& ev(PC::point(p.d_comm), z) == wires.d_eval.value()
    &&& ev(PC::point(key.permutation.left_sigma), z) == perm.left_sigma_eval.value()
    &&& ev(PC::point(key.permutation.right_sigma), z) == perm.right_sigma_eval.value()
    &&& ev(PC::point(key.permutation.out_sigma), z) == perm.out_sigma_eval.value()
    &&& ev(PC::point(p.f_comm), z) == lookup.f_eval.value()
    &&& ev(PC::point(p.h_2_comm), z) == lookup.h2_eval.value()
    &&& table_value(ev, key, zeta, z) % F::modulus() == lookup.table_eval.value()
    &&& ev(PC::point(p.z_comm), next) == perm.permutation_eval.value()
    &&& ev(PC::point(p.a_comm), next) == custom.value_of("a_next_eval"@)
    &&& ev(PC::point(p.b_comm), next) == custom.value_of("b_next_eval"@)
    &&& ev(PC::point(p.d_comm), next) == custom.value_of("d_next_eval"@)
    &&& ev(PC::point(p.h_1_comm), next) == lookup.h1_next_eval.value()
    &&& ev(PC::point(p.z_2_comm), next) == lookup.z2_next_eval.value()
    &&& table_value(ev, key, zeta, next) % F::modulus() == lookup.table_next_eval.value()
}

/// The identity of the circuit holds at the evaluation point `z`: what the gates contribute,
/// with the public inputs and the constant parts of the permutation and of the lookup
/// argument, is the quotient polynomial times the vanishing polynomial. `pi` is the value of
/// the public input polynomial, and `l1` that of the first Lagrange polynomial.
pub open spec fn identity_holds<F: PrimeField, PC: HomomorphicCommitment<F>>(
    ev: spec_fn(PC::Point, int) -> int,
    p: Proof<F, PC>,
    c: Challenges<F>,
    terms: GateTerms<F, PC::Commitment>,
    n: nat,
    pi: int,
    l1: int,
) -> bool {
    let z = c.z_challenge.value();
    let wires = p.evaluations.wire_evals;
    let perm = p.evaluations.perm_evals;
    let lookup = p.evaluations.lookup_evals;
    let alpha = c.alpha.value();
    let beta = c.beta.value();
    let gamma = c.gamma.value();
    let delta = c.delta.value();
    let shift = c.epsilon.value() * (1 + delta);
    let s = c.lookup_sep_challenge.value();
    let gates = weighed::<F, PC>(ev, terms.arithmetic@, z) + weighed::<F, PC>(ev, terms.range@, z)
        + weighed::<F, PC>(ev, terms.logic@, z) + weighed::<F, PC>(
        ev,
        terms.fixed_base_scalar_mul@,
        z,
    ) + weighed::<F, PC>(ev, terms.curve_addition@, z) + weighed::<F, PC>(ev, terms.lookup@, z)
        + weighed::<F, PC>(ev, terms.permutation@, z);
    let copies = (wires.a_eval.value() + beta * perm.left_sigma_eval.value() + gamma) * (
    wires.b_eval.value() + beta * perm.right_sigma_eval.value() + gamma) * (wires.c_eval.value()
        + beta * perm.out_sigma_eval.value() + gamma) * ((wires.d_eval.value() + gamma)
        * perm.permutation_eval.value() * alpha);
    let lookups = (s * s) * lookup.z2_next_eval.value() * (shift + delta * lookup.h2_eval.value())
        * (shift + lookup.h2_eval.value() + delta * lookup.h1_next_eval.value());
    let quotient = ev(PC::point(p.t_1_comm), z) + pow(z, n) * ev(PC::point(p.t_2_comm), z) + pow(
        z,
        2 * n,
    ) * ev(PC::point(p.t_3_comm), z) + pow(z, 3 * n) * ev(PC::point(p.t_4_comm), z);
    (gates + (pi - copies - l1 * (alpha * alpha) - lookups - (s * s) * s * l1)) % F::modulus() == ((
    pow(z, n) - 1) * quotient) % F::modulus()
}

/// The polynomial with the given coefficients takes the public inputs on the domain, and zero
/// where there are no more of them.
pub open spec fn is_input_polynomial<F: PrimeField>(
    coefficients: Seq<int>,
    inputs: Seq<F>,
    omega: int,
    n: nat,
) -> bool {
    &&& inputs.len() <= n
    &&& coefficients.len() <= n
    &&& forall|i: int|
        0 <= i < inputs.len() ==> evaluate(coefficients, pow(omega, i as nat)) % F::modulus()
            == #[trigger] inputs[i].value()
    &&& forall|i: nat|
        inputs.len() <= i < n ==> evaluate(coefficients, #[trigger] pow(omega, i)) % F::modulus()
            == 0
}

/// The values of the public inputs.
pub open spec fn input_values<F: PrimeField>(inputs: PublicInputs<F>) -> Seq<int> {
    Seq::new(inputs.evaluations@.len(), |i: int| inputs.evaluations@[i].value())
}

/// [`Proof::verify`] or [`Proof::try_verify`] came to this verdict.
pub open spec fn is_returned<
    F: PrimeField,
    PC: HomomorphicCommitment<F>,
    G: GateConstraints<F, PC>,
>(
    p: Proof<F, PC>,
    key: VerifierKey<F, PC, G>,
    verifier_key: PC::VerifierKey,
    inputs: PublicInputs<F>,
    verdict: Result<(), Error>,
) -> bool {
    call_ensures(Proof::<F, PC>::verify::<G>, (&p, &key, &verifier_key, &inputs), verdict)
        || call_ensures(
        Proof::<F, PC>::try_verify::<G>,
        (&p, &key, &verifier_key, &inputs),
        Some(verdict),
    )
}

proof fn lemma_ev_plus<F: PrimeField, PC: HomomorphicCommitment<F>>(
    ev: spec_fn(PC::Point, int) -> int,
    a: PC::Point,
    b: PC::Point,
    x: int,
    u: int,
    v: int,
)
    requires
        is_evaluation::<F, PC>(ev),
        ev(a, x) % F::modulus() == u % F::modulus(),
        ev(b, x) % F::modulus() == v % F::modulus(),
    ensures
        ev(PC::plus(a, b), x) % F::modulus() == (u + v) % F::modulus(),
{
    assert(0 <= ev(a, x) < F::modulus());
    lemma_congruent_sum(F::modulus(), ev(a, x), ev(b, x), u, v);
}

proof fn lemma_ev_scaled<F: PrimeField, PC: HomomorphicCommitment<F>>(
    ev: spec_fn(PC::Point, int) -> int,
    s: int,
    t: int,
    a: PC::Point,
    x: int,
)
    requires
        is_evaluation::<F, PC>(ev),
        s % F::modulus() == t % F::modulus(),
    ensures
        ev(PC::scaled(s, a), x) % F::modulus() == (t * ev(a, x)) % F::modulus(),
{
    assert(0 <= ev(a, x) < F::modulus());
    lemma_congruent_product(F::modulus(), s, ev(a, x), t, ev(a, x));
}

proof fn lemma_ev_neutral<F: PrimeField, PC: HomomorphicCommitment<F>>(
    ev: spec_fn(PC::Point, int) -> int,
    a: PC::Point,
    x: int,
)
    requires
        is_evaluation::<F, PC>(ev),
    ensures
        ev(PC::neutral(), x) == 0,
{
    PC::lemma_scaled(0, a, a);
    assert(ev(PC::scaled(0, a), x) % F::modulus() == (0 * ev(a, x)) % F::modulus());
    assert(0 <= ev(PC::neutral(), x) < F::modulus());
    lemma_reduce_small(F::modulus(), ev(PC::neutral(), x));
    lemma_reduce_small(F::modulus(), 0);
}

proof fn lemma_ev_total<F: PrimeField, PC: HomomorphicCommitment<F>>(
    ev: spec_fn(PC::Point, int) -> int,
    terms: Seq<(F, PC::Commitment)>,
    x: int,
)
    requires
        is_evaluation::<F, PC>(ev),
    ensures
        ev(total::<F, PC>(terms), x) % F::modulus() == weighed::<F, PC>(ev, terms, x)
            % F::modulus(),
    decreases terms.len(),
{
    if terms.len() == 0 {
        lemma_ev_neutral::<F, PC>(ev, PC::neutral(), x);
    } else {
        let s = terms.last().0.value();
        let a = PC::point(terms.last().1);
        lemma_ev_total::<F, PC>(ev, terms.drop_last(), x);
        lemma_ev_scaled::<F, PC>(ev, s, s, a, x);
        lemma_ev_plus::<F, PC>(
            ev,
            total::<F, PC>(terms.drop_last()),
            PC::scaled(s, a),
            x,
            weighed::<F, PC>(ev, terms.drop_last(), x),
            s * ev(a, x),
        );
    }
}

/// The value of the linearisation at the evaluation point.
proof fn lemma_ev_linearisation<F: PrimeField, PC: HomomorphicCommitment<F>>(
    ev: spec_fn(PC::Point, int) -> int,
    p: Proof<F, PC>,
    terms: GateTerms<F, PC::Commitment>,
    n: nat,
    z: int,
)
    requires
        is_evaluation::<F, PC>(ev),
    ensures
        ({
            let gates = weighed::<F, PC>(ev, terms.arithmetic@, z) + weighed::<F, PC>(
                ev,
                terms.range@,
                z,
            ) + weighed::<F, PC>(ev, terms.logic@, z) + weighed::<F, PC>(
                ev,
                terms.fixed_base_scalar_mul@,
                z,
            ) + weighed::<F, PC>(ev, terms.curve_addition@, z) + weighed::<F, PC>(
                ev,
                terms.lookup@,
                z,
            ) + weighed::<F, PC>(ev, terms.permutation@, z);
            let quotient = ev(PC::point(p.t_1_comm), z) + pow(z, n) * ev(PC::point(p.t_2_comm), z)
                + pow(z, 2 * n) * ev(PC::point(p.t_3_comm), z) + pow(z, 3 * n) * ev(
                PC::point(p.t_4_comm),
                z,
            );
            ev(p.linearisation(terms.all(), n, z), z) % F::modulus() == (gates - (pow(z, n) - 1)
                * quotient) % F::modulus()
        }),
{
    let m = F::modulus();
    let a1 = weighed::<F, PC>(ev, terms.arithmetic@, z);
    let a2 = weighed::<F, PC>(ev, terms.range@, z);
    let a3 = weighed::<F, PC>(ev, terms.logic@, z);
    let a4 = weighed::<F, PC>(ev, terms.fixed_base_scalar_mul@, z);
    let a5 = weighed::<F, PC>(ev, terms.curve_addition@, z);
    let a6 = weighed::<F, PC>(ev, terms.lookup@, z);
    let a7 = weighed::<F, PC>(ev, terms.permutation@, z);
    let p1 = total::<F, PC>(terms.arithmetic@);
    let p2 = total::<F, PC>(terms.range@);
    let p3 = total::<F, PC>(terms.logic@);
    let p4 = total::<F, PC>(terms.fixed_base_scalar_mul@);
    let p5 = total::<F, PC>(terms.curve_addition@);
    let p6 = total::<F, PC>(terms.lookup@);
    let p7 = total::<F, PC>(terms.permutation@);
    lemma_ev_total::<F, PC>(ev, terms.arithmetic@, z);
    lemma_ev_total::<F, PC>(ev, terms.range@, z);
    lemma_ev_total::<F, PC>(ev, terms.logic@, z);
    lemma_ev_total::<F, PC>(ev, terms.fixed_base_scalar_mul@, z);
    lemma_ev_total::<F, PC>(ev, terms.curve_addition@, z);
    lemma_ev_total::<F, PC>(ev, terms.lookup@, z);
    lemma_ev_total::<F, PC>(ev, terms.permutation@, z);
    let q2 = PC::plus(p1, p2);
    let q3 = PC::plus(q2, p3);
    let q4 = PC::plus(q3, p4);
    let q5 = PC::plus(q4, p5);
    let q6 = PC::plus(q5, p6);
    let q7 = PC::plus(q6, p7);
    lemma_ev_plus::<F, PC>(ev, p1, p2, z, a1, a2);
    lemma_ev_plus::<F, PC>(ev, q2, p3, z, a1 + a2, a3);
    lemma_ev_plus::<F, PC>(ev, q3, p4, z, a1 + a2 + a3, a4);
    lemma_ev_plus::<F, PC>(ev, q4, p5, z, a1 + a2 + a3 + a4, a5);
    lemma_ev_plus::<F, PC>(ev, q5, p6, z, a1 + a2 + a3 + a4 + a5, a6);
    lemma_ev_plus::<F, PC>(ev, q6, p7, z, a1 + a2 + a3 + a4 + a5 + a6, a7);
    let gates = a1 + a2 + a3 + a4 + a5 + a6 + a7;

    let v = -(pow(z, n) - 1);
    let t1 = PC::point(p.t_1_comm);
    let t2 = PC::point(p.t_2_comm);
    let t3 = PC::point(p.t_3_comm);
    let t4 = PC::point(p.t_4_comm);
    let s1 = v * pow(z, 0);
    let s2 = v * pow(z, n);
    let s3 = v * pow(z, 2 * n);
    let s4 = v * pow(z, 3 * n);
    F::lemma_value_range(arbitrary());
    lemma_reduce_range(m, s1);
    lemma_reduce_range(m, s2);
    lemma_reduce_range(m, s3);
    lemma_reduce_range(m, s4);
    lemma_ev_scaled::<F, PC>(ev, s1 % m, s1, t1, z);
    lemma_ev_scaled::<F, PC>(ev, s2 % m, s2, t2, z);
    lemma_ev_scaled::<F, PC>(ev, s3 % m, s3, t3, z);
    lemma_ev_scaled::<F, PC>(ev, s4 % m, s4, t4, z);
    let u1 = PC::scaled(s1 % m, t1);
    let u2 = PC::scaled(s2 % m, t2);
    let u3 = PC::scaled(s3 % m, t3);
    let u4 = PC::scaled(s4 % m, t4);
    let e1 = ev(t1, z);
    let e2 = ev(t2, z);
    let e3 = ev(t3, z);
    let e4 = ev(t4, z);
    lemma_ev_plus::<F, PC>(ev, u1, u2, z, s1 * e1, s2 * e2);
    lemma_ev_plus::<F, PC>(ev, PC::plus(u1, u2), u3, z, s1 * e1 + s2 * e2, s3 * e3);
    lemma_ev_plus::<F, PC>(
        ev,
        PC::plus(PC::plus(u1, u2), u3),
        u4,
        z,
        s1 * e1 + s2 * e2 + s3 * e3,
        s4 * e4,
    );
    let all = s1 * e1 + s2 * e2 + s3 * e3 + s4 * e4;
    lemma_linearisation_total(p, terms, n, z);
    lemma_ev_plus::<F, PC>(ev, q7, quotient_total(p, z, n), z, gates, all);
    lemma_pow0(z);
    let y1 = pow(z, n);
    let y2 = pow(z, 2 * n);
    let y3 = pow(z, 3 * n);
    let quotient = e1 + y1 * e2 + y2 * e3 + y3 * e4;
    assert((v * y1) * e2 == v * (y1 * e2)) by (nonlinear_arith);
    assert((v * y2) * e3 == v * (y2 * e3)) by (nonlinear_arith);
    assert((v * y3) * e4 == v * (y3 * e4)) by (nonlinear_arith);
    let b2 = y1 * e2;
    let b3 = y2 * e3;
    let b4 = y3 * e4;
    assert(v * e1 + v * b2 + v * b3 + v * b4 == v * (e1 + b2 + b3 + b4)) by (nonlinear_arith);
    let w = y1 - 1;
    assert((-w) * quotient == -(w * quotient)) by (nonlinear_arith);
}

/// The value of the combined lookup table.
proof fn lemma_ev_table<F: PrimeField, PC: HomomorphicCommitment<F>, G>(
    ev: spec_fn(PC::Point, int) -> int,
    key: VerifierKey<F, PC, G>,
    zeta: int,
    x: int,
)
    requires
        is_evaluation::<F, PC>(ev),
    ensures
        ev(Proof::<F, PC>::table_point(key, zeta), x) == table_value(ev, key, zeta, x)
            % F::modulus(),
{
    let m = F::modulus();
    F::lemma_value_range(arbitrary());
    let t1 = PC::point(key.lookup.table_1);
    let t2 = PC::point(key.lookup.table_2);
    let t3 = PC::point(key.lookup.table_3);
    let t4 = PC::point(key.lookup.table_4);
    let z2 = reduce(m, zeta * zeta);
    let z3 = reduce(m, zeta * zeta * zeta);
    let none = Seq::<PC::Point>::empty();
    let zero = Seq::<int>::empty();
    PC::lemma_combination(none, zero, t1, 1);
    PC::lemma_combination(seq![t1], seq![1int], t2, zeta);
    PC::lemma_combination(seq![t1, t2], seq![1int, zeta], t3, z2);
    PC::lemma_combination(seq![t1, t2, t3], seq![1int, zeta, z2], t4, z3);
    assert(none.push(t1) =~= seq![t1]);
    assert(zero.push(1) =~= seq![1int]);
    assert(seq![t1].push(t2) =~= seq![t1, t2]);
    assert(seq![1int].push(zeta) =~= seq![1int, zeta]);
    assert(seq![t1, t2].push(t3) =~= seq![t1, t2, t3]);
    assert(seq![1int, zeta].push(z2) =~= seq![1int, zeta, z2]);
    assert(seq![t1, t2, t3].push(t4) =~= seq![t1, t2, t3, t4]);
    assert(seq![1int, zeta, z2].push(z3) =~= seq![1int, zeta, z2, z3]);
    lemma_reduce_range(m, zeta * zeta);
    lemma_reduce_range(m, zeta * zeta * zeta);
    lemma_ev_scaled::<F, PC>(ev, 1, 1, t1, x);
    lemma_ev_scaled::<F, PC>(ev, zeta, zeta, t2, x);
    lemma_ev_scaled::<F, PC>(ev, z2, zeta * zeta, t3, x);
    lemma_ev_scaled::<F, PC>(ev, z3, zeta * zeta * zeta, t4, x);
    lemma_ev_neutral::<F, PC>(ev, t1, x);
    let u0 = PC::neutral();
    let u1 = PC::plus(u0, PC::scaled(1, t1));
    let u2 = PC::plus(u1, PC::scaled(zeta, t2));
    let u3 = PC::plus(u2, PC::scaled(z2, t3));
    let u4 = PC::plus(u3, PC::scaled(z3, t4));
    let v1 = ev(t1, x);
    let v2 = v1 + zeta * ev(t2, x);
    let v3 = v2 + zeta * zeta * ev(t3, x);
    let v4 = v3 + zeta * zeta * zeta * ev(t4, x);
    lemma_ev_plus::<F, PC>(ev, u0, PC::scaled(1, t1), x, 0, v1);
    lemma_ev_plus::<F, PC>(ev, u1, PC::scaled(zeta, t2), x, v1, zeta * ev(t2, x));
    lemma_ev_plus::<F, PC>(ev, u2, PC::scaled(z2, t3), x, v2, zeta * zeta * ev(t3, x));
    lemma_ev_plus::<F, PC>(ev, u3, PC::scaled(z3, t4), x, v3, zeta * zeta * zeta * ev(t4, x));
    assert(u4 == Proof::<F, PC>::table_point(key, zeta));
    assert(0 <= ev(u4, x) < m);
    lemma_reduce_small(m, ev(u4, x));
}

/// A statement about two points is true where every commitment takes the value that is listed
/// with it, and nowhere else.
proof fn lemma_statement_holds<Point>(
    ev: spec_fn(Point, int) -> int,
    w_points: Seq<Point>,
    w_values: Seq<int>,
    z: int,
    saw_points: Seq<Point>,
    saw_values: Seq<int>,
    omega_z: int,
)
    requires
        w_points.len() == w_values.len(),
        saw_points.len() == saw_values.len(),
    ensures
        ({
            let s = two_point_statement(w_points, w_values, z, saw_points, saw_values, omega_z);
            claims_hold(ev, s.commitments, s.queries, s.evaluations) <==> (forall|i: int|
                0 <= i < w_points.len() ==> #[trigger] w_values[i] == ev(w_points[i], z)) && (
            forall|i: int|
                0 <= i < saw_points.len() ==> #[trigger] saw_values[i] == ev(
                    saw_points[i],
                    omega_z,
                ))
        }),
{
    let s = two_point_statement(w_points, w_values, z, saw_points, saw_values, omega_z);
    let n = w_points.len();
    let m = saw_points.len();
    reveal_strlit("w_");
    reveal_strlit("saw_");
    if claims_hold(ev, s.commitments, s.queries, s.evaluations) {
        assert forall|i: int| 0 <= i < n implies #[trigger] w_values[i] == ev(w_points[i], z) by {
            let q: QueryModel = (numbered_label("w_"@, i as nat), ("z"@, z));
            lemma_asked_at("w_"@, n, "z"@, z, q);
            lemma_claims_kept_apart("w_"@, w_values, z, "saw_"@, saw_values, omega_z, i as nat);
            assert(s.queries.contains(q));
            assert(s.commitments[i].0 == q.0);
        }
        assert forall|i: int| 0 <= i < m implies #[trigger] saw_values[i] == ev(
            saw_points[i],
            omega_z,
        ) by {
            let q: QueryModel = (numbered_label("saw_"@, i as nat), ("omega_z"@, omega_z));
            lemma_asked_at("saw_"@, m, "omega_z"@, omega_z, q);
            lemma_claims_kept_apart("w_"@, w_values, z, "saw_"@, saw_values, omega_z, i as nat);
            assert(s.queries.contains(q));
            assert(s.commitments[n + i].0 == q.0);
        }
    }
    if (forall|i: int| 0 <= i < n ==> #[trigger] w_values[i] == ev(w_points[i], z)) && (forall|
        i: int,
    |
        0 <= i < m ==> #[trigger] saw_values[i] == ev(saw_points[i], omega_z)) {
        assert forall|q: QueryModel, i: int|
            #![trigger s.queries.contains(q), s.commitments[i]]
            s.queries.contains(q) && 0 <= i < s.commitments.len() && s.commitments[i].0
                == q.0 implies s.evaluations.contains_key((q.0, q.1.1)) && s.evaluations[(
            q.0,
            q.1.1,
        )] == ev(s.commitments[i].1, q.1.1) by {
            lemma_asked_at("w_"@, n, "z"@, z, q);
            lemma_asked_at("saw_"@, m, "omega_z"@, omega_z, q);
            if q.1 == ("z"@, z) && exists|j: nat|
                j < n && q.0 == #[trigger] numbered_label("w_"@, j) {
                let j = choose|j: nat| j < n && q.0 == #[trigger] numbered_label("w_"@, j);
                lemma_claims_kept_apart("w_"@, w_values, z, "saw_"@, saw_values, omega_z, j);
                assert(q.0[0] == 'w');
                if i < n {
                    if i != j {
                        lemma_labels_differ("w_"@, i as nat, j);
                    }
                    assert(w_values[i] == ev(w_points[i], z));
                } else {
                    assert(s.commitments[i].0 == numbered_label("saw_"@, (i - n) as nat));
                    assert(s.commitments[i].0[0] == 's');
                }
            } else {
                let j = choose|j: nat| j < m && q.0 == #[trigger] numbered_label("saw_"@, j);
                lemma_claims_kept_apart("w_"@, w_values, z, "saw_"@, saw_values, omega_z, j);
                assert(q.0[0] == 's');
                if i < n {
                    assert(s.commitments[i].0 == numbered_label("w_"@, i as nat));
                    assert(s.commitments[i].0[0] == 'w');
                } else {
                    if i - n != j {
                        lemma_labels_differ("saw_"@, (i - n) as nat, j);
                    }
                    assert(saw_values[i - n] == ev(saw_points[i - n], omega_z));
                }
            }
        }
    }
}

/// The value at `z` of the polynomial with the given coefficients, and zero where `z` is in the
/// domain.
pub open spec fn input_value(p: int, coefficients: Seq<int>, n: nat, z: int) -> int {
    if pow(z, n) % p == 1 {
        0
    } else {
        evaluate(coefficients, z)
    }
}

/// What the barycentric formula gives for the public inputs.
pub open spec fn input_formula<F: PrimeField>(
    inputs: PublicInputs<F>,
    n: nat,
    omega: int,
    z: int,
) -> int {
    barycentric_eval(
        F::modulus(),
        input_values(inputs),
        z,
        n,
        inverse_of(F::modulus(), n as int),
        inverse_of(F::modulus(), omega),
    )
}

/// A point whose `n`-th power is not one is none of the powers of `omega`.
proof fn lemma_off_domain(p: int, z: int, omega: int, n: nat)
    requires
        p > 1,
        congruent(p, pow(omega, n), 1),
        pow(z, n) % p != 1,
    ensures
        is_outside(p, z, omega, n),
{
    assert forall|i: nat| i < n implies !congruent(p, z, #[trigger] pow(omega, i)) by {
        if congruent(p, z, pow(omega, i)) {
            lemma_congruent_power(p, z, pow(omega, i), n);
            lemma_pow_multiplies(omega, i, n);
            lemma_pow_multiplies(omega, n, i);
            assert(i * n == n * i) by (nonlinear_arith);
            lemma_congruent_power(p, pow(omega, n), 1, i);
            lemma1_pow(i);
            lemma_reduce_small(p, 1);
        }
    }
}

/// The value of the public input polynomial is what the barycentric formula gives.
proof fn lemma_input_polynomial<F: PrimeField>(
    coefficients: Seq<int>,
    inputs: PublicInputs<F>,
    omega: int,
    n: nat,
    z: int,
)
    requires
        is_input_polynomial(coefficients, inputs.evaluations@, omega, n),
        has_quotients(F::modulus(), input_values(inputs), n, omega, z),
    ensures
        input_formula(inputs, n, omega, z) % F::modulus() == input_value(
            F::modulus(),
            coefficients,
            n,
            z,
        ) % F::modulus(),
{
    let m = F::modulus();
    let elements = inputs.evaluations@;
    let evals = input_values(inputs);
    let size_inv = inverse_of(m, n as int);
    let omega_inv = inverse_of(m, omega);
    F::lemma_value_range(arbitrary());
    lemma_reduce_small(m, 1);
    lemma_reduce_small(m, 0);
    if pow(z, n) % m == 1 {
        let all = barycentric_sum(m, evals, z, omega_inv, evals.len());
        let v = pow(z, n) - 1;
        lemma_congruent_difference(m, pow(z, n), 1, 1, 1);
        lemma_congruent_product(m, v, size_inv, 0, size_inv);
        lemma_congruent_product(m, all, v * size_inv, all, 0 * size_inv);
        assert(0 * size_inv == 0 && all * 0 == 0);
    } else {
        lemma_off_domain(m, z, omega, n);
        assert(interpolates(m, coefficients, evals, omega, n)) by {
            assert forall|i: int|
                #![trigger evaluation_at(evals, i)]
                0 <= i < n implies congruent(
                m,
                evaluate(coefficients, pow(omega, i as nat)),
                evaluation_at(evals, i),
            ) by {
                if i < elements.len() {
                    F::lemma_value_range(elements[i]);
                    lemma_reduce_small(m, elements[i].value());
                } else {
                    let j = i as nat;
                    assert(evaluate(coefficients, pow(omega, j)) % m == 0);
                }
            }
        }
        lemma_barycentric_interpolates(
            m,
            evals,
            coefficients,
            z,
            n,
            size_inv,
            omega,
            omega_inv,
        );
    }
}

/// What the openings have to show is true where the listed evaluations are right and the
/// identity of the circuit holds, and nowhere else.
proof fn lemma_statement_is_truth<
    F: PrimeField,
    PC: HomomorphicCommitment<F>,
    G: GateConstraints<F, PC>,
>(
    ev: spec_fn(PC::Point, int) -> int,
    p: Proof<F, PC>,
    key: VerifierKey<F, PC, G>,
    inputs: PublicInputs<F>,
    pi: int,
    n: nat,
    omega: int,
    c: Challenges<F>,
    l1: int,
    terms: GateTerms<F, PC::Commitment>,
)
    requires
        is_evaluation::<F, PC>(ev),
        pi % F::modulus() == input_formula(inputs, n, omega, c.z_challenge.value()) % F::modulus(),
    ensures
        ({
            let z = c.z_challenge.value();
            let s = p.statement(
                key,
                c,
                p.r0(input_values(inputs), n, omega, c, l1),
                p.linearisation(terms.all(), n, z),
                omega,
            );
            claims_hold(ev, s.commitments, s.queries, s.evaluations) <==> evaluations_are_right(
                ev,
                p,
                key,
                c.zeta.value(),
                z,
                omega,
            ) && identity_holds(ev, p, c, terms, n, pi, l1)
        }),
{
    let m = F::modulus();
    let z = c.z_challenge.value();
    let zeta = c.zeta.value();
    let lin = p.linearisation(terms.all(), n, z);
    let r0 = p.r0(input_values(inputs), n, omega, c, l1);
    let table = Proof::<F, PC>::table_point(key, zeta);
    let wires = p.evaluations.wire_evals;
    let perm = p.evaluations.perm_evals;
    let lookup = p.evaluations.lookup_evals;
    let custom = p.evaluations.custom_evals;
    let next = reduce(m, z * omega);
    let w_points = seq![
        lin,
        PC::point(key.permutation.left_sigma),
        PC::point(key.permutation.right_sigma),
        PC::point(key.permutation.out_sigma),
        PC::point(p.f_comm),
        PC::point(p.h_2_comm),
        table,
        PC::point(p.a_comm),
        PC::point(p.b_comm),
        PC::point(p.c_comm),
        PC::point(p.d_comm),
    ];
    let w_values = seq![
        reduce(m, -r0),
        perm.left_sigma_eval.value(),
        perm.right_sigma_eval.value(),
        perm.out_sigma_eval.value(),
        lookup.f_eval.value(),
        lookup.h2_eval.value(),
        lookup.table_eval.value(),
        wires.a_eval.value(),
        wires.b_eval.value(),
        wires.c_eval.value(),
        wires.d_eval.value(),
    ];
    let saw_points = seq![
        PC::point(p.z_comm),
        PC::point(p.a_comm),
        PC::point(p.b_comm),
        PC::point(p.d_comm),
        PC::point(p.h_1_comm),
        PC::point(p.z_2_comm),
        table,
    ];
    let saw_values = seq![
        perm.permutation_eval.value(),
        custom.value_of("a_next_eval"@),
        custom.value_of("b_next_eval"@),
        custom.value_of("d_next_eval"@),
        lookup.h1_next_eval.value(),
        lookup.z2_next_eval.value(),
        lookup.table_next_eval.value(),
    ];
    let s = p.statement(key, c, r0, lin, omega);
    assert(s == two_point_statement(w_points, w_values, z, saw_points, saw_values, next));
    lemma_statement_holds(ev, w_points, w_values, z, saw_points, saw_values, next);
    lemma_ev_table(ev, key, zeta, z);
    lemma_ev_table(ev, key, zeta, next);
    lemma_constant_is_value(ev, p, inputs, pi, n, omega, c, l1, terms);
    let right = evaluations_are_right(ev, p, key, zeta, z, omega);
    let identity = identity_holds(ev, p, c, terms, n, pi, l1);
    if claims_hold(ev, s.commitments, s.queries, s.evaluations) {
        assert(w_values[0] == ev(w_points[0], z));
        assert(w_values[1] == ev(w_points[1], z));
        assert(w_values[2] == ev(w_points[2], z));
        assert(w_values[3] == ev(w_points[3], z));
        assert(w_values[4] == ev(w_points[4], z));
        assert(w_values[5] == ev(w_points[5], z));
        assert(w_values[6] == ev(w_points[6], z));
        assert(w_values[7] == ev(w_points[7], z));
        assert(w_values[8] == ev(w_points[8], z));
        assert(w_values[9] == ev(w_points[9], z));
        assert(w_values[10] == ev(w_points[10], z));
        assert(saw_values[0] == ev(saw_points[0], next));
        assert(saw_values[1] == ev(saw_points[1], next));
        assert(saw_values[2] == ev(saw_points[2], next));
        assert(saw_values[3] == ev(saw_points[3], next));
        assert(saw_values[4] == ev(saw_points[4], next));
        assert(saw_values[5] == ev(saw_points[5], next));
        assert(saw_values[6] == ev(saw_points[6], next));
        assert(right && identity);
    }
    if right && identity {
        assert forall|i: int| 0 <= i < w_points.len() implies #[trigger] w_values[i] == ev(
            w_points[i],
            z,
        ) by {}
        assert forall|i: int| 0 <= i < saw_points.len() implies #[trigger] saw_values[i] == ev(
            saw_points[i],
            next,
        ) by {}
    }
}

/// The linearisation takes the value `-r_0` where the identity of the circuit holds, and
/// nowhere else.
proof fn lemma_constant_is_value<F: PrimeField, PC: HomomorphicCommitment<F>>(
    ev: spec_fn(PC::Point, int) -> int,
    p: Proof<F, PC>,
    inputs: PublicInputs<F>,
    pi: int,
    n: nat,
    omega: int,
    c: Challenges<F>,
    l1: int,
    terms: GateTerms<F, PC::Commitment>,
)
    requires
        is_evaluation::<F, PC>(ev),
        pi % F::modulus() == input_formula(inputs, n, omega, c.z_challenge.value()) % F::modulus(),
    ensures
        ({
            let z = c.z_challenge.value();
            ev(p.linearisation(terms.all(), n, z), z) == reduce(
                F::modulus(),
                -p.r0(input_values(inputs), n, omega, c, l1),
            ) <==> identity_holds(ev, p, c, terms, n, pi, l1)
        }),
{
    let m = F::modulus();
    let z = c.z_challenge.value();
    let value = ev(p.linearisation(terms.all(), n, z), z);
    let r0 = p.r0(input_values(inputs), n, omega, c, l1);
    let formula = input_formula(inputs, n, omega, z);
    let rest = r0 - formula;
    let constant = pi + rest;
    F::lemma_value_range(arbitrary());
    lemma_ev_linearisation::<F, PC>(ev, p, terms, n, z);
    let gates = weighed::<F, PC>(ev, terms.arithmetic@, z) + weighed::<F, PC>(ev, terms.range@, z)
        + weighed::<F, PC>(ev, terms.logic@, z) + weighed::<F, PC>(
        ev,
        terms.fixed_base_scalar_mul@,
        z,
    ) + weighed::<F, PC>(ev, terms.curve_addition@, z) + weighed::<F, PC>(ev, terms.lookup@, z)
        + weighed::<F, PC>(ev, terms.permutation@, z);
    let quotient = ev(PC::point(p.t_1_comm), z) + pow(z, n) * ev(PC::point(p.t_2_comm), z) + pow(
        z,
        2 * n,
    ) * ev(PC::point(p.t_3_comm), z) + pow(z, 3 * n) * ev(PC::point(p.t_4_comm), z);
    let divided = (pow(z, n) - 1) * quotient;
    let x = gates - divided;
    assert(value % m == x % m);
    assert(0 <= value < m);
    lemma_reduce_small(m, value);
    lemma_congruent_sum(m, formula, rest, pi, rest);
    assert(r0 % m == constant % m);
    lemma_congruent_sum(m, divided, constant, divided, r0);
    assert(identity_holds(ev, p, c, terms, n, pi, l1) == ((gates + constant) % m == divided % m));
    if x % m == (-r0) % m {
        lemma_congruent_sum(m, x, divided + constant, -r0, divided + r0);
    }
    if (gates + constant) % m == divided % m {
        lemma_congruent_difference(
            m,
            gates + constant,
            divided + constant,
            divided,
            divided + r0,
        );
    }
}

/// What the scheme was asked when a verdict was reached, with which challenges and with which
/// answers of the gates.
proof fn lemma_what_was_checked<
    F: PrimeField,
    PC: HomomorphicCommitment<F>,
    G: GateConstraints<F, PC>,
>(
    p: Proof<F, PC>,
    key: VerifierKey<F, PC, G>,
    verifier_key: PC::VerifierKey,
    inputs: PublicInputs<F>,
    n: nat,
    verdict: Result<(), Error>,
) -> (r: (Challenges<F>, Log, F, GateTerms<F, PC::Commitment>))
    requires
        is_returned(p, key, verifier_key, inputs, verdict),
        F::domain_size(key.n as nat) == Some(n),
    ensures
        ({
            let (c, log, l1, terms) = r;
            let z = c.z_challenge.value();
            let omega = F::domain_generator(key.n as nat);
            let s = p.statement(
                key,
                c,
                p.r0(input_values(inputs), n, omega, c, l1.value()),
                p.linearisation(terms.all(), n, z),
                omega,
            );
            &&& is_history(p, input_values(inputs), c, log)
            &&& may_answer(p, key, c, l1, terms)
            &&& (l1.value() * (n * (z - 1))) % F::modulus() == (pow(z, n) - 1) % F::modulus()
            &&& has_quotients(F::modulus(), input_values(inputs), n, omega, z)
            &&& verdict is Ok <==> PC::accepts(
                verifier_key,
                s.commitments,
                s.queries,
                s.evaluations,
                p.batch_opening,
                c.separation_challenge.value(),
                log,
            )
        }),
{
    let pi = values(inputs.evaluations@);
    let omega = F::domain_generator(key.n as nat);
    let log = p.separation_log(pi).push(None);
    assert(input_values(inputs) =~= pi);
    assert(p.is_verdict(key, verifier_key, pi, verdict));
    let (c, l1, terms) = choose|c: Challenges<F>, l1: F, terms: GateTerms<F, PC::Commitment>|
        #[trigger]
        gates_return(p, key, c, l1, terms) && p.draws(pi, c) && l1.value() == first_lagrange(
            F::modulus(),
            n,
            c.z_challenge.value(),
        ) && congruent(
            F::modulus(),
            l1.value() * (n * (c.z_challenge.value() - 1)),
            pow(c.z_challenge.value(), n) - 1,
        ) && has_quotients(F::modulus(), pi, n, omega, c.z_challenge.value()) && verdict is Ok
            == p.opens(
            key,
            verifier_key,
            pi,
            n,
            omega,
            c,
            l1.value(),
            p.linearisation(terms.all(), n, c.z_challenge.value()),
            log,
        );
    lemma_draws_is_history(p, pi, c);
    lemma_gates_are_asked(p, key, c, l1, terms);
    (c, log, l1, terms)
}

/// The part of the linearisation that does not multiply any polynomial. `pi` is the value of
/// the public input polynomial, and `l1` that of the first Lagrange polynomial.
pub open spec fn constant_part<F: PrimeField, PC: HomomorphicCommitment<F>>(
    p: Proof<F, PC>,
    c: Challenges<F>,
    pi: int,
    l1: int,
) -> int {
    let wires = p.evaluations.wire_evals;
    let perm = p.evaluations.perm_evals;
    let lookup = p.evaluations.lookup_evals;
    let alpha = c.alpha.value();
    let beta = c.beta.value();
    let gamma = c.gamma.value();
    let delta = c.delta.value();
    let shift = c.epsilon.value() * (1 + delta);
    let s = c.lookup_sep_challenge.value();
    pi - (wires.a_eval.value() + beta * perm.left_sigma_eval.value() + gamma) * (
    wires.b_eval.value() + beta * perm.right_sigma_eval.value() + gamma) * (wires.c_eval.value()
        + beta * perm.out_sigma_eval.value() + gamma) * ((wires.d_eval.value() + gamma)
        * perm.permutation_eval.value() * alpha) - l1 * (alpha * alpha) - (s * s)
        * lookup.z2_next_eval.value() * (shift + delta * lookup.h2_eval.value()) * (shift
        + lookup.h2_eval.value() + delta * lookup.h1_next_eval.value()) - (s * s) * s * l1
}

/// What a verdict is the answer to, whatever the scheme is. It is asked whether at the
/// evaluation point `z` the sum of what the gates answered and of the quotient polynomial at
/// the same `z`, multiplied by minus the vanishing polynomial, is minus the constant part, and
/// whether the other commitments take the values that the proof lists, at `z` and at
/// `z * omega`. It is asked with the opening challenge and the transcript of the proof.
pub proof fn lemma_what_is_opened<
    F: PrimeField,
    PC: HomomorphicCommitment<F>,
    G: GateConstraints<F, PC>,
>(
    p: Proof<F, PC>,
    key: VerifierKey<F, PC, G>,
    verifier_key: PC::VerifierKey,
    inputs: PublicInputs<F>,
    n: nat,
    verdict: Result<(), Error>,
)
    requires
        is_returned(p, key, verifier_key, inputs, verdict),
        F::domain_size(key.n as nat) == Some(n),
    ensures
        exists|
            c: Challenges<F>,
            log: Log,
            l1: F,
            terms: GateTerms<F, PC::Commitment>,
            commitments: Seq<(Seq<char>, PC::Point)>,
            queries: Set<QueryModel>,
            evaluations: EvaluationsModel,
        |
            #![trigger may_answer(p, key, c, l1, terms), PC::accepts(
                verifier_key,
                commitments,
                queries,
                evaluations,
                p.batch_opening,
                c.separation_challenge.value(),
                log,
            )]
            {
                let z = c.z_challenge.value();
                let omega = F::domain_generator(key.n as nat);
                let table = table_total(key, c.zeta.value());
                let lin = PC::plus(
                    gates_total::<F, PC>(
                        terms.arithmetic@,
                        terms.range@,
                        terms.logic@,
                        terms.fixed_base_scalar_mul@,
                        terms.curve_addition@,
                        terms.lookup@,
                        terms.permutation@,
                    ),
                    quotient_total(p, z, n),
                );
                let r0 = constant_part(p, c, input_formula(inputs, n, omega, z), l1.value());
                &&& is_history(p, input_values(inputs), c, log)
                &&& may_answer(p, key, c, l1, terms)
                &&& (l1.value() * (n * (z - 1))) % F::modulus() == (pow(z, n) - 1) % F::modulus()
                &&& are_claims(
                    commitments,
                    queries,
                    evaluations,
                    claimed_at_z(p, key, table, lin, r0),
                    z,
                    claimed_at_next(p, table),
                    (z * omega) % F::modulus(),
                )
                &&& verdict is Ok <==> PC::accepts(
                    verifier_key,
                    commitments,
                    queries,
                    evaluations,
                    p.batch_opening,
                    c.separation_challenge.value(),
                    log,
                )
            },
{
    let omega = F::domain_generator(key.n as nat);
    let (c, log, l1, terms) = lemma_what_was_checked(p, key, verifier_key, inputs, n, verdict);
    let z = c.z_challenge.value();
    let r0 = p.r0(input_values(inputs), n, omega, c, l1.value());
    let lin = p.linearisation(terms.all(), n, z);
    let s = p.statement(key, c, r0, lin, omega);
    lemma_linearisation_total(p, terms, n, z);
    lemma_statement_is_claimed(p, key, c, r0, lin, omega);
    assert(r0 == constant_part(p, c, input_formula(inputs, n, omega, z), l1.value()));
    assert(may_answer(p, key, c, l1, terms));
    assert(verdict is Ok <==> PC::accepts(
        verifier_key,
        s.commitments,
        s.queries,
        s.evaluations,
        p.batch_opening,
        c.separation_challenge.value(),
        log,
    ));
}

/// What [`Proof::check_openings`] returns is the answer of the scheme to these claims, for
/// whatever linearisation commitment it is given.
pub proof fn lemma_openings_decide<F: PrimeField, PC: HomomorphicCommitment<F>, G>(
    p: Proof<F, PC>,
    key: VerifierKey<F, PC, G>,
    verifier_key: PC::VerifierKey,
    inputs: PublicInputs<F>,
    n: nat,
    omega: int,
    c: Challenges<F>,
    l1: int,
    lin: PC::Point,
    log: Log,
)
    ensures
        exists|
            commitments: Seq<(Seq<char>, PC::Point)>,
            queries: Set<QueryModel>,
            evaluations: EvaluationsModel,
        |
            {
                let z = c.z_challenge.value();
                let table = table_total(key, c.zeta.value());
                let r0 = constant_part(p, c, input_formula(inputs, n, omega, z), l1);
                &&& are_claims(
                    commitments,
                    queries,
                    evaluations,
                    claimed_at_z(p, key, table, lin, r0),
                    z,
                    claimed_at_next(p, table),
                    (z * omega) % F::modulus(),
                )
                &&& p.opens(
                    key,
                    verifier_key,
                    input_values(inputs),
                    n,
                    omega,
                    c,
                    l1,
                    lin,
                    log,
                ) <==> #[trigger] PC::accepts(
                    verifier_key,
                    commitments,
                    queries,
                    evaluations,
                    p.batch_opening,
                    c.separation_challenge.value(),
                    log,
                )
            },
{
    let z = c.z_challenge.value();
    let r0 = p.r0(input_values(inputs), n, omega, c, l1);
    let s = p.statement(key, c, r0, lin, omega);
    lemma_statement_is_claimed(p, key, c, r0, lin, omega);
    assert(r0 == constant_part(p, c, input_formula(inputs, n, omega, z), l1));
    assert(p.opens(key, verifier_key, input_values(inputs), n, omega, c, l1, lin, log)
        <==> PC::accepts(
        verifier_key,
        s.commitments,
        s.queries,
        s.evaluations,
        p.batch_opening,
        c.separation_challenge.value(),
        log,
    ));
}

/// Right proofs are accepted. Let `ev` be the polynomials behind the commitments, and let the
/// scheme accept the openings for claims that are true. Where the proof lists the values of
/// the committed polynomials, and where the identity of the circuit holds at the evaluation
/// point for whatever the gates may answer, the verdict is `Ok`. The evaluation point and all
/// other challenges are those of the history of the proof, and the public inputs enter as the
/// polynomial that takes them on the domain.
pub proof fn lemma_right_proofs_are_accepted<
    F: PrimeField,
    PC: HomomorphicCommitment<F>,
    G: GateConstraints<F, PC>,
>(
    ev: spec_fn(PC::Point, int) -> int,
    p: Proof<F, PC>,
    key: VerifierKey<F, PC, G>,
    verifier_key: PC::VerifierKey,
    inputs: PublicInputs<F>,
    coefficients: Seq<int>,
    n: nat,
    verdict: Result<(), Error>,
)
    requires
        is_returned(p, key, verifier_key, inputs, verdict),
        F::domain_size(key.n as nat) == Some(n),
        is_evaluation::<F, PC>(ev),
        is_input_polynomial(
            coefficients,
            inputs.evaluations@,
            F::domain_generator(key.n as nat),
            n,
        ),
        forall|c: Challenges<F>, log: Log| #[trigger]
            is_history(p, input_values(inputs), c, log) ==> {
                let z = c.z_challenge.value();
                let omega = F::domain_generator(key.n as nat);
                &&& accepts_truth::<F, PC>(
                    ev,
                    verifier_key,
                    p.batch_opening,
                    c.separation_challenge.value(),
                    log,
                )
                &&& evaluations_are_right(ev, p, key, c.zeta.value(), z, omega)
                &&& forall|l1: F, terms: GateTerms<F, PC::Commitment>| #[trigger]
                    may_answer(p, key, c, l1, terms) && (l1.value() * (n * (z - 1))) % F::modulus()
                        == (pow(z, n) - 1) % F::modulus() ==> identity_holds(
                        ev,
                        p,
                        c,
                        terms,
                        n,
                        input_value(F::modulus(), coefficients, n, z),
                        l1.value(),
                    )
            },
    ensures
        verdict == Ok::<(), Error>(()),
{
    let omega = F::domain_generator(key.n as nat);
    let (c, log, l1, terms) = lemma_what_was_checked(p, key, verifier_key, inputs, n, verdict);
    assert(is_history(p, input_values(inputs), c, log));
    assert(may_answer(p, key, c, l1, terms));
    let z = c.z_challenge.value();
    let pi = input_value(F::modulus(), coefficients, n, z);
    lemma_input_polynomial(coefficients, inputs, omega, n, z);
    lemma_statement_is_truth(ev, p, key, inputs, pi, n, omega, c, l1.value(), terms);
    if let Ok(nothing) = verdict {
        assert(nothing == ());
    }
}

/// Accepted proofs are right. Let `ev` be the polynomials behind the commitments, and let the
/// scheme accept the openings for no claims but those that are true. Where the verdict is
/// `Ok`, the proof lists the values of the committed polynomials, and the identity of the
/// circuit holds at the evaluation point for what the gates answered.
pub proof fn lemma_accepted_proofs_are_right<
    F: PrimeField,
    PC: HomomorphicCommitment<F>,
    G: GateConstraints<F, PC>,
>(
    ev: spec_fn(PC::Point, int) -> int,
    p: Proof<F, PC>,
    key: VerifierKey<F, PC, G>,
    verifier_key: PC::VerifierKey,
    inputs: PublicInputs<F>,
    coefficients: Seq<int>,
    n: nat,
)
    requires
        is_returned(p, key, verifier_key, inputs, Ok::<(), Error>(())),
        F::domain_size(key.n as nat) == Some(n),
        is_evaluation::<F, PC>(ev),
        is_input_polynomial(
            coefficients,
            inputs.evaluations@,
            F::domain_generator(key.n as nat),
            n,
        ),
        forall|c: Challenges<F>, log: Log| #[trigger]
            is_history(p, input_values(inputs), c, log) ==> rejects_untruth::<F, PC>(
                ev,
                verifier_key,
                p.batch_opening,
                c.separation_challenge.value(),
                log,
            ),
    ensures
        exists|c: Challenges<F>, log: Log, l1: F, terms: GateTerms<F, PC::Commitment>|
            #![trigger is_history(p, input_values(inputs), c, log), may_answer(
                p,
                key,
                c,
                l1,
                terms,
            )]
            {
                let z = c.z_challenge.value();
                let omega = F::domain_generator(key.n as nat);
                &&& is_history(p, input_values(inputs), c, log)
                &&& may_answer(p, key, c, l1, terms)
                &&& (l1.value() * (n * (z - 1))) % F::modulus() == (pow(z, n) - 1) % F::modulus()
                &&& evaluations_are_right(ev, p, key, c.zeta.value(), z, omega)
                &&& identity_holds(
                    ev,
                    p,
                    c,
                    terms,
                    n,
                    input_value(F::modulus(), coefficients, n, z),
                    l1.value(),
                )
            },
{
    let omega = F::domain_generator(key.n as nat);
    let (c, log, l1, terms) = lemma_what_was_checked(
        p,
        key,
        verifier_key,
        inputs,
        n,
        Ok::<(), Error>(()),
    );
    assert(is_history(p, input_values(inputs), c, log));
    assert(may_answer(p, key, c, l1, terms));
    let z = c.z_challenge.value();
    let pi = input_value(F::modulus(), coefficients, n, z);
    lemma_input_polynomial(coefficients, inputs, omega, n, z);
    lemma_statement_is_truth(ev, p, key, inputs, pi, n, omega, c, l1.value(), terms);
}

/// Right proofs are accepted, however many public inputs are listed: they enter as what the
/// barycentric formula gives for them. See [`lemma_right_proofs_are_accepted`].
pub proof fn lemma_right_proofs_with_any_inputs<
    F: PrimeField,
    PC: HomomorphicCommitment<F>,
    G: GateConstraints<F, PC>,
>(
    ev: spec_fn(PC::Point, int) -> int,
    p: Proof<F, PC>,
    key: VerifierKey<F, PC, G>,
    verifier_key: PC::VerifierKey,
    inputs: PublicInputs<F>,
    n: nat,
    verdict: Result<(), Error>,
)
    requires
        is_returned(p, key, verifier_key, inputs, verdict),
        F::domain_size(key.n as nat) == Some(n),
        is_evaluation::<F, PC>(ev),
        forall|c: Challenges<F>, log: Log| #[trigger]
            is_history(p, input_values(inputs), c, log) ==> {
                let z = c.z_challenge.value();
                let omega = F::domain_generator(key.n as nat);
                &&& accepts_truth::<F, PC>(
                    ev,
                    verifier_key,
                    p.batch_opening,
                    c.separation_challenge.value(),
                    log,
                )
                &&& evaluations_are_right(ev, p, key, c.zeta.value(), z, omega)
                &&& forall|l1: F, terms: GateTerms<F, PC::Commitment>| #[trigger]
                    may_answer(p, key, c, l1, terms) && (l1.value() * (n * (z - 1))) % F::modulus()
                        == (pow(z, n) - 1) % F::modulus() ==> identity_holds(
                        ev,
                        p,
                        c,
                        terms,
                        n,
                        input_formula(inputs, n, omega, z),
                        l1.value(),
                    )
            },
    ensures
        verdict == Ok::<(), Error>(()),
{
    let omega = F::domain_generator(key.n as nat);
    let (c, log, l1, terms) = lemma_what_was_checked(p, key, verifier_key, inputs, n, verdict);
    assert(is_history(p, input_values(inputs), c, log));
    assert(may_answer(p, key, c, l1, terms));
    let z = c.z_challenge.value();
    let pi = input_formula(inputs, n, omega, z);
    lemma_statement_is_truth(ev, p, key, inputs, pi, n, omega, c, l1.value(), terms);
    if let Ok(nothing) = verdict {
        assert(nothing == ());
    }
}

/// Accepted proofs are right, however many public inputs are listed. See
/// [`lemma_accepted_proofs_are_right`].
pub proof fn lemma_accepted_proofs_with_any_inputs<
    F: PrimeField,
    PC: HomomorphicCommitment<F>,
    G: GateConstraints<F, PC>,
>(
    ev: spec_fn(PC::Point, int) -> int,
    p: Proof<F, PC>,
    key: VerifierKey<F, PC, G>,
    verifier_key: PC::VerifierKey,
    inputs: PublicInputs<F>,
    n: nat,
)
    requires
        is_returned(p, key, verifier_key, inputs, Ok::<(), Error>(())),
        F::domain_size(key.n as nat) == Some(n),
        is_evaluation::<F, PC>(ev),
        forall|c: Challenges<F>, log: Log| #[trigger]
            is_history(p, input_values(inputs), c, log) ==> rejects_untruth::<F, PC>(
                ev,
                verifier_key,
                p.batch_opening,
                c.separation_challenge.value(),
                log,
            ),
    ensures
        exists|c: Challenges<F>, log: Log, l1: F, terms: GateTerms<F, PC::Commitment>|
            #![trigger is_history(p, input_values(inputs), c, log), may_answer(
                p,
                key,
                c,
                l1,
                terms,
            )]
            {
                let z = c.z_challenge.value();
                let omega = F::domain_generator(key.n as nat);
                &&& is_history(p, input_values(inputs), c, log)
                &&& may_answer(p, key, c, l1, terms)
                &&& (l1.value() * (n * (z - 1))) % F::modulus() == (pow(z, n) - 1) % F::modulus()
                &&& evaluations_are_right(ev, p, key, c.zeta.value(), z, omega)
                &&& identity_holds(
                    ev,
                    p,
                    c,
                    terms,
                    n,
                    input_formula(inputs, n, omega, z),
                    l1.value(),
                )
            },
{
    let omega = F::domain_generator(key.n as nat);
    let (c, log, l1, terms) = lemma_what_was_checked(
        p,
        key,
        verifier_key,
        inputs,
        n,
        Ok::<(), Error>(()),
    );
    assert(is_history(p, input_values(inputs), c, log));
    assert(may_answer(p, key, c, l1, terms));
    let z = c.z_challenge.value();
    let pi = input_formula(inputs, n, omega, z);
    lemma_statement_is_truth(ev, p, key, inputs, pi, n, omega, c, l1.value(), terms);
}

/// Some labelled evaluation has the given label.
pub open spec fn is_labelled<F: PrimeField, PC: HomomorphicCommitment<F>>(
    p: Proof<F, PC>,
    label: Seq<char>,
) -> bool {
    exists|i: int|
        0 <= i < p.evaluations.custom_evals.vals@.len() && (
        #[trigger] p.evaluations.custom_evals.vals@[i]).0@ == label
}

/// [`Proof::try_verify`] checks a proof exactly where the size of the circuit has a next power
/// of two and, where the field has a domain for it, the permutation challenges are different,
/// one can divide by `n (z - 1)`, the shifted evaluations are there, and there are two
/// openings. On no other grounds is a proof left without a verdict.
pub proof fn lemma_proofs_without_verdict<
    F: PrimeField,
    PC: HomomorphicCommitment<F>,
    G: GateConstraints<F, PC>,
>(
    p: Proof<F, PC>,
    key: VerifierKey<F, PC, G>,
    verifier_key: PC::VerifierKey,
    inputs: PublicInputs<F>,
    c: Challenges<F>,
    rng: PC::Rng,
    r: Option<Result<(), Error>>,
)
    requires
        call_ensures(
            Proof::<F, PC>::try_verify::<G>,
            (&p, &key, &verifier_key, &inputs),
            r,
        ),
        call_ensures(Proof::<F, PC>::draw_challenges, (&p, &inputs), (c, rng)),
    ensures
        r is Some <==> key.n <= usize::MAX / 2 + 1 && (F::domain_size(key.n as nat) matches Some(n)
            ==> {
            &&& c.beta.value() != c.gamma.value()
            &&& c.beta.value() != c.delta.value()
            &&& c.beta.value() != c.epsilon.value()
            &&& c.gamma.value() != c.delta.value()
            &&& c.gamma.value() != c.epsilon.value()
            &&& c.delta.value() != c.epsilon.value()
            &&& (n * (c.z_challenge.value() - 1)) % F::modulus() != 0
            &&& is_labelled(p, "a_next_eval"@)
            &&& is_labelled(p, "b_next_eval"@)
            &&& is_labelled(p, "d_next_eval"@)
            &&& PC::opening_count(p.batch_opening) == 2
        }),
{
    let custom = p.evaluations.custom_evals;
    F::lemma_value_range(c.beta);
    lemma_reduce_small(F::modulus(), 0);
    lemma_first_place(custom.vals@, "a_next_eval"@);
    lemma_first_place(custom.vals@, "b_next_eval"@);
    lemma_first_place(custom.vals@, "d_next_eval"@);
}

/// Where a label stands first.
proof fn lemma_first_place<F>(vals: Seq<(String, F)>, label: Seq<char>)
    ensures
        0 <= first_labelled(vals, label) <= vals.len(),
        first_labelled(vals, label) < vals.len() ==> vals[first_labelled(vals, label)].0@ == label,
        forall|i: int|
            0 <= i < first_labelled(vals, label) ==> (#[trigger] vals[i]).0@ != label,
        first_labelled(vals, label) < vals.len() <==> exists|i: int|
            0 <= i < vals.len() && (#[trigger] vals[i]).0@ == label,
    decreases vals.len(),
{
    if vals.len() > 0 && vals[0].0@ != label {
        let rest = vals.drop_first();
        lemma_first_place(rest, label);
        let k = first_labelled(rest, label);
        assert(first_labelled(vals, label) == 1 + k);
        assert forall|i: int| 0 <= i < 1 + k implies (#[trigger] vals[i]).0@ != label by {
            if i > 0 {
                assert(rest[i - 1] == vals[i]);
            }
        }
        if k < rest.len() {
            assert(vals[1 + k] == rest[k]);
        }
        if exists|i: int| 0 <= i < vals.len() && (#[trigger] vals[i]).0@ == label {
            let i = choose|i: int| 0 <= i < vals.len() && (#[trigger] vals[i]).0@ == label;
            assert(rest[i - 1] == vals[i]);
        }
    }
}

/// [`CustomEvaluations::find`] gives the first evaluation with the label: nothing where no
/// entry has it, and otherwise the value of an entry before which no other has it. Contracts
/// speak of the same value.
pub proof fn lemma_first_label_counts<F: PrimeField>(
    custom: CustomEvaluations<F>,
    label: String,
    r: Option<F>,
    i: int,
)
    requires
        call_ensures(CustomEvaluations::<F>::find, (&custom, &label), r),
    ensures
        r is None <==> forall|j: int|
            0 <= j < custom.vals@.len() ==> (#[trigger] custom.vals@[j]).0@ != label@,
        0 <= i < custom.vals@.len() && custom.vals@[i].0@ == label@ && (forall|j: int|
            0 <= j < i ==> (#[trigger] custom.vals@[j]).0@ != label@) ==> (r matches Some(x)
            && x.value() == custom.vals@[i].1.value()) && custom.value_of(label@)
            == custom.vals@[i].1.value(),
{
    lemma_first_place(custom.vals@, label@);
    let k = first_labelled(custom.vals@, label@);
    if 0 <= i < custom.vals@.len() && custom.vals@[i].0@ == label@ && (forall|j: int|
        0 <= j < i ==> (#[trigger] custom.vals@[j]).0@ != label@) {
        assert(k == i);
    }
}

/// Twos are taken out of a number until it is odd.
proof fn lemma_trailing_zeros(n: nat)
    requires
        n > 0,
    ensures
        exists|m: int| #[trigger] (m * pow(2, trailing_zero_bits(n))) == n && m % 2 == 1,
    decreases n,
{
    if n % 2 == 1 {
        lemma_pow0(2);
        assert((n as int) * pow(2, 0) == n);
        assert(trailing_zero_bits(n) == 0);
        assert(n as int % 2 == 1);
        assert(((n as int) * pow(2, trailing_zero_bits(n))) == n && (n as int) % 2 == 1);
    } else {
        let half = n / 2;
        lemma_trailing_zeros(half);
        let k = trailing_zero_bits(half);
        let m = choose|m: int| #[trigger] (m * pow(2, k)) == half && m % 2 == 1;
        lemma_pow_adds(2, 1, k);
        lemma_pow1(2);
        let q = pow(2, k);
        assert(m * (2 * q) == 2 * (m * q)) by (nonlinear_arith);
        assert(m * pow(2, trailing_zero_bits(n)) == n);
    }
}

/// [`trailing_zeros`] counts how often a number can be halved before it is odd.
pub proof fn lemma_halvings_are_counted(n: usize, r: u32)
    requires
        call_ensures(trailing_zeros, (n,), r),
    ensures
        n == 0 ==> r == usize::BITS,
        n > 0 ==> exists|m: int| #[trigger] (m * pow(2, r as nat)) == n && m % 2 == 1,
{
    if n > 0 {
        lemma_trailing_zeros(n as nat);
    }
}

/// Why proofs are refused. Where the field has no domain for the circuit, the error tells the
/// number of zero bits at the lower end of the circuit size, and the adicity of the field.
/// Where it has one, the only error is that of the openings.
pub proof fn lemma_refusals<
    F: PrimeField,
    PC: HomomorphicCommitment<F>,
    G: GateConstraints<F, PC>,
>(
    p: Proof<F, PC>,
    key: VerifierKey<F, PC, G>,
    verifier_key: PC::VerifierKey,
    inputs: PublicInputs<F>,
    verdict: Result<(), Error>,
)
    requires
        is_returned(p, key, verifier_key, inputs, verdict),
    ensures
        F::domain_size(key.n as nat) is Some ==> verdict == Ok::<(), Error>(()) || verdict == Err::<
            (),
            Error,
        >(Error::ProofVerificationError),
        F::domain_size(key.n as nat) is None ==> verdict is Err && verdict->Err_0
            is InvalidEvalDomainSize,
        verdict matches Err(Error::InvalidEvalDomainSize { log_size_of_group, adicity }) ==> {
            &&& adicity == F::adicity() as u32
            &&& key.n == 0 ==> log_size_of_group == usize::BITS
            &&& key.n > 0 ==> exists|m: int| #[trigger]
                (m * pow(2, log_size_of_group as nat)) == key.n && m % 2 == 1
        },
{
    if let Ok(nothing) = verdict {
        assert(nothing == ());
    }
    if key.n > 0 {
        lemma_trailing_zeros(key.n as nat);
        let k = trailing_zero_bits(key.n as nat);
        let m = choose|m: int| #[trigger] (m * pow(2, k)) == key.n && m % 2 == 1;
        lemma_pow_positive(2, k);
        assert(m > 0) by (nonlinear_arith)
            requires
                m * pow(2, k) == key.n,
                key.n > 0,
                pow(2, k) > 0,
        ;
        lemma_count_below_width(m, k, key.n);
        if let Err(Error::InvalidEvalDomainSize { log_size_of_group, adicity }) = verdict {
            assert(log_size_of_group as nat == k);
            assert((m * pow(2, log_size_of_group as nat)) == key.n && m % 2 == 1);
        }
    }
}

} // verus!
