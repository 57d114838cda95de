//! What the linearisation commitment is the sum of.
use vstd::arithmetic::power::pow;
use vstd::prelude::*;

use crate::challenges::Challenges;
use crate::commitment::HomomorphicCommitment;
use crate::domain::GeneralEvaluationDomain;
use crate::field::PrimeField;
use crate::linearisation::{
    gates_return, is_linearisation, lemma_linearisation_is_sum, lemma_plus_interchange,
    quotient_scalars, term_points, term_scalars,
};
use crate::proof_system::Proof;
use crate::verifier_key::{GateConstraints, GateTerms, VerifierKey};

verus! {

/// The sum of the points of some terms, each multiplied by its scalar.
pub open spec fn total<F: PrimeField, PC: HomomorphicCommitment<F>>(
    terms: Seq<(F, PC::Commitment)>,
) -> PC::Point
    decreases terms.len(),
{
    if terms.len() == 0 {
        PC::neutral()
    } else {
        PC::plus(
            total::<F, PC>(terms.drop_last()),
            PC::scaled(terms.last().0.value(), PC::point(terms.last().1)),
        )
    }
}

/// The sums of what seven gates contribute, added up.
pub open spec fn gates_total<F: PrimeField, PC: HomomorphicCommitment<F>>(
    arithmetic: Seq<(F, PC::Commitment)>,
    range: Seq<(F, PC::Commitment)>,
    logic: Seq<(F, PC::Commitment)>,
    fixed_base_scalar_mul: Seq<(F, PC::Commitment)>,
    curve_addition: Seq<(F, PC::Commitment)>,
    lookup: Seq<(F, PC::Commitment)>,
    permutation: Seq<(F, PC::Commitment)>,
) -> PC::Point {
    PC::plus(
        PC::plus(
            PC::plus(
                PC::plus(
                    PC::plus(
                        PC::plus(total::<F, PC>(arithmetic), total::<F, PC>(range)),
                        total::<F, PC>(logic),
                    ),
                    total::<F, PC>(fixed_base_scalar_mul),
                ),
                total::<F, PC>(curve_addition),
            ),
            total::<F, PC>(lookup),
        ),
        total::<F, PC>(permutation),
    )
}

/// The quotient polynomial at `z`, put together from its four pieces and multiplied by minus
/// the vanishing polynomial: `-(z^n - 1) (t_1 + z^n t_2 + z^(2n) t_3 + z^(3n) t_4)`.
pub open spec fn quotient_total<F: PrimeField, PC: HomomorphicCommitment<F>>(
    proof: Proof<F, PC>,
    z: int,
    n: nat,
) -> PC::Point {
    let p = F::modulus();
    let v = -(pow(z, n) - 1);
    PC::plus(
        PC::plus(
            PC::plus(
                PC::scaled((v * pow(z, 0)) % p, PC::point(proof.t_1_comm)),
                PC::scaled((v * pow(z, n)) % p, PC::point(proof.t_2_comm)),
            ),
            PC::scaled((v * pow(z, 2 * n)) % p, PC::point(proof.t_3_comm)),
        ),
        PC::scaled((v * pow(z, 3 * n)) % p, PC::point(proof.t_4_comm)),
    )
}

/// The gates of the key, asked about the proof with these challenges, may answer `terms`:
/// each is asked with its own selector or key, its own challenges and its own commitments.
pub open spec fn may_answer<
    F: PrimeField,
    PC: HomomorphicCommitment<F>,
    G: GateConstraints<F, PC>,
>(
    proof: Proof<F, PC>,
    key: VerifierKey<F, PC, G>,
    c: Challenges<F>,
    l1_eval: F,
    terms: GateTerms<F, PC::Commitment>,
) -> bool {
    let e = &proof.evaluations;
    let gates = &key.gates;
    &&& call_ensures(G::arithmetic, (gates, e), terms.arithmetic)
    &&& call_ensures(
        G::range,
        (gates, &key.range_selector_commitment, c.range_sep_challenge, e),
        terms.range,
    )
    &&& call_ensures(
        G::logic,
        (gates, &key.logic_selector_commitment, c.logic_sep_challenge, e),
        terms.logic,
    )
    &&& call_ensures(
        G::fixed_base_scalar_mul,
        (gates, &key.fixed_group_add_selector_commitment, c.fixed_base_sep_challenge, e),
        terms.fixed_base_scalar_mul,
    )
    &&& call_ensures(
        G::curve_addition,
        (gates, &key.variable_group_add_selector_commitment, c.var_base_sep_challenge, e),
        terms.curve_addition,
    )
    &&& call_ensures(
        G::lookup,
        (
            gates,
            &key.lookup,
            e,
            (c.delta, c.epsilon, c.zeta),
            c.lookup_sep_challenge,
            l1_eval,
            proof.z_2_comm,
            proof.h_1_comm,
        ),
        terms.lookup,
    )
    &&& call_ensures(
        G::permutation,
        (
            gates,
            &key.permutation,
            e,
            c.z_challenge,
            (c.alpha, c.beta, c.gamma),
            l1_eval,
            proof.z_comm,
        ),
        terms.permutation,
    )
}

/// What the gates return is an answer to what they are asked.
pub proof fn lemma_gates_are_asked<
    F: PrimeField,
    PC: HomomorphicCommitment<F>,
    G: GateConstraints<F, PC>,
>(
    proof: Proof<F, PC>,
    key: VerifierKey<F, PC, G>,
    c: Challenges<F>,
    l1_eval: F,
    terms: GateTerms<F, PC::Commitment>,
)
    ensures
        gates_return(proof, key, c, l1_eval, terms) == may_answer(proof, key, c, l1_eval, terms),
        call_ensures(
            Proof::<F, PC>::collect_gate_terms::<G>,
            (&proof, &key, &c, l1_eval),
            terms,
        ) ==> may_answer(proof, key, c, l1_eval, terms),
{
}

proof fn lemma_total_is_sum<F: PrimeField, PC: HomomorphicCommitment<F>>(
    terms: Seq<(F, PC::Commitment)>,
)
    ensures
        PC::plus(total::<F, PC>(terms), PC::neutral()) == total::<F, PC>(terms),
{
    let none = PC::neutral();
    if terms.len() == 0 {
        PC::lemma_plus(none, none, none);
    } else {
        PC::lemma_plus(
            total::<F, PC>(terms.drop_last()),
            PC::scaled(terms.last().0.value(), PC::point(terms.last().1)),
            none,
        );
    }
}

/// Terms that follow others add their sum.
pub proof fn lemma_total_follows<F: PrimeField, PC: HomomorphicCommitment<F>>(
    a: Seq<(F, PC::Commitment)>,
    b: Seq<(F, PC::Commitment)>,
)
    ensures
        total::<F, PC>(a + b) == PC::plus(total::<F, PC>(a), total::<F, PC>(b)),
    decreases b.len(),
{
    if b.len() == 0 {
        assert(a + b =~= a);
        lemma_total_is_sum::<F, PC>(a);
    } else {
        let shorter = b.drop_last();
        lemma_total_follows::<F, PC>(a, shorter);
        assert((a + b).drop_last() =~= a + shorter);
        PC::lemma_plus(
            total::<F, PC>(a),
            total::<F, PC>(shorter),
            PC::scaled(b.last().0.value(), PC::point(b.last().1)),
        );
    }
}

proof fn lemma_combination_is_total<F: PrimeField, PC: HomomorphicCommitment<F>>(
    terms: Seq<(F, PC::Commitment)>,
)
    ensures
        PC::combination(term_points::<F, PC>(terms), term_scalars(terms)) == total::<F, PC>(terms),
    decreases terms.len(),
{
    if terms.len() == 0 {
        PC::lemma_combination(
            term_points::<F, PC>(terms),
            term_scalars(terms),
            PC::neutral(),
            0,
        );
    } else {
        let rest = terms.drop_last();
        let a = PC::point(terms.last().1);
        let s = terms.last().0.value();
        lemma_combination_is_total::<F, PC>(rest);
        PC::lemma_combination(term_points::<F, PC>(rest), term_scalars(rest), a, s);
        assert(term_points::<F, PC>(terms) =~= term_points::<F, PC>(rest).push(a));
        assert(term_scalars(terms) =~= term_scalars(rest).push(s));
    }
}

/// The linearisation commitment is the sum of what the seven gates contribute and of the
/// quotient polynomial at the evaluation point.
pub proof fn lemma_linearisation_total<F: PrimeField, PC: HomomorphicCommitment<F>>(
    proof: Proof<F, PC>,
    terms: GateTerms<F, PC::Commitment>,
    n: nat,
    z: int,
)
    ensures
        proof.linearisation(terms.all(), n, z) == PC::plus(
            gates_total::<F, PC>(
                terms.arithmetic@,
                terms.range@,
                terms.logic@,
                terms.fixed_base_scalar_mul@,
                terms.curve_addition@,
                terms.lookup@,
                terms.permutation@,
            ),
            quotient_total(proof, z, n),
        ),
{
    let x1 = terms.arithmetic@ + terms.range@;
    let x2 = x1 + terms.logic@;
    let x3 = x2 + terms.fixed_base_scalar_mul@;
    let x4 = x3 + terms.curve_addition@;
    let x5 = x4 + terms.lookup@;
    lemma_total_follows::<F, PC>(terms.arithmetic@, terms.range@);
    lemma_total_follows::<F, PC>(x1, terms.logic@);
    lemma_total_follows::<F, PC>(x2, terms.fixed_base_scalar_mul@);
    lemma_total_follows::<F, PC>(x3, terms.curve_addition@);
    lemma_total_follows::<F, PC>(x4, terms.lookup@);
    lemma_total_follows::<F, PC>(x5, terms.permutation@);
    assert(terms.all() =~= x5 + terms.permutation@);
    lemma_linearisation_is_sum(proof, terms.all(), n, z);
    lemma_combination_is_total::<F, PC>(terms.all());
    let t = proof.quotient_points();
    let s = quotient_scalars(F::modulus(), z, n);
    let g = total::<F, PC>(terms.all());
    let t0 = PC::scaled(s[0], t[0]);
    let t1 = PC::scaled(s[1], t[1]);
    let t2 = PC::scaled(s[2], t[2]);
    let t3 = PC::scaled(s[3], t[3]);
    PC::lemma_plus(g, t0, t1);
    PC::lemma_plus(g, PC::plus(t0, t1), t2);
    PC::lemma_plus(g, PC::plus(PC::plus(t0, t1), t2), t3);
    assert(0 * n == 0 && 1 * n == n) by (nonlinear_arith);
}

/// [`Proof::combine_linearisation`] adds up what the seven gates contribute, and the quotient
/// polynomial at the evaluation point.
pub proof fn lemma_combination_sums_gates<F: PrimeField, PC: HomomorphicCommitment<F>>(
    proof: Proof<F, PC>,
    domain: GeneralEvaluationDomain<F>,
    z_challenge: F,
    terms: GateTerms<F, PC::Commitment>,
    r: PC::Commitment,
)
    requires
        call_ensures(
            Proof::<F, PC>::combine_linearisation,
            (&proof, &domain, z_challenge, &terms),
            r,
        ),
    ensures
        PC::point(r) == PC::plus(
            gates_total::<F, PC>(
                terms.arithmetic@,
                terms.range@,
                terms.logic@,
                terms.fixed_base_scalar_mul@,
                terms.curve_addition@,
                terms.lookup@,
                terms.permutation@,
            ),
            quotient_total(proof, z_challenge.value(), domain.size as nat),
        ),
{
    lemma_linearisation_total(proof, terms, domain.size as nat, z_challenge.value());
}

/// [`Proof::compute_linearisation_commitment`] adds up what the seven gates answer, all of it,
/// and the quotient polynomial at the evaluation point.
pub proof fn lemma_linearisation_sums_gates<
    F: PrimeField,
    PC: HomomorphicCommitment<F>,
    G: GateConstraints<F, PC>,
>(
    proof: Proof<F, PC>,
    domain: GeneralEvaluationDomain<F>,
    c: Challenges<F>,
    l1_eval: F,
    key: VerifierKey<F, PC, G>,
    r: PC::Commitment,
)
    requires
        call_ensures(
            Proof::<F, PC>::compute_linearisation_commitment::<G>,
            (&proof, &domain, &c, l1_eval, &key),
            r,
        ),
    ensures
        exists|terms: GateTerms<F, PC::Commitment>| #[trigger]
            may_answer(proof, key, c, l1_eval, terms) && PC::point(r) == PC::plus(
                gates_total::<F, PC>(
                    terms.arithmetic@,
                    terms.range@,
                    terms.logic@,
                    terms.fixed_base_scalar_mul@,
                    terms.curve_addition@,
                    terms.lookup@,
                    terms.permutation@,
                ),
                quotient_total(proof, c.z_challenge.value(), domain.size as nat),
            ),
{
    let n = domain.size as nat;
    let z = c.z_challenge.value();
    assert(is_linearisation(proof, key, c, l1_eval, n, PC::point(r)));
    let terms = choose|terms: GateTerms<F, PC::Commitment>| #[trigger]
        gates_return(proof, key, c, l1_eval, terms) && PC::point(r) == proof.linearisation(
            terms.all(),
            n,
            z,
        );
    lemma_linearisation_total(proof, terms, n, z);
    lemma_gates_are_asked(proof, key, c, l1_eval, terms);
    assert(may_answer(proof, key, c, l1_eval, terms));
}

/// The gates can answer nothing but the given terms.
pub open spec fn answers_only<
    F: PrimeField,
    PC: HomomorphicCommitment<F>,
    G: GateConstraints<F, PC>,
>(
    proof: Proof<F, PC>,
    key: VerifierKey<F, PC, G>,
    c: Challenges<F>,
    l1_eval: F,
    answer: GateTerms<F, PC::Commitment>,
) -> bool {
    forall|terms: GateTerms<F, PC::Commitment>| #[trigger]
        may_answer(proof, key, c, l1_eval, terms) ==> {
            &&& terms.arithmetic@ == answer.arithmetic@
            &&& terms.range@ == answer.range@
            &&& terms.logic@ == answer.logic@
            &&& terms.fixed_base_scalar_mul@ == answer.fixed_base_scalar_mul@
            &&& terms.curve_addition@ == answer.curve_addition@
            &&& terms.lookup@ == answer.lookup@
            &&& terms.permutation@ == answer.permutation@
        }
}

/// Every gate counts: where the gates of a second key answer what those of the first do, and
/// each some terms more, the linearisation commitment grows by the sum of these terms. With
/// one more term `(s, P)` in the answer of one gate, it grows by `s * P`.
pub proof fn lemma_every_gate_counts<
    F: PrimeField,
    PC: HomomorphicCommitment<F>,
    G: GateConstraints<F, PC>,
    H: GateConstraints<F, PC>,
>(
    proof: Proof<F, PC>,
    domain: GeneralEvaluationDomain<F>,
    c: Challenges<F>,
    l1_eval: F,
    key: VerifierKey<F, PC, G>,
    other_key: VerifierKey<F, PC, H>,
    x: GateTerms<F, PC::Commitment>,
    y: GateTerms<F, PC::Commitment>,
    more: GateTerms<F, PC::Commitment>,
    r: PC::Commitment,
    other_r: PC::Commitment,
)
    requires
        call_ensures(
            Proof::<F, PC>::compute_linearisation_commitment::<G>,
            (&proof, &domain, &c, l1_eval, &key),
            r,
        ),
        call_ensures(
            Proof::<F, PC>::compute_linearisation_commitment::<H>,
            (&proof, &domain, &c, l1_eval, &other_key),
            other_r,
        ),
        answers_only(proof, key, c, l1_eval, x),
        answers_only(proof, other_key, c, l1_eval, y),
        y.arithmetic@ == x.arithmetic@ + more.arithmetic@,
        y.range@ == x.range@ + more.range@,
        y.logic@ == x.logic@ + more.logic@,
        y.fixed_base_scalar_mul@ == x.fixed_base_scalar_mul@ + more.fixed_base_scalar_mul@,
        y.curve_addition@ == x.curve_addition@ + more.curve_addition@,
        y.lookup@ == x.lookup@ + more.lookup@,
        y.permutation@ == x.permutation@ + more.permutation@,
    ensures
        PC::point(other_r) == PC::plus(
            PC::point(r),
            gates_total::<F, PC>(
                more.arithmetic@,
                more.range@,
                more.logic@,
                more.fixed_base_scalar_mul@,
                more.curve_addition@,
                more.lookup@,
                more.permutation@,
            ),
        ),
{
    lemma_linearisation_sums_gates(proof, domain, c, l1_eval, key, r);
    lemma_linearisation_sums_gates(proof, domain, c, l1_eval, other_key, other_r);
    let q = quotient_total(proof, c.z_challenge.value(), domain.size as nat);
    let x1 = total::<F, PC>(x.arithmetic@);
    let x2 = total::<F, PC>(x.range@);
    let x3 = total::<F, PC>(x.logic@);
    let x4 = total::<F, PC>(x.fixed_base_scalar_mul@);
    let x5 = total::<F, PC>(x.curve_addition@);
    let x6 = total::<F, PC>(x.lookup@);
    let x7 = total::<F, PC>(x.permutation@);
    let m1 = total::<F, PC>(more.arithmetic@);
    let m2 = total::<F, PC>(more.range@);
    let m3 = total::<F, PC>(more.logic@);
    let m4 = total::<F, PC>(more.fixed_base_scalar_mul@);
    let m5 = total::<F, PC>(more.curve_addition@);
    let m6 = total::<F, PC>(more.lookup@);
    let m7 = total::<F, PC>(more.permutation@);
    lemma_total_follows::<F, PC>(x.arithmetic@, more.arithmetic@);
    lemma_total_follows::<F, PC>(x.range@, more.range@);
    lemma_total_follows::<F, PC>(x.logic@, more.logic@);
    lemma_total_follows::<F, PC>(x.fixed_base_scalar_mul@, more.fixed_base_scalar_mul@);
    lemma_total_follows::<F, PC>(x.curve_addition@, more.curve_addition@);
    lemma_total_follows::<F, PC>(x.lookup@, more.lookup@);
    lemma_total_follows::<F, PC>(x.permutation@, more.permutation@);
    let s2 = PC::plus(x1, x2);
    let s3 = PC::plus(s2, x3);
    let s4 = PC::plus(s3, x4);
    let s5 = PC::plus(s4, x5);
    let s6 = PC::plus(s5, x6);
    let s7 = PC::plus(s6, x7);
    let n2 = PC::plus(m1, m2);
    let n3 = PC::plus(n2, m3);
    let n4 = PC::plus(n3, m4);
    let n5 = PC::plus(n4, m5);
    let n6 = PC::plus(n5, m6);
    let n7 = PC::plus(n6, m7);
    lemma_plus_interchange::<F, PC>(x1, m1, x2, m2);
    lemma_plus_interchange::<F, PC>(s2, n2, x3, m3);
    lemma_plus_interchange::<F, PC>(s3, n3, x4, m4);
    lemma_plus_interchange::<F, PC>(s4, n4, x5, m5);
    lemma_plus_interchange::<F, PC>(s5, n5, x6, m6);
    lemma_plus_interchange::<F, PC>(s6, n6, x7, m7);
    PC::lemma_plus(s7, n7, q);
    PC::lemma_plus(n7, q, s7);
    PC::lemma_plus(s7, q, n7);
}

/// One term by itself contributes its scalar times its point.
pub proof fn lemma_one_term<F: PrimeField, PC: HomomorphicCommitment<F>>(
    s: F,
    commitment: PC::Commitment,
    a: PC::Point,
    b: PC::Point,
)
    ensures
        total::<F, PC>(Seq::<(F, PC::Commitment)>::empty()) == PC::neutral(),
        PC::plus(PC::plus(a, b), total::<F, PC>(seq![(s, commitment)])) == PC::plus(
            PC::plus(a, b),
            PC::scaled(s.value(), PC::point(commitment)),
        ),
{
    let one = seq![(s, commitment)];
    assert(one.drop_last() =~= Seq::<(F, PC::Commitment)>::empty());
    let point = PC::scaled(s.value(), PC::point(commitment));
    assert(total::<F, PC>(one.drop_last()) == PC::neutral());
    assert(total::<F, PC>(one) == PC::plus(PC::neutral(), point));
    PC::lemma_plus(PC::plus(a, b), PC::neutral(), point);
    PC::lemma_plus(a, b, PC::neutral());
}

} // verus!
