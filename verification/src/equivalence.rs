//! When two proofs have the same verdict.
use vstd::arithmetic::power::pow;
use vstd::prelude::*;

use crate::arithmetic::congruent;
use crate::bls12_381::Fr;
use crate::challenges::Challenges;
use crate::commitment::{EvaluationsModel, HomomorphicCommitment, QueryModel};
use crate::encoding::{models, Canonical};
use crate::error::Error;
use crate::evaluations::{first_labelled, ProofEvaluations};
use crate::field::PrimeField;
use crate::kzg::{Kzg, KzgVerifierKey, Opening};
use crate::linearisation::{gates_return, same_terms};
use crate::proof_system::{first_lagrange, has_quotients, Proof};
use crate::transcript::Log;
use crate::verifier_key::{GateConstraints, GateTerms, VerifierKey};

verus! {

/// The evaluations have the same values, and the labelled ones the same labels.
pub open spec fn same_evaluations<F: PrimeField>(
    a: ProofEvaluations<F>,
    b: ProofEvaluations<F>,
) -> bool {
    &&& a.listed() == b.listed()
    &&& a.lookup_evals.table_eval.value() == b.lookup_evals.table_eval.value()
    &&& a.lookup_evals.table_next_eval.value() == b.lookup_evals.table_next_eval.value()
    &&& a.custom_evals.vals@.len() == b.custom_evals.vals@.len()
    &&& forall|i: int|
        #![trigger a.custom_evals.vals@[i]]
        #![trigger b.custom_evals.vals@[i]]
        0 <= i < a.custom_evals.vals@.len() ==> a.custom_evals.vals@[i].0@
            == b.custom_evals.vals@[i].0@ && a.custom_evals.vals@[i].1.value()
            == b.custom_evals.vals@[i].1.value()
}

/// The scheme treats the two opening proofs alike.
pub open spec fn same_openings<F: PrimeField, PC: HomomorphicCommitment<F>>(
    a: PC::BatchProof,
    b: PC::BatchProof,
) -> bool {
    &&& PC::opening_count(a) == PC::opening_count(b)
    &&& forall|
        key: PC::VerifierKey,
        commitments: Seq<(Seq<char>, PC::Point)>,
        queries: Set<QueryModel>,
        evaluations: EvaluationsModel,
        challenge: int,
        log: Log,
    |
        #![trigger PC::accepts(key, commitments, queries, evaluations, a, challenge, log)]
        PC::accepts(key, commitments, queries, evaluations, a, challenge, log) == PC::accepts(
            key,
            commitments,
            queries,
            evaluations,
            b,
            challenge,
            log,
        )
}

/// The proofs have the same points, values, labels and openings.
pub open spec fn same_content<F: PrimeField, PC: HomomorphicCommitment<F>>(
    a: Proof<F, PC>,
    b: Proof<F, PC>,
) -> bool {
    &&& a.wire_points() == b.wire_points()
    &&& a.sorted_points() == b.sorted_points()
    &&& a.quotient_points() == b.quotient_points()
    &&& PC::point(a.z_comm) == PC::point(b.z_comm)
    &&& PC::point(a.f_comm) == PC::point(b.f_comm)
    &&& PC::point(a.z_2_comm) == PC::point(b.z_2_comm)
    &&& same_evaluations(a.evaluations, b.evaluations)
    &&& same_openings::<F, PC>(a.batch_opening, b.batch_opening)
}

/// Whatever the gates may contribute to the linearisation of `a`, they may contribute to that
/// of `b`, up to how scalars and points are held.
pub open spec fn gates_follow<
    F: PrimeField,
    PC: HomomorphicCommitment<F>,
    G: GateConstraints<F, PC>,
>(a: Proof<F, PC>, b: Proof<F, PC>, key: VerifierKey<F, PC, G>) -> bool {
    forall|c: Challenges<F>, l1: F, terms: GateTerms<F, PC::Commitment>| #[trigger]
        gates_return(a, key, c, l1, terms) ==> exists|others: GateTerms<F, PC::Commitment>|
            #[trigger] gates_return(b, key, c, l1, others) && same_terms::<F, PC>(
                terms.all(),
                others.all(),
            )
}

/// The first place with a label depends on the labels alone.
proof fn lemma_same_place<F: PrimeField>(
    a: Seq<(String, F)>,
    b: Seq<(String, F)>,
    label: Seq<char>,
)
    requires
        a.len() == b.len(),
        forall|i: int| 0 <= i < a.len() ==> (#[trigger] a[i]).0@ == b[i].0@,
    ensures
        first_labelled(a, label) == first_labelled(b, label),
        0 <= first_labelled(a, label) <= a.len(),
    decreases a.len(),
{
    if a.len() > 0 {
        assert(a[0].0@ == b[0].0@);
        let x = a.drop_first();
        let y = b.drop_first();
        assert forall|i: int| 0 <= i < x.len() implies (#[trigger] x[i]).0@ == y[i].0@ by {
            assert(x[i] == a[i + 1]);
            assert(y[i] == b[i + 1]);
        }
        lemma_same_place(x, y, label);
    }
}

/// What is read from the evaluations is the same.
proof fn lemma_same_evaluations<F: PrimeField>(a: ProofEvaluations<F>, b: ProofEvaluations<F>)
    requires
        same_evaluations(a, b),
    ensures
        a.wire_evals.a_eval.value() == b.wire_evals.a_eval.value(),
        a.wire_evals.b_eval.value() == b.wire_evals.b_eval.value(),
        a.wire_evals.c_eval.value() == b.wire_evals.c_eval.value(),
        a.wire_evals.d_eval.value() == b.wire_evals.d_eval.value(),
        a.perm_evals.left_sigma_eval.value() == b.perm_evals.left_sigma_eval.value(),
        a.perm_evals.right_sigma_eval.value() == b.perm_evals.right_sigma_eval.value(),
        a.perm_evals.out_sigma_eval.value() == b.perm_evals.out_sigma_eval.value(),
        a.perm_evals.permutation_eval.value() == b.perm_evals.permutation_eval.value(),
        a.lookup_evals.f_eval.value() == b.lookup_evals.f_eval.value(),
        a.lookup_evals.z2_next_eval.value() == b.lookup_evals.z2_next_eval.value(),
        a.lookup_evals.h1_next_eval.value() == b.lookup_evals.h1_next_eval.value(),
        a.lookup_evals.h2_eval.value() == b.lookup_evals.h2_eval.value(),
        a.custom_evals.listed() == b.custom_evals.listed(),
        forall|label: Seq<char>| #[trigger]
            a.custom_evals.contains(label) == b.custom_evals.contains(label),
        forall|label: Seq<char>| #[trigger]
            a.custom_evals.value_of(label) == b.custom_evals.value_of(label),
{
    let x = a.listed();
    let y = b.listed();
    assert(x[0] == y[0] && x[1] == y[1] && x[2] == y[2] && x[3] == y[3] && x[4] == y[4] && x[5]
        == y[5] && x[6] == y[6] && x[7] == y[7] && x[8] == y[8] && x[10] == y[10] && x[12] == y[12]
        && x[13] == y[13]);
    assert(a.custom_evals.listed() =~= b.custom_evals.listed());
    assert forall|label: Seq<char>| #[trigger]
        a.custom_evals.contains(label) == b.custom_evals.contains(label) by {
        lemma_same_place(a.custom_evals.vals@, b.custom_evals.vals@, label);
    }
    assert forall|label: Seq<char>| #[trigger]
        a.custom_evals.value_of(label) == b.custom_evals.value_of(label) by {
        lemma_same_place(a.custom_evals.vals@, b.custom_evals.vals@, label);
    }
}

/// Proofs with the same content draw the same challenges.
pub proof fn lemma_same_transcript<F: PrimeField, PC: HomomorphicCommitment<F>>(
    a: Proof<F, PC>,
    b: Proof<F, PC>,
    pub_inputs: Seq<int>,
)
    requires
        same_content(a, b),
    ensures
        a.beta_log(pub_inputs) == b.beta_log(pub_inputs),
        a.z_log(pub_inputs) == b.z_log(pub_inputs),
        a.separation_log(pub_inputs) == b.separation_log(pub_inputs),
        forall|c: Challenges<F>| #[trigger] a.draws(pub_inputs, c) == b.draws(pub_inputs, c),
{
    lemma_same_evaluations(a.evaluations, b.evaluations);
}

/// What may come out for one proof may come out for the other.
proof fn lemma_verdict_follows<
    F: PrimeField,
    PC: HomomorphicCommitment<F>,
    G: GateConstraints<F, PC>,
>(
    a: Proof<F, PC>,
    b: Proof<F, PC>,
    key: VerifierKey<F, PC, G>,
    verifier_key: PC::VerifierKey,
    pub_inputs: Seq<int>,
    verdict: Result<(), Error>,
)
    requires
        same_content(a, b),
        gates_follow(a, b, key),
        a.is_verdict(key, verifier_key, pub_inputs, verdict),
    ensures
        b.is_verdict(key, verifier_key, pub_inputs, verdict),
{
    if let Some(n) = F::domain_size(key.n as nat) {
        let gen = F::domain_generator(key.n as nat);
        let log = a.separation_log(pub_inputs).push(None);
        lemma_same_evaluations(a.evaluations, b.evaluations);
        lemma_same_transcript(a, b, pub_inputs);
        let (c, l1, terms) = choose|
            c: Challenges<F>,
            l1: F,
            terms: GateTerms<F, PC::Commitment>,
        | #[trigger]
            gates_return(a, key, c, l1, terms) && a.draws(pub_inputs, c) && l1.value()
                == first_lagrange(F::modulus(), n, c.z_challenge.value()) && congruent(
                F::modulus(),
                l1.value() * (n * (c.z_challenge.value() - 1)),
                pow(c.z_challenge.value(), n) - 1,
            ) && has_quotients(F::modulus(), pub_inputs, n, gen, c.z_challenge.value())
                && verdict is Ok
                == a.opens(
                key,
                verifier_key,
                pub_inputs,
                n,
                gen,
                c,
                l1.value(),
                a.linearisation(terms.all(), n, c.z_challenge.value()),
                log,
            );
        assert(gates_return(a, key, c, l1, terms));
        let others = choose|others: GateTerms<F, PC::Commitment>| #[trigger]
            gates_return(b, key, c, l1, others) && same_terms::<F, PC>(terms.all(), others.all());
        let z = c.z_challenge.value();
        let lin = a.linearisation(terms.all(), n, z);
        assert(lin == b.linearisation(others.all(), n, z));
        assert(b.draws(pub_inputs, c) == a.draws(pub_inputs, c));
        let e = a.r0(pub_inputs, n, gen, c, l1.value());
        assert(e == b.r0(pub_inputs, n, gen, c, l1.value()));
        lemma_same_points(a, b);
        assert(a.statement(key, c, e, lin, gen) == b.statement(key, c, e, lin, gen)) by {
            assert(a.evaluations.custom_evals.value_of("a_next_eval"@)
                == b.evaluations.custom_evals.value_of("a_next_eval"@));
            assert(a.evaluations.custom_evals.value_of("b_next_eval"@)
                == b.evaluations.custom_evals.value_of("b_next_eval"@));
            assert(a.evaluations.custom_evals.value_of("d_next_eval"@)
                == b.evaluations.custom_evals.value_of("d_next_eval"@));
        }
        assert(gates_return(b, key, c, l1, others));
    }
}

proof fn lemma_same_points<F: PrimeField, PC: HomomorphicCommitment<F>>(
    a: Proof<F, PC>,
    b: Proof<F, PC>,
)
    requires
        same_content(a, b),
    ensures
        PC::point(a.a_comm) == PC::point(b.a_comm),
        PC::point(a.b_comm) == PC::point(b.b_comm),
        PC::point(a.c_comm) == PC::point(b.c_comm),
        PC::point(a.d_comm) == PC::point(b.d_comm),
        PC::point(a.h_1_comm) == PC::point(b.h_1_comm),
        PC::point(a.h_2_comm) == PC::point(b.h_2_comm),
{
    let x = a.wire_points();
    let y = b.wire_points();
    assert(x[0] == y[0] && x[1] == y[1] && x[2] == y[2] && x[3] == y[3]);
    let x = a.sorted_points();
    let y = b.sorted_points();
    assert(x[0] == y[0] && x[1] == y[1]);
}

proof fn lemma_same_content_symmetric<F: PrimeField, PC: HomomorphicCommitment<F>>(
    a: Proof<F, PC>,
    b: Proof<F, PC>,
)
    requires
        same_content(a, b),
    ensures
        same_content(b, a),
{
    let x = a.batch_opening;
    let y = b.batch_opening;
    assert forall|
        key: PC::VerifierKey,
        commitments: Seq<(Seq<char>, PC::Point)>,
        queries: Set<QueryModel>,
        evaluations: EvaluationsModel,
        challenge: int,
        log: Log,
    |
        #![trigger PC::accepts(key, commitments, queries, evaluations, y, challenge, log)]
        PC::accepts(key, commitments, queries, evaluations, y, challenge, log) == PC::accepts(
            key,
            commitments,
            queries,
            evaluations,
            x,
            challenge,
            log,
        ) by {
        assert(PC::accepts(key, commitments, queries, evaluations, x, challenge, log)
            == PC::accepts(key, commitments, queries, evaluations, y, challenge, log));
    }
}

/// Proofs with the same content can be checked alike and have the same verdict, where the
/// gates contribute the same to both.
pub proof fn lemma_same_content_same_verdict<
    F: PrimeField,
    PC: HomomorphicCommitment<F>,
    G: GateConstraints<F, PC>,
>(
    a: Proof<F, PC>,
    b: Proof<F, PC>,
    key: VerifierKey<F, PC, G>,
    verifier_key: PC::VerifierKey,
    pub_inputs: Seq<int>,
    n: nat,
    verdict: Result<(), Error>,
)
    requires
        same_content(a, b),
        gates_follow(a, b, key),
        gates_follow(b, a, key),
    ensures
        a.is_checkable(pub_inputs, n) == b.is_checkable(pub_inputs, n),
        a.is_verdict(key, verifier_key, pub_inputs, verdict) == b.is_verdict(
            key,
            verifier_key,
            pub_inputs,
            verdict,
        ),
{
    lemma_same_evaluations(a.evaluations, b.evaluations);
    lemma_same_transcript(a, b, pub_inputs);
    assert(a.has_shifted_evaluations() == b.has_shifted_evaluations()) by {
        assert(a.evaluations.custom_evals.contains("a_next_eval"@)
            == b.evaluations.custom_evals.contains("a_next_eval"@));
        assert(a.evaluations.custom_evals.contains("b_next_eval"@)
            == b.evaluations.custom_evals.contains("b_next_eval"@));
        assert(a.evaluations.custom_evals.contains("d_next_eval"@)
            == b.evaluations.custom_evals.contains("d_next_eval"@));
    }
    lemma_same_content_symmetric(a, b);
    if a.is_verdict(key, verifier_key, pub_inputs, verdict) {
        lemma_verdict_follows(a, b, key, verifier_key, pub_inputs, verdict);
    }
    if b.is_verdict(key, verifier_key, pub_inputs, verdict) {
        lemma_verdict_follows(b, a, key, verifier_key, pub_inputs, verdict);
    }
}

/// Proofs over KZG commitments with the same model have the same content.
pub proof fn lemma_same_model_same_content(a: Proof<Fr, Kzg>, b: Proof<Fr, Kzg>)
    requires
        a.model() == b.model(),
    ensures
        same_content(a, b),
{
    let m = a.model();
    let k = b.model();
    let x = m.commitments;
    let y = k.commitments;
    assert(x[0] == y[0] && x[1] == y[1] && x[2] == y[2] && x[3] == y[3] && x[4] == y[4] && x[5]
        == y[5] && x[6] == y[6] && x[7] == y[7] && x[8] == y[8] && x[9] == y[9] && x[10] == y[10]
        && x[11] == y[11] && x[12] == y[12]);
    let u = m.evaluations;
    let v = k.evaluations;
    assert(u[0] == v[0] && u[1] == v[1] && u[2] == v[2] && u[3] == v[3] && u[4] == v[4] && u[5]
        == v[5] && u[6] == v[6] && u[7] == v[7] && u[8] == v[8] && u[9] == v[9] && u[10] == v[10]
        && u[11] == v[11] && u[12] == v[12] && u[13] == v[13] && u[14] == v[14] && u[15] == v[15]);
    assert(a.evaluations.listed() =~= b.evaluations.listed());
    let s = a.evaluations.custom_evals.vals@;
    let t = b.evaluations.custom_evals.vals@;
    assert(models(s) == models(t));
    assert(s.len() == models(s).len() && t.len() == models(t).len());
    assert forall|i: int| 0 <= i < s.len() implies s[i].0@ == t[i].0@ && s[i].1.value()
        == t[i].1.value() by {
        assert(models(s)[i] == s[i].model());
        assert(models(t)[i] == t[i].model());
    }
    let o = a.batch_opening@;
    let w = b.batch_opening@;
    assert(models(o) == models(w));
    assert(o.map_values(|e: Opening| e.parts()) =~= models(o));
    assert(w.map_values(|e: Opening| e.parts()) =~= models(w));
    assert(o.len() == models(o).len() && w.len() == models(w).len());
    assert(a.wire_points() =~= b.wire_points());
    assert(a.sorted_points() =~= b.sorted_points());
    assert(a.quotient_points() =~= b.quotient_points());
}

/// A proof that was written and read again has the verdict that it had before: proofs over
/// KZG commitments with the same model have the same verdict, where the gates contribute the
/// same to both.
pub proof fn lemma_same_model_same_verdict<G: GateConstraints<Fr, Kzg>>(
    a: Proof<Fr, Kzg>,
    b: Proof<Fr, Kzg>,
    key: VerifierKey<Fr, Kzg, G>,
    verifier_key: KzgVerifierKey,
    pub_inputs: Seq<int>,
    n: nat,
    verdict: Result<(), Error>,
)
    requires
        a.model() == b.model(),
        gates_follow(a, b, key),
        gates_follow(b, a, key),
    ensures
        a.is_checkable(pub_inputs, n) == b.is_checkable(pub_inputs, n),
        a.is_verdict(key, verifier_key, pub_inputs, verdict) == b.is_verdict(
            key,
            verifier_key,
            pub_inputs,
            verdict,
        ),
{
    lemma_same_model_same_content(a, b);
    lemma_same_content_same_verdict(a, b, key, verifier_key, pub_inputs, n, verdict);
}

} // verus!
