//! What the commitment scheme is asked to check.
use vstd::prelude::*;

use crate::arithmetic::reduce;
use crate::challenges::Challenges;
use crate::claims::{decimal, label, lemma_asked_at, numbered_label};
use crate::commitment::{EvaluationsModel, HomomorphicCommitment, QueryModel};
use crate::domain::GeneralEvaluationDomain;
use crate::field::PrimeField;
use crate::openings::{lemma_statement_is_complete, two_point_statement};
use crate::proof_system::Proof;
use crate::verifier_key::VerifierKey;

verus! {

/// The number that a sequence of decimal digits stands for.
pub open spec fn number_of(text: Seq<char>) -> int
    decreases text.len(),
{
    if text.len() == 0 {
        0
    } else {
        10 * number_of(text.drop_last()) + (text.last() as int - '0' as int)
    }
}

/// A number is written with decimal digits, without zeros in front.
proof fn lemma_decimal_is_number(n: nat)
    ensures
        decimal(n).len() > 0,
        number_of(decimal(n)) == n,
        forall|i: int| 0 <= i < decimal(n).len() ==> '0' <= #[trigger] decimal(n)[i] <= '9',
        decimal(n)[0] == '0' ==> n == 0 && decimal(n).len() == 1,
    decreases n,
{
    let text = decimal(n);
    if n < 10 {
        assert(text.drop_last() =~= Seq::<char>::empty());
        assert(number_of(text.drop_last()) == 0);
    } else {
        lemma_decimal_is_number(n / 10);
        assert(text.drop_last() =~= decimal(n / 10));
        assert(text[0] == decimal(n / 10)[0]);
        assert forall|i: int| 0 <= i < text.len() implies '0' <= #[trigger] text[i] <= '9' by {
            if i < text.len() - 1 {
                assert(text[i] == decimal(n / 10)[i]);
            }
        }
    }
}

/// [`label`] gives the prefix, followed by the number in decimal digits, without zeros in
/// front.
pub proof fn lemma_labels_are_numbered(prefix: &str, i: usize, r: String)
    requires
        call_ensures(label, (prefix, i), r),
    ensures
        r@.len() > prefix@.len(),
        r@.take(prefix@.len() as int) == prefix@,
        number_of(r@.skip(prefix@.len() as int)) == i,
        forall|k: int| prefix@.len() <= k < r@.len() ==> '0' <= #[trigger] r@[k] <= '9',
        r@[prefix@.len() as int] == '0' ==> i == 0 && r@.len() == prefix@.len() + 1,
{
    lemma_decimal_is_number(i as nat);
    let tail = decimal(i as nat);
    assert(r@.take(prefix@.len() as int) =~= prefix@);
    assert(r@.skip(prefix@.len() as int) =~= tail);
    assert forall|k: int| prefix@.len() <= k < r@.len() implies '0' <= #[trigger] r@[k] <= '9' by {
        assert(r@[k] == tail[k - prefix@.len()]);
    }
}

/// The commitments that are opened at `z`, and the values that are claimed for them.
pub open spec fn claimed_at_z<F: PrimeField, PC: HomomorphicCommitment<F>, G>(
    p: Proof<F, PC>,
    key: VerifierKey<F, PC, G>,
    table: PC::Point,
    lin: PC::Point,
    r0: int,
) -> Seq<(PC::Point, int)> {
    let wires = p.evaluations.wire_evals;
    let perm = p.evaluations.perm_evals;
    let lookup = p.evaluations.lookup_evals;
    seq![
        (lin, (-r0) % F::modulus()),
        (PC::point(key.permutation.left_sigma), perm.left_sigma_eval.value()),
        (PC::point(key.permutation.right_sigma), perm.right_sigma_eval.value()),
        (PC::point(key.permutation.out_sigma), perm.out_sigma_eval.value()),
        (PC::point(p.f_comm), lookup.f_eval.value()),
        (PC::point(p.h_2_comm), lookup.h2_eval.value()),
        (table, lookup.table_eval.value()),
        (PC::point(p.a_comm), wires.a_eval.value()),
        (PC::point(p.b_comm), wires.b_eval.value()),
        (PC::point(p.c_comm), wires.c_eval.value()),
        (PC::point(p.d_comm), wires.d_eval.value()),
    ]
}

/// The commitments that are opened at `z * omega`, and the values that are claimed for them.
pub open spec fn claimed_at_next<F: PrimeField, PC: HomomorphicCommitment<F>>(
    p: Proof<F, PC>,
    table: PC::Point,
) -> Seq<(PC::Point, int)> {
    let perm = p.evaluations.perm_evals;
    let lookup = p.evaluations.lookup_evals;
    let custom = p.evaluations.custom_evals;
    seq![
        (PC::point(p.z_comm), perm.permutation_eval.value()),
        (PC::point(p.a_comm), custom.value_of("a_next_eval"@)),
        (PC::point(p.b_comm), custom.value_of("b_next_eval"@)),
        (PC::point(p.d_comm), custom.value_of("d_next_eval"@)),
        (PC::point(p.h_1_comm), lookup.h1_next_eval.value()),
        (PC::point(p.z_2_comm), lookup.z2_next_eval.value()),
        (table, lookup.table_next_eval.value()),
    ]
}

/// The columns of the lookup table, combined with the powers of `zeta`.
pub open spec fn table_total<F: PrimeField, PC: HomomorphicCommitment<F>, G>(
    key: VerifierKey<F, PC, G>,
    zeta: int,
) -> PC::Point {
    PC::plus(
        PC::plus(
            PC::plus(
                PC::plus(PC::neutral(), PC::scaled(1, PC::point(key.lookup.table_1))),
                PC::scaled(zeta, PC::point(key.lookup.table_2)),
            ),
            PC::scaled((zeta * zeta) % F::modulus(), PC::point(key.lookup.table_3)),
        ),
        PC::scaled((zeta * zeta * zeta) % F::modulus(), PC::point(key.lookup.table_4)),
    )
}

proof fn lemma_table_point<F: PrimeField, PC: HomomorphicCommitment<F>, G>(
    key: VerifierKey<F, PC, G>,
    zeta: int,
)
    ensures
        Proof::<F, PC>::table_point(key, zeta) == table_total(key, zeta),
{
    let m = F::modulus();
    let t1 = PC::point(key.lookup.table_1);
    let t2 = PC::point(key.lookup.table_2);
    let t3 = PC::point(key.lookup.table_3);
    let t4 = PC::point(key.lookup.table_4);
    let z2 = reduce(m, zeta * zeta);
    let z3 = reduce(m, zeta * zeta * zeta);
    let none = Seq::<PC::Point>::empty();
    let zero = Seq::<int>::empty();
    PC::lemma_combination(none, zero, t1, 1);
    PC::lemma_combination(seq![t1], seq![1int], t2, zeta);
    PC::lemma_combination(seq![t1, t2], seq![1int, zeta], t3, z2);
    PC::lemma_combination(seq![t1, t2, t3], seq![1int, zeta, z2], t4, z3);
    assert(none.push(t1) =~= seq![t1]);
    assert(zero.push(1) =~= seq![1int]);
    assert(seq![t1].push(t2) =~= seq![t1, t2]);
    assert(seq![1int].push(zeta) =~= seq![1int, zeta]);
    assert(seq![t1, t2].push(t3) =~= seq![t1, t2, t3]);
    assert(seq![1int, zeta].push(z2) =~= seq![1int, zeta, z2]);
    assert(seq![t1, t2, t3].push(t4) =~= seq![t1, t2, t3, t4]);
    assert(seq![1int, zeta, z2].push(z3) =~= seq![1int, zeta, z2, z3]);
}

/// [`Proof::compute_table_commitment`] adds up the columns of the lookup table, each
/// multiplied by a power of `zeta`, from the zeroth to the third.
pub proof fn lemma_columns_are_combined<F: PrimeField, PC: HomomorphicCommitment<F>, G>(
    key: VerifierKey<F, PC, G>,
    zeta: F,
    r: PC::Commitment,
)
    requires
        call_ensures(Proof::<F, PC>::compute_table_commitment::<G>, (&key, zeta), r),
    ensures
        PC::point(r) == table_total(key, zeta.value()),
{
    lemma_table_point(key, zeta.value());
}

/// The scheme is asked about these commitments at `z` and at `next`, each under its own label,
/// with one query and one claimed value for each, and about nothing else.
pub open spec fn are_claims<Point>(
    commitments: Seq<(Seq<char>, Point)>,
    queries: Set<QueryModel>,
    evaluations: EvaluationsModel,
    at_z: Seq<(Point, int)>,
    z: int,
    at_next: Seq<(Point, int)>,
    next: int,
) -> bool {
    &&& commitments.len() == at_z.len() + at_next.len()
    &&& forall|i: nat|
        i < at_z.len() ==> {
            let label = "w_"@ + #[trigger] decimal(i);
            &&& commitments[i as int] == (label, at_z[i as int].0)
            &&& queries.contains((label, ("z"@, z)))
            &&& evaluations.contains_key((label, z))
            &&& evaluations[(label, z)] == at_z[i as int].1
        }
    &&& forall|i: nat|
        i < at_next.len() ==> {
            let label = "saw_"@ + #[trigger] decimal(i);
            &&& commitments[at_z.len() + i as int] == (label, at_next[i as int].0)
            &&& queries.contains((label, ("omega_z"@, next)))
            &&& evaluations.contains_key((label, next))
            &&& evaluations[(label, next)] == at_next[i as int].1
        }
    &&& forall|q: QueryModel| #[trigger]
        queries.contains(q) ==> (q.1 == ("z"@, z) && exists|k: nat|
            k < at_z.len() && q.0 == "w_"@ + #[trigger] decimal(k)) || (q.1 == ("omega_z"@, next)
            && exists|k: nat| k < at_next.len() && q.0 == "saw_"@ + #[trigger] decimal(k))
}

/// What the openings of a proof have to show is what is claimed.
pub proof fn lemma_statement_is_claimed<F: PrimeField, PC: HomomorphicCommitment<F>, G>(
    p: Proof<F, PC>,
    key: VerifierKey<F, PC, G>,
    c: Challenges<F>,
    r0: int,
    lin: PC::Point,
    omega: int,
)
    ensures
        ({
            let z = c.z_challenge.value();
            let table = table_total(key, c.zeta.value());
            let s = p.statement(key, c, r0, lin, omega);
            are_claims(
                s.commitments,
                s.queries,
                s.evaluations,
                claimed_at_z(p, key, table, lin, r0),
                z,
                claimed_at_next(p, table),
                (z * omega) % F::modulus(),
            )
        }),
{
    let m = F::modulus();
    let z = c.z_challenge.value();
    let next = reduce(m, z * omega);
    let table = Proof::<F, PC>::table_point(key, c.zeta.value());
    lemma_table_point(key, c.zeta.value());
    let at_z = claimed_at_z(p, key, table, lin, r0);
    let at_next = claimed_at_next(p, table);
    let w_points = at_z.map_values(|e: (PC::Point, int)| e.0);
    let w_values = at_z.map_values(|e: (PC::Point, int)| e.1);
    let saw_points = at_next.map_values(|e: (PC::Point, int)| e.0);
    let saw_values = at_next.map_values(|e: (PC::Point, int)| e.1);
    let s = p.statement(key, c, r0, lin, omega);
    let wires = p.evaluations.wire_evals;
    let perm = p.evaluations.perm_evals;
    let lookup = p.evaluations.lookup_evals;
    let custom = p.evaluations.custom_evals;
    assert(w_points =~= seq![
        lin,
        PC::point(key.permutation.left_sigma),
        PC::point(key.permutation.right_sigma),
        PC::point(key.permutation.out_sigma),
        PC::point(p.f_comm),
        PC::point(p.h_2_comm),
        table,
        PC::point(p.a_comm),
        PC::point(p.b_comm),
        PC::point(p.c_comm),
        PC::point(p.d_comm),
    ]);
    assert(w_values =~= seq![
        reduce(m, -r0),
        perm.left_sigma_eval.value(),
        perm.right_sigma_eval.value(),
        perm.out_sigma_eval.value(),
        lookup.f_eval.value(),
        lookup.h2_eval.value(),
        lookup.table_eval.value(),
        wires.a_eval.value(),
        wires.b_eval.value(),
        wires.c_eval.value(),
        wires.d_eval.value(),
    ]);
    assert(saw_points =~= seq![
        PC::point(p.z_comm),
        PC::point(p.a_comm),
        PC::point(p.b_comm),
        PC::point(p.d_comm),
        PC::point(p.h_1_comm),
        PC::point(p.z_2_comm),
        table,
    ]);
    assert(saw_values =~= seq![
        perm.permutation_eval.value(),
        custom.value_of("a_next_eval"@),
        custom.value_of("b_next_eval"@),
        custom.value_of("d_next_eval"@),
        lookup.h1_next_eval.value(),
        lookup.z2_next_eval.value(),
        lookup.table_next_eval.value(),
    ]);
    assert(s == two_point_statement(w_points, w_values, z, saw_points, saw_values, next));
    assert forall|i: nat| i < at_z.len() implies ({
        let label = "w_"@ + #[trigger] decimal(i);
        &&& s.commitments[i as int] == (label, at_z[i as int].0)
        &&& s.queries.contains((label, ("z"@, z)))
        &&& s.evaluations.contains_key((label, z))
        &&& s.evaluations[(label, z)] == at_z[i as int].1
    }) by {
        lemma_statement_is_complete(w_points, w_values, z, saw_points, saw_values, next, i);
    }
    assert forall|i: nat| i < at_next.len() implies ({
        let label = "saw_"@ + #[trigger] decimal(i);
        &&& s.commitments[at_z.len() + i as int] == (label, at_next[i as int].0)
        &&& s.queries.contains((label, ("omega_z"@, next)))
        &&& s.evaluations.contains_key((label, next))
        &&& s.evaluations[(label, next)] == at_next[i as int].1
    }) by {
        lemma_statement_is_complete(w_points, w_values, z, saw_points, saw_values, next, i);
    }
    assert forall|q: QueryModel| #[trigger] s.queries.contains(q) implies (q.1 == ("z"@, z)
        && exists|k: nat| k < at_z.len() && q.0 == "w_"@ + #[trigger] decimal(k)) || (q.1 == (
        "omega_z"@,
        next,
    ) && exists|k: nat| k < at_next.len() && q.0 == "saw_"@ + #[trigger] decimal(k)) by {
        lemma_asked_at("w_"@, 11, "z"@, z, q);
        lemma_asked_at("saw_"@, 7, "omega_z"@, next, q);
        if q.1 == ("z"@, z) && exists|k: nat|
            k < 11 && q.0 == #[trigger] numbered_label("w_"@, k) {
            let k = choose|k: nat| k < 11 && q.0 == #[trigger] numbered_label("w_"@, k);
            assert(q.0 == "w_"@ + decimal(k));
        } else {
            let k = choose|k: nat| k < 7 && q.0 == #[trigger] numbered_label("saw_"@, k);
            assert(q.0 == "saw_"@ + decimal(k));
        }
    }
}

/// [`Proof::collect_claims`] lists eleven commitments to be opened at `z` and seven to be
/// opened at `z * omega`: see [`are_claims`].
pub proof fn lemma_claims_are_complete<F: PrimeField, PC: HomomorphicCommitment<F>, G>(
    p: Proof<F, PC>,
    key: VerifierKey<F, PC, G>,
    c: Challenges<F>,
    domain: GeneralEvaluationDomain<F>,
    r0: F,
    lin_comm: PC::Commitment,
    claims: PC::Claims,
)
    requires
        call_ensures(
            Proof::<F, PC>::collect_claims::<G>,
            (&p, &key, &c, &domain, r0, lin_comm),
            claims,
        ),
    ensures
        ({
            let z = c.z_challenge.value();
            let table = table_total(key, c.zeta.value());
            are_claims(
                PC::commitments(claims),
                PC::queries(claims),
                PC::evaluations(claims),
                claimed_at_z(p, key, table, PC::point(lin_comm), r0.value()),
                z,
                claimed_at_next(p, table),
                (z * domain.group_gen.value()) % F::modulus(),
            )
        }),
{
    lemma_statement_is_claimed(
        p,
        key,
        c,
        r0.value(),
        PC::point(lin_comm),
        domain.group_gen.value(),
    );
}

} // verus!
