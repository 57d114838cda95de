//! Which bytes the parts of a proof are written as, and in which order.
use vstd::arithmetic::power::pow;
use vstd::prelude::*;
use vstd::utf8::{decode_utf8_encode_utf8, encode_utf8, valid_utf8};

use crate::bls12_381::Fr;
use crate::byte_laws::lemma_digits;
use crate::commitment::HomomorphicCommitment;
use crate::encoding::{
    all_encodings, decode_all, le_value, lemma_all_encodings_push, lemma_le_value_range, models,
    Canonical, Decoded, IoErrorKind, SerializationError,
};
use crate::field::{le_bytes, PrimeField};
use crate::g1::{fq_modulus, g1_encoding, g1_multiple, is_in_subgroup, Coordinates, G1};
use crate::kzg::{Kzg, Opening};
use crate::proof_system::Proof;

verus! {

/// The commitments of a proof, one after another, in the order in which they are declared.
pub open spec fn commitment_bytes<F: PrimeField, PC: HomomorphicCommitment<F>>(
    p: Proof<F, PC>,
) -> Seq<u8> where PC::Commitment: Canonical {
    PC::Commitment::encoding(p.a_comm.model()) + PC::Commitment::encoding(p.b_comm.model())
        + PC::Commitment::encoding(p.c_comm.model()) + PC::Commitment::encoding(p.d_comm.model())
        + PC::Commitment::encoding(p.z_comm.model()) + PC::Commitment::encoding(p.f_comm.model())
        + PC::Commitment::encoding(p.h_1_comm.model()) + PC::Commitment::encoding(
        p.h_2_comm.model(),
    ) + PC::Commitment::encoding(p.z_2_comm.model()) + PC::Commitment::encoding(p.t_1_comm.model())
        + PC::Commitment::encoding(p.t_2_comm.model()) + PC::Commitment::encoding(
        p.t_3_comm.model(),
    ) + PC::Commitment::encoding(p.t_4_comm.model())
}

/// The evaluations of a proof without labels, one after another, in the order in which they
/// are declared.
pub open spec fn evaluation_bytes<F: PrimeField + Canonical, PC: HomomorphicCommitment<F>>(
    p: Proof<F, PC>,
) -> Seq<u8> {
    let wires = p.evaluations.wire_evals;
    let perm = p.evaluations.perm_evals;
    let lookup = p.evaluations.lookup_evals;
    F::encoding(wires.a_eval.model()) + F::encoding(wires.b_eval.model()) + F::encoding(
        wires.c_eval.model(),
    ) + F::encoding(wires.d_eval.model()) + F::encoding(perm.left_sigma_eval.model()) + F::encoding(
        perm.right_sigma_eval.model(),
    ) + F::encoding(perm.out_sigma_eval.model()) + F::encoding(perm.permutation_eval.model())
        + F::encoding(lookup.q_lookup_eval.model()) + F::encoding(lookup.z2_next_eval.model())
        + F::encoding(lookup.h1_eval.model()) + F::encoding(lookup.h1_next_eval.model())
        + F::encoding(lookup.h2_eval.model()) + F::encoding(lookup.f_eval.model()) + F::encoding(
        lookup.table_eval.model(),
    ) + F::encoding(lookup.table_next_eval.model())
}

/// Thirteen values, one after another.
proof fn lemma_thirteen<T: Canonical>(m: Seq<T::Model>)
    requires
        m.len() == 13,
    ensures
        all_encodings::<T>(m) == T::encoding(m[0]) + T::encoding(m[1]) + T::encoding(m[2])
            + T::encoding(m[3]) + T::encoding(m[4]) + T::encoding(m[5]) + T::encoding(m[6])
            + T::encoding(m[7]) + T::encoding(m[8]) + T::encoding(m[9]) + T::encoding(m[10])
            + T::encoding(m[11]) + T::encoding(m[12]),
{
    lemma_first_encodings::<T>(m, 13);
    lemma_first_encodings::<T>(m, 12);
    lemma_first_encodings::<T>(m, 11);
    lemma_first_encodings::<T>(m, 10);
    lemma_first_encodings::<T>(m, 9);
    lemma_first_encodings::<T>(m, 8);
    lemma_first_encodings::<T>(m, 7);
    lemma_first_encodings::<T>(m, 6);
    lemma_first_encodings::<T>(m, 5);
    lemma_first_encodings::<T>(m, 4);
    lemma_first_encodings::<T>(m, 3);
    lemma_first_encodings::<T>(m, 2);
    lemma_first_encodings::<T>(m, 1);
    assert(m.take(13) =~= m);
}

/// Sixteen values, one after another.
proof fn lemma_sixteen<T: Canonical>(m: Seq<T::Model>)
    requires
        m.len() == 16,
    ensures
        all_encodings::<T>(m) == T::encoding(m[0]) + T::encoding(m[1]) + T::encoding(m[2])
            + T::encoding(m[3]) + T::encoding(m[4]) + T::encoding(m[5]) + T::encoding(m[6])
            + T::encoding(m[7]) + T::encoding(m[8]) + T::encoding(m[9]) + T::encoding(m[10])
            + T::encoding(m[11]) + T::encoding(m[12]) + T::encoding(m[13]) + T::encoding(m[14])
            + T::encoding(m[15]),
{
    let first = m.take(13);
    lemma_thirteen::<T>(first);
    lemma_first_encodings::<T>(m, 16);
    lemma_first_encodings::<T>(m, 15);
    lemma_first_encodings::<T>(m, 14);
    assert(m.take(16) =~= m);
}

/// The first `k` values are the first `k - 1`, followed by one more.
proof fn lemma_first_encodings<T: Canonical>(m: Seq<T::Model>, k: nat)
    requires
        0 < k <= m.len(),
    ensures
        all_encodings::<T>(m.take(k as int)) == all_encodings::<T>(m.take(k - 1)) + T::encoding(
            m[k - 1],
        ),
        k == 1 ==> all_encodings::<T>(m.take(1)) == T::encoding(m[0]),
{
    lemma_all_encodings_push::<T>(m.take(k - 1), m[k - 1]);
    assert(m.take(k as int) =~= m.take(k - 1).push(m[k - 1]));
    if k == 1 {
        assert(m.take(0) =~= Seq::<T::Model>::empty());
        assert(Seq::<u8>::empty() + T::encoding(m[0]) =~= T::encoding(m[0]));
    }
}

/// A proof is written field by field, in the order in which the fields are declared: the
/// thirteen commitments, the sixteen evaluations without labels, the labelled evaluations and
/// the openings.
pub proof fn lemma_fields_are_written_in_order<
    F: PrimeField + Canonical,
    PC: HomomorphicCommitment<F>,
>(p: Proof<F, PC>) where PC::Commitment: Canonical, PC::BatchProof: Canonical
    ensures
        <Proof<F, PC> as Canonical>::encoding(p.model()) == commitment_bytes(p) + evaluation_bytes(
            p,
        ) + <Vec<(String, F)> as Canonical>::encoding(p.evaluations.custom_evals.vals.model())
            + PC::BatchProof::encoding(p.batch_opening.model()),
{
    let m = p.model();
    lemma_thirteen::<PC::Commitment>(m.commitments);
    lemma_sixteen::<F>(m.evaluations);
    let a = commitment_bytes(p);
    let b = evaluation_bytes(p);
    let c = <Vec<(String, F)> as Canonical>::encoding(p.evaluations.custom_evals.vals.model());
    let d = PC::BatchProof::encoding(p.batch_opening.model());
    assert(all_encodings::<PC::Commitment>(m.commitments) == a);
    assert(all_encodings::<F>(m.evaluations) == b);
    assert(a + (b + (c + d)) =~= a + b + c + d);
}

/// Two proofs have the same parts: the same commitments, evaluations, labels and openings, as
/// specifications see them.
pub open spec fn same_parts<F: PrimeField + Canonical, PC: HomomorphicCommitment<F>>(
    p: Proof<F, PC>,
    q: Proof<F, PC>,
) -> bool where PC::Commitment: Canonical, PC::BatchProof: Canonical {
    let (w, v) = (p.evaluations.wire_evals, q.evaluations.wire_evals);
    let (s, t) = (p.evaluations.perm_evals, q.evaluations.perm_evals);
    let (l, k) = (p.evaluations.lookup_evals, q.evaluations.lookup_evals);
    let (x, y) = (p.evaluations.custom_evals.vals@, q.evaluations.custom_evals.vals@);
    &&& p.a_comm.model() == q.a_comm.model()
    &&& p.b_comm.model() == q.b_comm.model()
    &&& p.c_comm.model() == q.c_comm.model()
    &&& p.d_comm.model() == q.d_comm.model()
    &&& p.z_comm.model() == q.z_comm.model()
    &&& p.f_comm.model() == q.f_comm.model()
    &&& p.h_1_comm.model() == q.h_1_comm.model()
    &&& p.h_2_comm.model() == q.h_2_comm.model()
    &&& p.z_2_comm.model() == q.z_2_comm.model()
    &&& p.t_1_comm.model() == q.t_1_comm.model()
    &&& p.t_2_comm.model() == q.t_2_comm.model()
    &&& p.t_3_comm.model() == q.t_3_comm.model()
    &&& p.t_4_comm.model() == q.t_4_comm.model()
    &&& w.a_eval.model() == v.a_eval.model()
    &&& w.b_eval.model() == v.b_eval.model()
    &&& w.c_eval.model() == v.c_eval.model()
    &&& w.d_eval.model() == v.d_eval.model()
    &&& s.left_sigma_eval.model() == t.left_sigma_eval.model()
    &&& s.right_sigma_eval.model() == t.right_sigma_eval.model()
    &&& s.out_sigma_eval.model() == t.out_sigma_eval.model()
    &&& s.permutation_eval.model() == t.permutation_eval.model()
    &&& l.q_lookup_eval.model() == k.q_lookup_eval.model()
    &&& l.z2_next_eval.model() == k.z2_next_eval.model()
    &&& l.h1_eval.model() == k.h1_eval.model()
    &&& l.h1_next_eval.model() == k.h1_next_eval.model()
    &&& l.h2_eval.model() == k.h2_eval.model()
    &&& l.f_eval.model() == k.f_eval.model()
    &&& l.table_eval.model() == k.table_eval.model()
    &&& l.table_next_eval.model() == k.table_next_eval.model()
    &&& x.len() == y.len()
    &&& forall|i: int|
        #![trigger x[i]]
        #![trigger y[i]]
        0 <= i < x.len() ==> x[i].0@ == y[i].0@ && x[i].1.model() == y[i].1.model()
    &&& p.batch_opening.model() == q.batch_opening.model()
}

/// Specifications see the same proof where all parts are the same.
proof fn lemma_same_model<F: PrimeField + Canonical, PC: HomomorphicCommitment<F>>(
    p: Proof<F, PC>,
    q: Proof<F, PC>,
) where PC::Commitment: Canonical, PC::BatchProof: Canonical
    ensures
        p.model() == q.model() <==> same_parts(p, q),
{
    let x = p.evaluations.custom_evals.vals@;
    let y = q.evaluations.custom_evals.vals@;
    assert(models(x).len() == x.len() && models(y).len() == y.len());
    assert(forall|i: int| 0 <= i < x.len() ==> models(x)[i] == (x[i].0@, x[i].1.model()));
    assert(forall|i: int| 0 <= i < y.len() ==> models(y)[i] == (y[i].0@, y[i].1.model()));
    let a = p.model();
    let b = q.model();
    if a == b {
        let (c, d) = (a.commitments, b.commitments);
        assert(c[0] == d[0] && c[1] == d[1] && c[2] == d[2] && c[3] == d[3] && c[4] == d[4] && c[5]
            == d[5] && c[6] == d[6] && c[7] == d[7] && c[8] == d[8] && c[9] == d[9] && c[10]
            == d[10] && c[11] == d[11] && c[12] == d[12]);
        let (e, f) = (a.evaluations, b.evaluations);
        assert(e[0] == f[0] && e[1] == f[1] && e[2] == f[2] && e[3] == f[3] && e[4] == f[4] && e[5]
            == f[5] && e[6] == f[6] && e[7] == f[7] && e[8] == f[8] && e[9] == f[9] && e[10]
            == f[10] && e[11] == f[11] && e[12] == f[12] && e[13] == f[13] && e[14] == f[14]
            && e[15] == f[15]);
        assert(models(x) == models(y));
        assert forall|i: int|
            #![trigger x[i]]
            #![trigger y[i]]
            0 <= i < x.len() implies x[i].0@ == y[i].0@ && x[i].1.model() == y[i].1.model() by {
            assert(models(x)[i] == models(y)[i]);
        }
    }
    if same_parts(p, q) {
        assert(a.commitments =~= b.commitments);
        assert(a.evaluations =~= b.evaluations);
        assert(models(x) =~= models(y));
    }
}

/// Two proofs are equal where all their parts are, and nowhere else.
pub proof fn lemma_equality_of_parts<F: PrimeField + Canonical, PC: HomomorphicCommitment<F>>(
    p: Proof<F, PC>,
    q: Proof<F, PC>,
    r: bool,
) where PC::Commitment: Canonical, PC::BatchProof: Canonical
    requires
        call_ensures(<Proof<F, PC> as PartialEq>::eq, (&p, &q), r),
    ensures
        r == same_parts(p, q),
{
    lemma_same_model(p, q);
}

/// The parts of a proof are such that they can be written.
pub open spec fn parts_are_valid<F: PrimeField + Canonical, PC: HomomorphicCommitment<F>>(
    p: Proof<F, PC>,
) -> bool where PC::Commitment: Canonical, PC::BatchProof: Canonical {
    let w = p.evaluations.wire_evals;
    let s = p.evaluations.perm_evals;
    let l = p.evaluations.lookup_evals;
    &&& PC::Commitment::is_valid(p.a_comm.model())
    &&& PC::Commitment::is_valid(p.b_comm.model())
    &&& PC::Commitment::is_valid(p.c_comm.model())
    &&& PC::Commitment::is_valid(p.d_comm.model())
    &&& PC::Commitment::is_valid(p.z_comm.model())
    &&& PC::Commitment::is_valid(p.f_comm.model())
    &&& PC::Commitment::is_valid(p.h_1_comm.model())
    &&& PC::Commitment::is_valid(p.h_2_comm.model())
    &&& PC::Commitment::is_valid(p.z_2_comm.model())
    &&& PC::Commitment::is_valid(p.t_1_comm.model())
    &&& PC::Commitment::is_valid(p.t_2_comm.model())
    &&& PC::Commitment::is_valid(p.t_3_comm.model())
    &&& PC::Commitment::is_valid(p.t_4_comm.model())
    &&& F::is_valid(w.a_eval.model())
    &&& F::is_valid(w.b_eval.model())
    &&& F::is_valid(w.c_eval.model())
    &&& F::is_valid(w.d_eval.model())
    &&& F::is_valid(s.left_sigma_eval.model())
    &&& F::is_valid(s.right_sigma_eval.model())
    &&& F::is_valid(s.out_sigma_eval.model())
    &&& F::is_valid(s.permutation_eval.model())
    &&& F::is_valid(l.q_lookup_eval.model())
    &&& F::is_valid(l.z2_next_eval.model())
    &&& F::is_valid(l.h1_eval.model())
    &&& F::is_valid(l.h1_next_eval.model())
    &&& F::is_valid(l.h2_eval.model())
    &&& F::is_valid(l.f_eval.model())
    &&& F::is_valid(l.table_eval.model())
    &&& F::is_valid(l.table_next_eval.model())
    &&& <Vec<(String, F)> as Canonical>::is_valid(p.evaluations.custom_evals.vals.model())
    &&& PC::BatchProof::is_valid(p.batch_opening.model())
}

/// A proof is read field by field, in the order in which the fields are declared: from bytes
/// that start with the encodings of the parts of `p`, in that order, a proof with these parts
/// in these places is read, and the bytes that follow are left.
pub proof fn lemma_fields_are_read_in_order<
    F: PrimeField + Canonical,
    PC: HomomorphicCommitment<F>,
>(
    p: Proof<F, PC>,
    bytes: Vec<u8>,
    start: usize,
    rest: Seq<u8>,
    r: Result<(Proof<F, PC>, usize), SerializationError>,
) where PC::Commitment: Canonical, PC::BatchProof: Canonical
    requires
        call_ensures(<Proof<F, PC> as Canonical>::deserialize, (&bytes, start), r),
        start <= bytes.len(),
        parts_are_valid(p),
        bytes@.skip(start as int) == commitment_bytes(p) + evaluation_bytes(p) + <Vec<
            (String, F),
        > as Canonical>::encoding(p.evaluations.custom_evals.vals.model())
            + PC::BatchProof::encoding(p.batch_opening.model()) + rest,
    ensures
        r matches Ok((read, end)) && same_parts(read, p) && end == bytes.len() - rest.len(),
{
    let m = p.model();
    lemma_fields_are_written_in_order(p);
    assert forall|i: int| 0 <= i < m.commitments.len() implies PC::Commitment::is_valid(
        #[trigger] m.commitments[i],
    ) by {}
    assert forall|i: int| 0 <= i < m.evaluations.len() implies F::is_valid(
        #[trigger] m.evaluations[i],
    ) by {}
    assert(<Proof<F, PC> as Canonical>::is_valid(m));
    <Proof<F, PC> as Canonical>::lemma_round_trip(m, rest);
    if let Ok((read, end)) = r {
        lemma_same_model(read, p);
    }
}

/// A value is written with what is written for its parts: two values one after the other, one
/// byte before a value that may be missing, and the length in eight bytes before a list or a
/// string, the lowest byte first.
pub proof fn lemma_parts_are_written<A: Canonical, B: Canonical>(
    a: A::Model,
    b: B::Model,
    list: Seq<A::Model>,
    text: Seq<char>,
    i: int,
)
    ensures
        <(A, B) as Canonical>::encoding((a, b)) == A::encoding(a) + B::encoding(b),
        <Option<A> as Canonical>::encoding(None) == seq![0u8],
        <Option<A> as Canonical>::encoding(Some(a)) == seq![1u8] + A::encoding(a),
        <Vec<A> as Canonical>::encoding(Seq::empty()).len() == 8,
        <Vec<A> as Canonical>::encoding(list.push(a)).skip(8) == <Vec<A> as Canonical>::encoding(
            list,
        ).skip(8) + A::encoding(a),
        0 <= i < 8 ==> <Vec<A> as Canonical>::encoding(list)[i] == (list.len() as int / pow(
            256,
            i as nat,
        )) % 256,
        <String as Canonical>::encoding(text).skip(8) == encode_utf8(text),
        0 <= i < 8 ==> <String as Canonical>::encoding(text)[i] == (encode_utf8(text).len() as int
            / pow(256, i as nat)) % 256,
{
    lemma_all_encodings_push::<A>(list, a);
    let more = list.push(a);
    let head = le_bytes(list.len() as int, 8);
    let next = le_bytes(more.len() as int, 8);
    assert(<Vec<A> as Canonical>::encoding(list).skip(8) =~= all_encodings::<A>(list));
    assert(<Vec<A> as Canonical>::encoding(more).skip(8) =~= all_encodings::<A>(more));
    assert(<Vec<A> as Canonical>::encoding(Seq::empty()) =~= le_bytes(0, 8));
    assert(<String as Canonical>::encoding(text).skip(8) =~= encode_utf8(text));
    if 0 <= i < 8 {
        lemma_digits(list.len() as int, 8, i);
        lemma_digits(encode_utf8(text).len() as int, 8, i);
    }
}

/// Over KZG, the commitments of a proof take 48 bytes each and its evaluations 32: the `i`-th
/// commitment, in the order of declaration, starts at `48 * i`, and the `j`-th evaluation
/// after all commitments at `32 * j`.
pub proof fn lemma_places_of_fields(p: Proof<Fr, Kzg>, i: int, j: int)
    ensures
        ({
            let bytes = <Proof<Fr, Kzg> as Canonical>::encoding(p.model());
            let w = p.evaluations.wire_evals;
            let s = p.evaluations.perm_evals;
            let l = p.evaluations.lookup_evals;
            let commitments = seq![
                p.a_comm,
                p.b_comm,
                p.c_comm,
                p.d_comm,
                p.z_comm,
                p.f_comm,
                p.h_1_comm,
                p.h_2_comm,
                p.z_2_comm,
                p.t_1_comm,
                p.t_2_comm,
                p.t_3_comm,
                p.t_4_comm,
            ];
            let evaluations = seq![
                w.a_eval,
                w.b_eval,
                w.c_eval,
                w.d_eval,
                s.left_sigma_eval,
                s.right_sigma_eval,
                s.out_sigma_eval,
                s.permutation_eval,
                l.q_lookup_eval,
                l.z2_next_eval,
                l.h1_eval,
                l.h1_next_eval,
                l.h2_eval,
                l.f_eval,
                l.table_eval,
                l.table_next_eval,
            ];
            &&& bytes.len() >= 1136
            &&& 0 <= i < 13 ==> bytes.subrange(48 * i, 48 * i + 48) == g1_encoding(
                commitments[i].coordinates(),
            )
            &&& 0 <= j < 16 ==> bytes.subrange(624 + 32 * j, 624 + 32 * j + 32) == le_bytes(
                evaluations[j].int_value(),
                32,
            )
            &&& bytes.skip(1136) == <Vec<(String, Fr)> as Canonical>::encoding(
                p.evaluations.custom_evals.vals.model(),
            ) + <Vec<Opening> as Canonical>::encoding(p.batch_opening.model())
        }),
{
    let m = p.model();
    let bytes = <Proof<Fr, Kzg> as Canonical>::encoding(m);
    let first = all_encodings::<G1>(m.commitments);
    let second = all_encodings::<Fr>(m.evaluations);
    let third = <Vec<(String, Fr)> as Canonical>::encoding(p.evaluations.custom_evals.vals.model());
    let fourth = <Vec<Opening> as Canonical>::encoding(p.batch_opening.model());
    assert forall|k: int| 0 <= k < 13 implies G1::encoding(
        #[trigger] m.commitments[k],
    ).len() == 48 by {}
    assert forall|k: int| 0 <= k < 16 implies Fr::encoding(#[trigger] m.evaluations[k]).len()
        == 32 by {}
    lemma_places::<G1>(m.commitments, 48, 0);
    lemma_places::<Fr>(m.evaluations, 32, 0);
    assert(first.len() == 48 * 13 && second.len() == 32 * 16);
    assert(bytes == first + (second + (third + fourth)));
    assert(bytes.skip(1136) =~= third + fourth);
    if 0 <= i < 13 {
        lemma_places::<G1>(m.commitments, 48, i);
        assert(bytes.subrange(48 * i, 48 * i + 48) =~= first.subrange(48 * i, 48 * i + 48));
    }
    if 0 <= j < 16 {
        lemma_places::<Fr>(m.evaluations, 32, j);
        assert(bytes.subrange(624 + 32 * j, 624 + 32 * j + 32) =~= second.subrange(
            32 * j,
            32 * j + 32,
        ));
    }
}

/// Where values of the same size stand, one after another.
proof fn lemma_places<T: Canonical>(m: Seq<T::Model>, size: nat, i: int)
    requires
        forall|k: int| 0 <= k < m.len() ==> T::encoding(#[trigger] m[k]).len() == size,
        0 <= i < m.len(),
    ensures
        all_encodings::<T>(m).len() == size * m.len(),
        0 <= size * i && size * i + size <= size * m.len(),
        all_encodings::<T>(m).subrange(size * i, size * i + size) == T::encoding(m[i]),
    decreases m.len(),
{
    let rest = m.drop_first();
    let head = T::encoding(m[0]);
    let tail = all_encodings::<T>(rest);
    let all = all_encodings::<T>(m);
    assert forall|k: int| 0 <= k < rest.len() implies T::encoding(#[trigger] rest[k]).len()
        == size by {
        assert(rest[k] == m[k + 1]);
    }
    assert(all == head + tail);
    let k = rest.len() as int;
    assert(size * (k + 1) == size + size * k) by (nonlinear_arith);
    if k == 0 {
        assert(size * 0 == 0);
        assert(tail =~= Seq::<u8>::empty());
        assert(all.subrange(0, size as int) =~= head);
    } else {
        let before = if i == 0 {
            0
        } else {
            i - 1
        };
        lemma_places::<T>(rest, size, before);
        if i == 0 {
            assert(size * 0 == 0);
            assert(0 <= size * k) by (nonlinear_arith)
                requires
                    k >= 0,
                    size >= 0,
            ;
            assert(all.subrange(0, size as int) =~= head);
        } else {
            assert(size * i == size + size * (i - 1)) by (nonlinear_arith);
            assert(all.subrange(size * i, size * i + size) =~= tail.subrange(
                size * (i - 1),
                size * (i - 1) + size,
            ));
            assert(rest[i - 1] == m[i]);
        }
    }
}

/// An opening is written as its commitment and the value of the random polynomial: in 49
/// bytes where there is none, and in 81 where there is one.
pub proof fn lemma_openings_are_written(o: Opening)
    ensures
        <Opening as Canonical>::encoding(o.model()) == g1_encoding(o.w.coordinates()) + (
        match o.random_v {
            None => seq![0u8],
            Some(x) => seq![1u8] + le_bytes(x.int_value(), 32),
        }),
{
}

/// How a point is read: from 48 bytes that are its compressed encoding, and the point at
/// infinity from all bytes with its flag and a reduced first coordinate. The error is that of
/// too few bytes, that of two flags at once, that of a first coordinate which is not reduced,
/// or that of a point which does not exist or is not in the group.
pub proof fn lemma_points_are_read(
    bytes: Vec<u8>,
    start: usize,
    r: Result<(G1, usize), SerializationError>,
)
    requires
        call_ensures(<G1 as Canonical>::deserialize, (&bytes, start), r),
        start <= bytes.len(),
    ensures
        start + 48 > bytes.len() <==> r == Err::<(G1, usize), SerializationError>(
            SerializationError::IoError(IoErrorKind::UnexpectedEof),
        ),
        start + 48 <= bytes.len() ==> ({
            let taken = bytes@.subrange(start as int, start + 48);
            let flags = taken[47];
            let abscissa = le_value(taken) % pow(2, 382);
            if flags >= 0xc0 {
                r == Err::<(G1, usize), SerializationError>(SerializationError::UnexpectedFlags)
            } else if abscissa >= fq_modulus() {
                r == Err::<(G1, usize), SerializationError>(
                    SerializationError::IoError(IoErrorKind::Other),
                )
            } else if flags >= 0x40 && flags < 0x80 {
                r matches Ok((point, end)) && point.coordinates() == (0int, 1int, true) && end
                    == start + 48
            } else {
                match r {
                    Ok((point, end)) => taken == g1_encoding(point.coordinates()) && g1_multiple(
                        point.exponent(),
                    ) == point.coordinates() && end == start + 48,
                    Err(e) => e == SerializationError::InvalidData && forall|point: Coordinates|
                        #[trigger]
                        is_in_subgroup(point) ==> g1_encoding(point) != taken,
                }
            }
        }),
{
    let rest = bytes@.skip(start as int);
    if start + 48 <= bytes.len() {
        assert(rest.take(48) =~= bytes@.subrange(start as int, start + 48));
    }
}

/// What stands before a value that may be missing, and what is read then: nothing for a zero,
/// the value for a one, and an error for all other bytes or for no byte.
pub proof fn lemma_optional_values_are_read<T: Canonical>(
    bytes: Vec<u8>,
    start: usize,
    r: Result<(Option<T>, usize), SerializationError>,
)
    requires
        call_ensures(<Option<T> as Canonical>::deserialize, (&bytes, start), r),
        start <= bytes.len(),
    ensures
        start == bytes.len() ==> r == Err::<(Option<T>, usize), SerializationError>(
            SerializationError::IoError(IoErrorKind::UnexpectedEof),
        ),
        start < bytes.len() && bytes@[start as int] > 1 ==> r == Err::<
            (Option<T>, usize),
            SerializationError,
        >(SerializationError::InvalidData),
        start < bytes.len() && bytes@[start as int] == 0 ==> (r matches Ok((v, end)) && v is None
            && end == start + 1),
        start < bytes.len() && bytes@[start as int] == 1 ==> match T::decoding(
            bytes@.skip(start + 1),
        ) {
            Ok((m, len)) => r matches Ok((v, end)) && (v matches Some(x) && x.model() == m) && end
                == start + 1 + len,
            Err(e) => r matches Err(f) && f == e,
        },
{
    let rest = bytes@.skip(start as int);
    if start < bytes.len() {
        assert(rest[0] == bytes@[start as int]);
        assert(rest.skip(1) =~= bytes@.skip(start + 1));
    }
}

/// How a string is read: from its length in eight bytes, the lowest first, and as many bytes
/// after them, if these are those of a text in UTF-8.
pub proof fn lemma_strings_are_read(
    bytes: Vec<u8>,
    start: usize,
    r: Result<(String, usize), SerializationError>,
)
    requires
        call_ensures(<String as Canonical>::deserialize, (&bytes, start), r),
        start <= bytes.len(),
    ensures
        ({
            let count = le_value(bytes@.subrange(start as int, start + 8));
            if start + 8 > bytes.len() || start + 8 + count > bytes.len() {
                r == Err::<(String, usize), SerializationError>(
                    SerializationError::IoError(IoErrorKind::UnexpectedEof),
                )
            } else {
                let text = bytes@.subrange(start + 8, start + 8 + count);
                match r {
                    Ok((s, end)) => encode_utf8(s@) == text && end == start + 8 + count,
                    Err(e) => e == SerializationError::InvalidData && !valid_utf8(text),
                }
            }
        }),
{
    let rest = bytes@.skip(start as int);
    if start + 8 <= bytes.len() {
        assert(rest.take(8) =~= bytes@.subrange(start as int, start + 8));
        let count = le_value(rest.take(8));
        lemma_le_value_range(rest.take(8));
        if start + 8 + count <= bytes.len() {
            let text = bytes@.subrange(start + 8, start + 8 + count);
            assert(rest.skip(8).take(count) =~= text);
            if valid_utf8(text) {
                decode_utf8_encode_utf8(text);
            }
        }
    }
}

/// Where several values are read, the first one that cannot be read decides about the error.
pub proof fn lemma_first_error_counts<T: Canonical>(
    read: Seq<T::Model>,
    rest: Seq<u8>,
    count: nat,
    e: SerializationError,
)
    requires
        forall|i: int| 0 <= i < read.len() ==> T::is_valid(#[trigger] read[i]),
        read.len() < count,
        T::decoding(rest) == Decoded::<T::Model>::Err(e),
    ensures
        decode_all::<T>(all_encodings::<T>(read) + rest, count) == Decoded::<Seq<T::Model>>::Err(e),
    decreases read.len(),
{
    let bytes = all_encodings::<T>(read) + rest;
    if read.len() == 0 {
        assert(bytes =~= rest);
    } else {
        let first = T::encoding(read[0]);
        let others = all_encodings::<T>(read.drop_first());
        T::lemma_round_trip(read[0], others + rest);
        assert(bytes =~= first + (others + rest));
        assert((first + (others + rest)).skip(first.len() as int) =~= others + rest);
        assert forall|i: int| 0 <= i < read.drop_first().len() implies T::is_valid(
            #[trigger] read.drop_first()[i],
        ) by {
            assert(read.drop_first()[i] == read[i + 1]);
        }
        lemma_first_error_counts::<T>(read.drop_first(), rest, (count - 1) as nat, e);
    }
}

/// A proof whose first commitments can be read and whose next one cannot is refused with the
/// error of that one.
pub proof fn lemma_broken_commitments<F: PrimeField + Canonical, PC: HomomorphicCommitment<F>>(
    read: Seq<<PC::Commitment as Canonical>::Model>,
    bytes: Vec<u8>,
    start: usize,
    rest: Seq<u8>,
    e: SerializationError,
    r: Result<(Proof<F, PC>, usize), SerializationError>,
) where PC::Commitment: Canonical, PC::BatchProof: Canonical
    requires
        call_ensures(<Proof<F, PC> as Canonical>::deserialize, (&bytes, start), r),
        start <= bytes.len(),
        read.len() < 13,
        forall|i: int| 0 <= i < read.len() ==> PC::Commitment::is_valid(#[trigger] read[i]),
        bytes@.skip(start as int) == all_encodings::<PC::Commitment>(read) + rest,
        PC::Commitment::decoding(rest) == Decoded::<<PC::Commitment as Canonical>::Model>::Err(e),
    ensures
        r == Err::<(Proof<F, PC>, usize), SerializationError>(e),
{
    lemma_first_error_counts::<PC::Commitment>(read, rest, 13, e);
}

} // verus!
