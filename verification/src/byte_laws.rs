//! Which bytes stand for field elements and commitments in a transcript.
use vstd::arithmetic::power::{lemma_pow_positive, pow};
use vstd::prelude::*;

use crate::bls12_381::Fr;
use crate::commitment::{all_point_bytes, commitments_to_bytes, points, HomomorphicCommitment};
use crate::encoding::lemma_le_bytes_value;
use crate::evaluations::{all_le_bytes, elements_to_bytes};
use crate::field::{le_bytes, PrimeField};
use crate::g1::{g1_multiple, G1};
use crate::kzg::Kzg;
use crate::lagrange::values;

verus! {

/// The bytes of an integer are its digits in base 256, the lowest first.
pub proof fn lemma_digits(value: int, len: nat, i: int)
    requires
        0 <= value,
        0 <= i < len,
    ensures
        le_bytes(value, len).len() == len,
        le_bytes(value, len)[i] == (value / pow(256, i as nat)) % 256,
{
    lemma_pow_positive(256, i as nat);
}

/// Integers that fit into so many bytes are told apart by them.
pub proof fn lemma_digits_injective(a: int, b: int, len: nat)
    requires
        0 <= a < pow(256, len),
        0 <= b < pow(256, len),
        le_bytes(a, len) == le_bytes(b, len),
    ensures
        a == b,
{
    lemma_le_bytes_value(a, len);
    lemma_le_bytes_value(b, len);
}

/// There are `len` bytes for each value, where values are written one after another.
proof fn lemma_bytes_length(values: Seq<int>, len: nat)
    ensures
        all_le_bytes(values, len).len() == len * values.len(),
    decreases values.len(),
{
    let k = values.len() as int;
    if k == 0 {
        assert(len * 0 == 0);
    } else {
        lemma_bytes_length(values.drop_last(), len);
        assert(len * k == len * (k - 1) + len) by (nonlinear_arith);
    }
}

/// Where values are written one after another, each has its own `len` bytes, which are its
/// digits in base 256, and there are no others: digit `j` of value `i` stands at
/// `len * i + j`.
pub proof fn lemma_bytes_hold_every_value(values: Seq<int>, len: nat, i: int, j: int)
    requires
        0 <= i < values.len(),
        0 <= j < len,
        0 <= values[i],
    ensures
        all_le_bytes(values, len).len() == len * values.len(),
        0 <= len * i + j < len * values.len(),
        all_le_bytes(values, len)[len * i + j] == (values[i] / pow(256, j as nat)) % 256,
    decreases values.len(),
{
    let k = values.len() - 1;
    let shorter = values.drop_last();
    lemma_bytes_length(values, len);
    lemma_bytes_length(shorter, len);
    assert(len * (k + 1) == len * k + len) by (nonlinear_arith);
    assert(0 <= len * i) by (nonlinear_arith)
        requires
            i >= 0,
            len >= 0,
    ;
    if i < k {
        assert(len * i + len <= len * k) by (nonlinear_arith)
            requires
                i + 1 <= k,
                len >= 0,
        ;
        lemma_bytes_hold_every_value(shorter, len, i, j);
    } else {
        lemma_digits(values[i], len, j);
    }
}

/// Lists of values that fit into so many bytes are told apart by what is written for them.
pub proof fn lemma_bytes_tell_values_apart(a: Seq<int>, b: Seq<int>, len: nat)
    requires
        len > 0,
        forall|i: int| 0 <= i < a.len() ==> 0 <= #[trigger] a[i] < pow(256, len),
        forall|i: int| 0 <= i < b.len() ==> 0 <= #[trigger] b[i] < pow(256, len),
        all_le_bytes(a, len) == all_le_bytes(b, len),
    ensures
        a == b,
{
    lemma_bytes_length(a, len);
    lemma_bytes_length(b, len);
    assert(a.len() == b.len()) by (nonlinear_arith)
        requires
            len * a.len() == len * b.len(),
            len > 0,
    ;
    assert forall|i: int| 0 <= i < a.len() implies a[i] == b[i] by {
        let x = le_bytes(a[i], len);
        let y = le_bytes(b[i], len);
        assert forall|j: int| 0 <= j < len implies x[j] == y[j] by {
            lemma_digits(a[i], len, j);
            lemma_digits(b[i], len, j);
            lemma_bytes_hold_every_value(a, len, i, j);
            lemma_bytes_hold_every_value(b, len, i, j);
        }
        assert(x =~= y);
        lemma_digits_injective(a[i], b[i], len);
    }
    assert(a =~= b);
}

/// What [`elements_to_bytes`] writes holds every element: byte `j` of element `i` is the
/// `j`-th digit of its value in base 256, and stands at `byte_len * i + j`.
pub proof fn lemma_element_bytes<F: PrimeField>(elements: Vec<F>, r: Vec<u8>, i: int, j: int)
    requires
        call_ensures(elements_to_bytes::<F>, (&elements,), r),
    ensures
        r@.len() == F::byte_len() * elements@.len(),
        0 <= i < elements@.len() && 0 <= j < F::byte_len() ==> 0 <= F::byte_len() * i + j
            < r@.len() && r@[F::byte_len() * i + j] == (elements@[i].value() / pow(256, j as nat))
            % 256,
{
    let all = values(elements@);
    lemma_bytes_length(all, F::byte_len());
    if 0 <= i < elements@.len() && 0 <= j < F::byte_len() {
        F::lemma_value_range(elements@[i]);
        lemma_bytes_hold_every_value(all, F::byte_len(), i, j);
    }
}

/// Lists of field elements are told apart by what [`elements_to_bytes`] writes.
pub proof fn lemma_elements_are_told_apart<F: PrimeField>(
    a: Vec<F>,
    b: Vec<F>,
    r: Vec<u8>,
    s: Vec<u8>,
)
    requires
        call_ensures(elements_to_bytes::<F>, (&a,), r),
        call_ensures(elements_to_bytes::<F>, (&b,), s),
        r@ == s@,
    ensures
        a@.len() == b@.len(),
        forall|i: int|
            #![trigger a@[i]]
            0 <= i < a@.len() ==> a@[i].value() == b@[i].value(),
{
    lemma_values_fit(a@);
    lemma_values_fit(b@);
    lemma_bytes_tell_values_apart(values(a@), values(b@), F::byte_len());
    assert(values(a@).len() == a@.len() && values(b@).len() == b@.len());
    assert forall|i: int|
        #![trigger a@[i]]
        0 <= i < a@.len() implies a@[i].value() == b@[i].value() by {
        assert(values(a@)[i] == a@[i].value());
        assert(values(b@)[i] == b@[i].value());
    }
}

proof fn lemma_values_fit<F: PrimeField>(elements: Seq<F>)
    ensures
        F::byte_len() > 0,
        forall|i: int|
            0 <= i < elements.len() ==> 0 <= #[trigger] values(elements)[i] < pow(
                256,
                F::byte_len(),
            ),
{
    F::lemma_byte_len();
    assert forall|i: int| 0 <= i < elements.len() implies 0 <= #[trigger] values(elements)[i]
        < pow(256, F::byte_len()) by {
        F::lemma_value_range(elements[i]);
    }
}

/// An element of the scalar field takes 32 bytes, so that the bytes of the `i`-th element
/// start at `32 * i`.
pub proof fn lemma_scalar_bytes(elements: Vec<Fr>, r: Vec<u8>, i: int, j: int)
    requires
        call_ensures(elements_to_bytes::<Fr>, (&elements,), r),
    ensures
        r@.len() == 32 * elements@.len(),
        0 <= i < elements@.len() && 0 <= j < 32 ==> r@[32 * i + j] == (elements@[i].int_value()
            / pow(256, j as nat)) % 256,
{
    lemma_element_bytes(elements, r, i, j);
}

/// The bytes of several points are those of the first ones, followed by those of the others,
/// and one point is written by itself.
pub proof fn lemma_point_bytes_follow<F: PrimeField, PC: HomomorphicCommitment<F>>(
    a: Seq<PC::Point>,
    b: Seq<PC::Point>,
    point: PC::Point,
)
    ensures
        all_point_bytes::<F, PC>(Seq::<PC::Point>::empty()) == Seq::<u8>::empty(),
        all_point_bytes::<F, PC>(seq![point]) == PC::point_bytes(point),
        all_point_bytes::<F, PC>(a + b) == all_point_bytes::<F, PC>(a) + all_point_bytes::<F, PC>(
            b,
        ),
    decreases b.len(),
{
    let one = seq![point];
    assert(one.drop_last() =~= Seq::<PC::Point>::empty());
    assert(all_point_bytes::<F, PC>(one.drop_last()) =~= Seq::<u8>::empty());
    assert(all_point_bytes::<F, PC>(one) =~= PC::point_bytes(point));
    if b.len() == 0 {
        assert(a + b =~= a);
        assert(all_point_bytes::<F, PC>(a) + all_point_bytes::<F, PC>(b) =~= all_point_bytes::<
            F,
            PC,
        >(a));
    } else {
        lemma_point_bytes_follow::<F, PC>(a, b.drop_last(), point);
        assert((a + b).drop_last() =~= a + b.drop_last());
        assert(all_point_bytes::<F, PC>(a + b) =~= all_point_bytes::<F, PC>(a)
            + all_point_bytes::<F, PC>(b));
    }
}

proof fn lemma_points_length<F: PrimeField, PC: HomomorphicCommitment<F>>(
    all: Seq<PC::Point>,
    size: nat,
)
    requires
        forall|i: int| 0 <= i < all.len() ==> PC::point_bytes(#[trigger] all[i]).len() == size,
    ensures
        all_point_bytes::<F, PC>(all).len() == size * all.len(),
    decreases all.len(),
{
    let k = all.len() as int;
    if k == 0 {
        assert(size * 0 == 0);
    } else {
        let shorter = all.drop_last();
        assert forall|i: int| 0 <= i < shorter.len() implies PC::point_bytes(
            #[trigger] shorter[i],
        ).len() == size by {
            assert(shorter[i] == all[i]);
        }
        lemma_points_length::<F, PC>(shorter, size);
        assert(PC::point_bytes(all[k - 1]).len() == size);
        assert(size * k == size * (k - 1) + size) by (nonlinear_arith);
    }
}

/// Where `size` bytes stand for every point, those of the `i`-th one start at `size * i`, and
/// there are no others.
pub proof fn lemma_bytes_hold_every_point<F: PrimeField, PC: HomomorphicCommitment<F>>(
    all: Seq<PC::Point>,
    size: nat,
    i: int,
)
    requires
        forall|k: int| 0 <= k < all.len() ==> PC::point_bytes(#[trigger] all[k]).len() == size,
        0 <= i < all.len(),
    ensures
        all_point_bytes::<F, PC>(all).len() == size * all.len(),
        0 <= size * i && size * i + size <= size * all.len(),
        all_point_bytes::<F, PC>(all).subrange(size * i, size * i + size) == PC::point_bytes(
            all[i],
        ),
    decreases all.len(),
{
    let k = all.len() - 1;
    let shorter = all.drop_last();
    assert forall|m: int| 0 <= m < shorter.len() implies PC::point_bytes(
        #[trigger] shorter[m],
    ).len() == size by {
        assert(shorter[m] == all[m]);
    }
    lemma_points_length::<F, PC>(all, size);
    lemma_points_length::<F, PC>(shorter, size);
    assert(size * (k + 1) == size * k + size) by (nonlinear_arith);
    assert(0 <= size * i) by (nonlinear_arith)
        requires
            i >= 0,
            size >= 0,
    ;
    let before = all_point_bytes::<F, PC>(shorter);
    let bytes = all_point_bytes::<F, PC>(all);
    assert(PC::point_bytes(all[k]).len() == size);
    assert(bytes == before + PC::point_bytes(all[k]));
    if i < k {
        lemma_bytes_hold_every_point::<F, PC>(shorter, size, i);
        assert(bytes.subrange(size * i, size * i + size) =~= before.subrange(
            size * i,
            size * i + size,
        ));
    } else {
        assert(bytes.subrange(size * i, size * i + size) =~= PC::point_bytes(all[i]));
    }
}

/// A point over KZG takes 97 bytes in a transcript, and [`commitments_to_bytes`] writes all
/// of them: the `i`-th one stands at `97 * i`, as its coordinates in 48 bytes each and a byte
/// that is one for the point at infinity alone.
pub proof fn lemma_commitment_bytes(commitments: Vec<G1>, r: Vec<u8>, i: int)
    requires
        call_ensures(commitments_to_bytes::<Fr, Kzg>, (&commitments,), r),
    ensures
        r@.len() == 97 * commitments@.len(),
        0 <= i < commitments@.len() ==> ({
            let coordinates = g1_multiple(commitments@[i].exponent());
            let bytes = r@.subrange(97 * i, 97 * i + 97);
            &&& bytes.take(48) == le_bytes(coordinates.0, 48)
            &&& bytes.subrange(48, 96) == le_bytes(coordinates.1, 48)
            &&& bytes[96] == (if coordinates.2 {
                1u8
            } else {
                0u8
            })
        }),
{
    let all = points::<Fr, Kzg>(commitments@);
    assert forall|k: int| 0 <= k < all.len() implies Kzg::point_bytes(#[trigger] all[k]).len()
        == 97 by {}
    lemma_points_length::<Fr, Kzg>(all, 97);
    if 0 <= i < commitments@.len() {
        let coordinates = g1_multiple(commitments@[i].exponent());
        let bytes = r@.subrange(97 * i, 97 * i + 97);
        lemma_bytes_hold_every_point::<Fr, Kzg>(all, 97, i);
        assert(all[i] == commitments@[i].exponent());
        assert(bytes.take(48) =~= le_bytes(coordinates.0, 48));
        assert(bytes.subrange(48, 96) =~= le_bytes(coordinates.1, 48));
    }
}

} // verus!
