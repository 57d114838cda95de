//! The canonical encoding.
use ark_bls12_381::{Fr as ArkFr, G1Affine};
use ark_ec::{AffineCurve, ProjectiveCurve};
use ark_ff::Zero;
use ark_serialize::{
    CanonicalDeserialize, CanonicalSerialize, SerializationError as ArkSerializationError,
};
use plonk_core::bls12_381::Fr;
use plonk_core::encoding::{Canonical, IoErrorKind, SerializationError};
use plonk_core::field::PrimeField;
use plonk_core::g1::G1;
use plonk_core::kzg::Opening;

fn written<T: Canonical>(value: &T) -> Vec<u8> {
    let mut bytes = vec![];
    value.serialize(&mut bytes);
    bytes
}

fn ark_written<T: CanonicalSerialize>(value: &T) -> Vec<u8> {
    let mut bytes = vec![];
    value.serialize(&mut bytes).unwrap();
    bytes
}

const TOO_SHORT: SerializationError = SerializationError::IoError(IoErrorKind::UnexpectedEof);
const NOT_REDUCED: SerializationError = SerializationError::IoError(IoErrorKind::Other);

/// The error of reading `T` from the bytes, if there is one.
fn refusal<T: Canonical>(bytes: &[u8]) -> Option<SerializationError> {
    T::deserialize(&bytes.to_vec(), 0).err()
}

/// The error that arkworks gives for the same bytes.
fn ark_refusal<T: CanonicalDeserialize>(bytes: &[u8]) -> Option<SerializationError> {
    match T::deserialize(bytes).err()? {
        ArkSerializationError::NotEnoughSpace => Some(SerializationError::NotEnoughSpace),
        ArkSerializationError::InvalidData => Some(SerializationError::InvalidData),
        ArkSerializationError::UnexpectedFlags => Some(SerializationError::UnexpectedFlags),
        ArkSerializationError::IoError(e) => match e.kind() {
            std::io::ErrorKind::UnexpectedEof => Some(TOO_SHORT),
            std::io::ErrorKind::Other => Some(NOT_REDUCED),
            kind => panic!("{:?}", kind),
        },
    }
}

fn generator() -> G1Affine {
    G1Affine::prime_subgroup_generator()
}

fn g1(point: &G1Affine) -> G1 {
    G1::decode(&ark_written(point)).unwrap()
}

#[test]
fn field_elements_are_written_as_32_bytes() {
    let bytes = written(&Fr::from_u64(258));
    assert_eq!(bytes, ark_written(&ArkFr::from(258u64)));
    assert_eq!(bytes.len(), 32);
    let (read, end) = Fr::deserialize(&bytes, 0).unwrap();
    assert_eq!(read.to_limbs(), [258, 0, 0, 0]);
    assert_eq!(end, 32);
}

#[test]
fn field_elements_have_to_be_reduced() {
    let mut bytes = written(&Fr::one().negate());
    bytes[0] += 1;
    assert_eq!(refusal::<Fr>(&bytes), Some(NOT_REDUCED));
    assert_eq!(refusal::<Fr>(&[0; 31]), Some(TOO_SHORT));
    assert_eq!(Fr::deserialize(&vec![0; 40], 9).err(), Some(TOO_SHORT));
}

#[test]
fn field_elements_have_no_flags() {
    assert_eq!(refusal::<Fr>(&[255; 32]), Some(SerializationError::UnexpectedFlags));
    let mut bytes = [0; 32];
    bytes[31] = 0x7f;
    assert_eq!(refusal::<Fr>(&bytes), Some(NOT_REDUCED));
    bytes[31] = 0x80;
    assert_eq!(refusal::<Fr>(&bytes), Some(SerializationError::UnexpectedFlags));
}

#[test]
fn errors_are_those_of_arkworks() {
    let mut reduced = written(&Fr::one().negate());
    assert_eq!(ark_refusal::<ArkFr>(&reduced), None);
    reduced[0] += 1;
    for bytes in [&reduced[..], &[255; 32], &[0x7f; 32], &[0; 32], &[0; 31], &[255; 31], &[]] {
        assert_eq!(refusal::<Fr>(bytes), ark_refusal::<ArkFr>(bytes));
    }
    // The modulus of the field of coordinates, in little-endian bytes.
    let modulus = [
        0xab, 0xaa, 0xff, 0xff, 0xff, 0xff, 0xfe, 0xb9, 0xff, 0xff, 0x53, 0xb1, 0xfe, 0xff, 0xab,
        0x1e, 0x24, 0xf6, 0xb0, 0xf6, 0xa0, 0xd2, 0x30, 0x67, 0xbf, 0x12, 0x85, 0xf3, 0x84, 0x4b,
        0x77, 0x64, 0xd7, 0xac, 0x4b, 0x43, 0xb6, 0xa7, 0x1b, 0x4b, 0x9a, 0xe6, 0x7f, 0x39, 0xea,
        0x11, 0x01, 0x1a,
    ];
    let mut below = modulus;
    below[0] -= 1;
    for first in [modulus, below, [0; 48], [1; 48], [0x1f; 48]] {
        for flags in [0, 0x20, 0x40, 0x60, 0x80, 0xa0, 0xc0, 0xe0] {
            let mut bytes = first;
            bytes[47] |= flags;
            assert_eq!(refusal::<G1>(&bytes), ark_refusal::<G1Affine>(&bytes));
        }
    }
    for bytes in [&[0; 47][..], &[255; 47], &[]] {
        assert_eq!(refusal::<G1>(bytes), ark_refusal::<G1Affine>(bytes));
    }
    for bytes in [&[2][..], &[2, 255], &[1], &[1, 255], &[1; 33], &[0], &[]] {
        assert_eq!(refusal::<Option<Fr>>(bytes), ark_refusal::<Option<ArkFr>>(bytes));
    }
    for bytes in [&[2, 0, 0, 0, 0, 0, 0, 0, 255, 255][..], &[2, 0, 0, 0, 0, 0, 0, 0, 255], &[2]] {
        assert_eq!(refusal::<String>(bytes), ark_refusal::<String>(bytes));
        assert_eq!(
            refusal::<Vec<(String, Fr)>>(bytes),
            ark_refusal::<Vec<(String, ArkFr)>>(bytes)
        );
    }
}

#[test]
fn strings_are_written_in_utf8() {
    let text = String::from("a_next_\u{e9}val");
    let bytes = written(&text);
    assert_eq!(bytes, ark_written(&text));
    let (read, end) = <String as Canonical>::deserialize(&bytes, 0).unwrap();
    assert_eq!(read, text);
    assert_eq!(end, bytes.len());
}

#[test]
fn strings_have_to_be_utf8() {
    let bytes = vec![2, 0, 0, 0, 0, 0, 0, 0, 0xff, 0xff];
    assert_eq!(refusal::<String>(&bytes), Some(SerializationError::InvalidData));
    let short = vec![3, 0, 0, 0, 0, 0, 0, 0, b'a', b'b'];
    assert_eq!(refusal::<String>(&short), Some(TOO_SHORT));
    let huge = [255; 8];
    assert_eq!(refusal::<String>(&huge), Some(TOO_SHORT));
}

#[test]
fn lists_start_with_their_length() {
    let list = vec![
        (String::from("a_next_eval"), Fr::from_u64(1)),
        (String::from("b_next_eval"), Fr::from_u64(2)),
    ];
    let bytes = written(&list);
    let expected = vec![
        (String::from("a_next_eval"), ArkFr::from(1u64)),
        (String::from("b_next_eval"), ArkFr::from(2u64)),
    ];
    assert_eq!(bytes, ark_written(&expected));
    let (read, end) = Vec::<(String, Fr)>::deserialize(&bytes, 0).unwrap();
    assert_eq!(end, bytes.len());
    assert_eq!(read.len(), 2);
    assert_eq!(read[1].0, "b_next_eval");
    assert_eq!(read[1].1.to_limbs(), [2, 0, 0, 0]);
    let cut = bytes[..bytes.len() - 1].to_vec();
    assert_eq!(
        Vec::<(String, Fr)>::deserialize(&cut, 0).err(),
        Some(TOO_SHORT)
    );
}

#[test]
fn options_start_with_a_flag() {
    let some = Some(Fr::from_u64(9));
    assert_eq!(written(&some), ark_written(&Some(ArkFr::from(9u64))));
    let none: Option<Fr> = None;
    assert_eq!(written(&none), vec![0]);
    let (read, end) = Option::<Fr>::deserialize(&written(&some), 0).unwrap();
    assert_eq!(read.unwrap().to_limbs(), [9, 0, 0, 0]);
    assert_eq!(end, 33);
    assert_eq!(
        Option::<Fr>::deserialize(&vec![2], 0).err(),
        Some(SerializationError::InvalidData)
    );
    assert_eq!(
        Option::<Fr>::deserialize(&vec![], 0).err(),
        Some(TOO_SHORT)
    );
}

#[test]
fn points_are_written_compressed() {
    let double: G1Affine = generator().into_projective().double().into_affine();
    for point in [generator(), -generator(), double, G1Affine::zero()] {
        let expected = ark_written(&point);
        let bytes = written(&g1(&point));
        assert_eq!(bytes, expected);
        assert_eq!(bytes.len(), 48);
        let (read, end) = G1::deserialize(&bytes, 0).unwrap();
        assert_eq!(written(&read), expected);
        assert_eq!(end, 48);
    }
    assert_ne!(written(&g1(&generator())), written(&g1(&-generator())));
    assert_eq!(written(&g1(&G1Affine::zero()))[47], 0x40);
}

#[test]
fn points_have_to_be_in_the_group() {
    assert_eq!(G1::decode(&vec![0xff; 48]).err(), Some(SerializationError::UnexpectedFlags));
    assert_eq!(G1::decode(&vec![0x3f; 48]).err(), Some(NOT_REDUCED));
    // On the curve, but not in the subgroup: x = 0 gives y = 2.
    assert_eq!(G1::decode(&vec![0; 48]).err(), Some(SerializationError::InvalidData));
    assert_eq!(refusal::<G1>(&[0; 48]), Some(SerializationError::InvalidData));
    assert_eq!(refusal::<G1>(&[0; 47]), Some(TOO_SHORT));
}

#[test]
fn infinity_is_read_by_its_flag_alone() {
    let mut bytes = vec![0; 48];
    bytes[0] = 1;
    bytes[47] = 0x40;
    let read = G1::decode(&bytes).unwrap();
    assert_eq!(written(&read), ark_written(&G1Affine::zero()));
    bytes[47] = 0xc0;
    assert_eq!(G1::decode(&bytes).err(), Some(SerializationError::UnexpectedFlags));
    // Even then the first coordinate has to be reduced.
    bytes[47] = 0x7f;
    assert_eq!(G1::decode(&bytes).err(), Some(NOT_REDUCED));
}

#[test]
fn points_in_a_transcript_are_both_coordinates() {
    let zero = g1(&G1Affine::zero()).to_bytes();
    let mut expected = vec![0; 97];
    expected[48] = 1;
    expected[96] = 1;
    assert_eq!(zero, expected);
    let bytes = g1(&generator()).to_bytes();
    assert_eq!(bytes.len(), 97);
    assert_eq!(bytes[96], 0);
    assert_eq!(bytes[0], 0xbb);
}

#[test]
fn openings_are_a_point_and_an_option() {
    let opening = Opening { w: g1(&generator()), random_v: Some(Fr::from_u64(4)) };
    let bytes = written(&opening);
    let mut expected = ark_written(&generator());
    expected.extend(ark_written(&Some(ArkFr::from(4u64))));
    assert_eq!(bytes, expected);
    let (read, end) = Opening::deserialize(&bytes, 0).unwrap();
    assert_eq!(written(&read), bytes);
    assert_eq!(end, bytes.len());
}

#[test]
fn bytes_that_follow_are_ignored() {
    let mut bytes = vec![7, 7, 7];
    Fr::from_u64(5).serialize(&mut bytes);
    bytes.extend([9, 9]);
    let (read, end) = Fr::deserialize(&bytes, 3).unwrap();
    assert_eq!(read.to_limbs(), [5, 0, 0, 0]);
    assert_eq!(end, 35);
}

#[test]
fn combinations_of_points() {
    let double: G1Affine = generator().into_projective().double().into_affine();
    let points = vec![g1(&generator()), g1(&double)];
    let scalars = vec![Fr::from_u64(3), Fr::from_u64(5)];
    let sum = G1::multi_scalar_mul(&points, &scalars);
    let expected = generator().mul(ArkFr::from(13u64)).into_affine();
    assert_eq!(written(&sum), ark_written(&expected));
    let nothing = G1::multi_scalar_mul(&vec![], &vec![]);
    assert_eq!(written(&nothing), ark_written(&G1Affine::zero()));
}

#[test]
fn multiples_of_the_generator() {
    for k in [1u64, 2, 13] {
        let expected = generator().mul(ArkFr::from(k)).into_affine();
        assert_eq!(written(&G1::generator_multiple(Fr::from_u64(k))), ark_written(&expected));
    }
    assert_eq!(written(&G1::default()), ark_written(&G1Affine::zero()));
    assert_eq!(written(&G1::default()), ark_written(&G1Affine::default()));
}

#[test]
fn points_without_a_scalar_do_not_count() {
    let points = vec![g1(&generator()), g1(&generator())];
    let sum = G1::multi_scalar_mul(&points, &vec![Fr::from_u64(3)]);
    assert_eq!(written(&sum), written(&G1::generator_multiple(Fr::from_u64(3))));
    let scalars = vec![Fr::from_u64(3), Fr::zero()];
    let sum = G1::multi_scalar_mul(&points, &scalars);
    assert_eq!(written(&sum), written(&G1::generator_multiple(Fr::from_u64(3))));
}
