//! Field elements and evaluation domains.
use plonk_core::bls12_381::Fr;
use plonk_core::domain::{trailing_zeros, GeneralEvaluationDomain};
use plonk_core::field::PrimeField;

const MODULUS: [u64; 4] =
    [0xffffffff00000001, 0x53bda402fffe5bfe, 0x3339d80809a1d805, 0x73eda753299d7d48];

fn minus_one() -> [u64; 4] {
    [MODULUS[0] - 1, MODULUS[1], MODULUS[2], MODULUS[3]]
}

#[test]
fn sums_wrap_at_the_modulus() {
    let two = Fr::from_u64(2);
    assert_eq!(two.plus(Fr::from_u64(3)).to_limbs(), [5, 0, 0, 0]);
    let last = Fr::from_limbs(minus_one()).unwrap();
    assert_eq!(last.plus(two).to_limbs(), [1, 0, 0, 0]);
}

#[test]
fn differences_wrap_at_zero() {
    assert_eq!(Fr::from_u64(7).minus(Fr::from_u64(5)).to_limbs(), [2, 0, 0, 0]);
    assert_eq!(Fr::from_u64(4).minus(Fr::from_u64(5)).to_limbs(), minus_one());
}

#[test]
fn products_and_squares() {
    let big = Fr::from_u64(u64::MAX);
    assert_eq!(big.times(big).to_limbs(), [1, u64::MAX - 1, 0, 0]);
    assert_eq!(big.square().to_limbs(), [1, u64::MAX - 1, 0, 0]);
    let last = Fr::from_limbs(minus_one()).unwrap();
    assert_eq!(last.times(last).to_limbs(), [1, 0, 0, 0]);
}

#[test]
fn negation_of_zero_and_of_others() {
    assert_eq!(Fr::zero().negate().to_limbs(), [0, 0, 0, 0]);
    assert_eq!(Fr::one().negate().to_limbs(), minus_one());
}

#[test]
fn only_zero_has_no_inverse() {
    assert!(Fr::zero().inverse().is_none());
    let inverse = Fr::from_u64(7).inverse().unwrap();
    assert_eq!(inverse.times(Fr::from_u64(7)).to_limbs(), [1, 0, 0, 0]);
    assert_ne!(inverse.to_limbs(), [7, 0, 0, 0]);
}

#[test]
fn powers() {
    let three = Fr::from_u64(3);
    assert_eq!(three.power(0).to_limbs(), [1, 0, 0, 0]);
    assert_eq!(three.power(5).to_limbs(), [243, 0, 0, 0]);
    assert_eq!(Fr::from_u64(2).power(64).to_limbs(), [0, 1, 0, 0]);
}

#[test]
fn batch_inversion_leaves_zeros() {
    let mut elements = vec![Fr::from_u64(3), Fr::zero(), Fr::from_u64(11)];
    Fr::batch_inversion(&mut elements);
    assert_eq!(elements.len(), 3);
    assert_eq!(elements[0].times(Fr::from_u64(3)).to_limbs(), [1, 0, 0, 0]);
    assert_eq!(elements[1].to_limbs(), [0, 0, 0, 0]);
    assert_eq!(elements[2].times(Fr::from_u64(11)).to_limbs(), [1, 0, 0, 0]);
}

#[test]
fn bytes_are_little_endian() {
    let bytes = Fr::from_u64(0x0102030405060708).to_bytes();
    assert_eq!(bytes.len(), 32);
    assert_eq!(&bytes[..8], &[8, 7, 6, 5, 4, 3, 2, 1]);
    assert!(bytes[8..].iter().all(|b| *b == 0));
    let last = Fr::from_limbs(minus_one()).unwrap().to_bytes();
    assert_eq!(last[0], 0);
    assert_eq!(last[31], 0x73);
}

#[test]
fn limbs_have_to_be_reduced() {
    assert!(Fr::from_limbs(MODULUS).is_none());
    assert!(Fr::from_limbs([0, 0, 0, u64::MAX]).is_none());
    assert!(Fr::from_limbs(minus_one()).is_some());
    assert!(Fr::from_limbs([u64::MAX, u64::MAX, u64::MAX, MODULUS[3] - 1]).is_some());
}

#[test]
fn equality_is_by_value() {
    assert!(Fr::from_u64(9).equals(&Fr::from_u64(4).plus(Fr::from_u64(5))));
    assert!(!Fr::from_u64(9).equals(&Fr::from_limbs([9, 0, 0, 1]).unwrap()));
}

#[test]
fn domains_take_the_next_power_of_two() {
    for (num_coeffs, size) in [(0, 1), (1, 1), (2, 2), (3, 4), (4, 4), (5, 8), (1000, 1024)] {
        let domain = GeneralEvaluationDomain::<Fr>::new(num_coeffs).unwrap();
        assert_eq!(domain.size, size);
        let n = Fr::from_u64(size);
        assert_eq!(domain.size_inv.times(n).to_limbs(), [1, 0, 0, 0]);
        let product = domain.group_gen.times(domain.group_gen_inv);
        assert_eq!(product.to_limbs(), [1, 0, 0, 0]);
    }
}

#[test]
fn generators_have_the_size_as_their_order() {
    let two = GeneralEvaluationDomain::<Fr>::new(2).unwrap();
    assert_eq!(two.group_gen.to_limbs(), minus_one());
    let domain = GeneralEvaluationDomain::<Fr>::new(16).unwrap();
    assert_eq!(domain.group_gen.power(16).to_limbs(), [1, 0, 0, 0]);
    assert_eq!(domain.group_gen.power(8).to_limbs(), minus_one());
    let largest = GeneralEvaluationDomain::<Fr>::new(1 << 32).unwrap();
    assert_eq!(
        largest.group_gen.to_limbs(),
        [0x3829971f439f0d2b, 0xb63683508c2280b9, 0xd09b681922c813b4, 0x16a2a19edfe81f20]
    );
}

#[test]
fn domains_end_at_the_two_adicity() {
    assert_eq!(Fr::two_adicity(), 32);
    assert!(GeneralEvaluationDomain::<Fr>::new(1 << 32).is_some());
    assert!(GeneralEvaluationDomain::<Fr>::new((1 << 32) + 1).is_none());
}

#[test]
fn vanishing_polynomial_and_elements() {
    let domain = GeneralEvaluationDomain::<Fr>::new(4).unwrap();
    let value = domain.evaluate_vanishing_polynomial(Fr::from_u64(3));
    assert_eq!(value.to_limbs(), [80, 0, 0, 0]);
    assert_eq!(domain.element(0).to_limbs(), [1, 0, 0, 0]);
    assert!(domain.element(1).equals(&domain.group_gen));
    for i in 0..4 {
        let at_element = domain.evaluate_vanishing_polynomial(domain.element(i));
        assert_eq!(at_element.to_limbs(), [0, 0, 0, 0]);
    }
}

#[test]
fn trailing_zeros_as_std_counts_them() {
    for n in [0usize, 1, 2, 3, 8, 12, 1 << 40, usize::MAX, 1 << 63] {
        assert_eq!(trailing_zeros(n), n.trailing_zeros());
    }
}
