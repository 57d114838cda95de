//! Evaluation of polynomials that are given by their values on a domain.
use plonk_core::bls12_381::Fr;
use plonk_core::domain::GeneralEvaluationDomain;
use plonk_core::field::PrimeField;
use plonk_core::lagrange::{compute_barycentric_eval, compute_first_lagrange_evaluation};

fn fr(x: u64) -> Fr {
    Fr::from_u64(x)
}

fn evaluate(coefficients: &[Fr], x: Fr) -> Fr {
    coefficients.iter().rev().fold(Fr::zero(), |value, c| value.times(x).plus(*c))
}

fn first_lagrange(domain: &GeneralEvaluationDomain<Fr>, x: Fr) -> Fr {
    let z_h_eval = domain.evaluate_vanishing_polynomial(x);
    compute_first_lagrange_evaluation(domain, &z_h_eval, &x)
}

#[test]
fn first_lagrange_has_an_exact_value() {
    // (3^4 - 1) / (4 * (3 - 1)) = 10
    let domain = GeneralEvaluationDomain::<Fr>::new(4).unwrap();
    assert_eq!(first_lagrange(&domain, fr(3)).to_limbs(), [10, 0, 0, 0]);
}

#[test]
fn first_lagrange_is_the_product_over_the_other_elements() {
    let domain = GeneralEvaluationDomain::<Fr>::new(8).unwrap();
    let x = fr(12345);
    let mut product = Fr::one();
    for i in 1..8 {
        let omega_i = domain.element(i);
        let denominator = Fr::one().minus(omega_i).inverse().unwrap();
        product = product.times(x.minus(omega_i).times(denominator));
    }
    assert_eq!(first_lagrange(&domain, x).to_limbs(), product.to_limbs());
}

#[test]
fn products_over_the_other_elements() {
    let domain = GeneralEvaluationDomain::<Fr>::new(8).unwrap();
    let x = fr(5);
    let mut at_one = Fr::one();
    let mut at_x = Fr::one();
    for i in 1..8 {
        at_one = at_one.times(Fr::one().minus(domain.element(i)));
        at_x = at_x.times(x.minus(domain.element(i)));
    }
    assert_eq!(at_one.to_limbs(), [8, 0, 0, 0]);
    // (5^8 - 1) / (5 - 1)
    assert_eq!(at_x.to_limbs(), [97656, 0, 0, 0]);
}

#[test]
fn first_lagrange_vanishes_at_the_other_elements() {
    let domain = GeneralEvaluationDomain::<Fr>::new(8).unwrap();
    for i in 1..8 {
        assert_eq!(first_lagrange(&domain, domain.element(i)).to_limbs(), [0, 0, 0, 0]);
    }
}

#[test]
fn barycentric_evaluation_is_interpolation() {
    let domain = GeneralEvaluationDomain::<Fr>::new(8).unwrap();
    let coefficients: Vec<Fr> = [3, 0, 7, 1, 11, 0, 2, 5].iter().map(|c| fr(*c)).collect();
    let evaluations: Vec<Fr> =
        (0..8).map(|i| evaluate(&coefficients, domain.element(i))).collect();
    for x in [2, 3, 1000003] {
        let value = compute_barycentric_eval(&evaluations, fr(x), &domain);
        assert_eq!(value.to_limbs(), evaluate(&coefficients, fr(x)).to_limbs());
    }
}

#[test]
fn missing_evaluations_count_as_zero() {
    let domain = GeneralEvaluationDomain::<Fr>::new(4).unwrap();
    let short = vec![fr(5), fr(0), fr(9)];
    let padded = vec![fr(5), fr(0), fr(9), fr(0)];
    let x = fr(77);
    let value = compute_barycentric_eval(&short, x, &domain);
    assert_eq!(value.to_limbs(), compute_barycentric_eval(&padded, x, &domain).to_limbs());
    assert_ne!(value.to_limbs(), [0, 0, 0, 0]);
}

#[test]
fn no_evaluations_give_zero() {
    let domain = GeneralEvaluationDomain::<Fr>::new(4).unwrap();
    assert_eq!(compute_barycentric_eval(&vec![], fr(9), &domain).to_limbs(), [0, 0, 0, 0]);
    let zeros = vec![fr(0), fr(0)];
    assert_eq!(compute_barycentric_eval(&zeros, fr(9), &domain).to_limbs(), [0, 0, 0, 0]);
}

#[test]
fn points_of_the_domain_give_zero() {
    let domain = GeneralEvaluationDomain::<Fr>::new(4).unwrap();
    let evaluations = vec![fr(5), fr(6), fr(7), fr(8)];
    let value = compute_barycentric_eval(&evaluations, domain.element(2), &domain);
    assert_eq!(value.to_limbs(), [0, 0, 0, 0]);
}

#[test]
fn barycentric_evaluation_has_an_exact_value() {
    // The values 5 and 7 on {1, -1} belong to 6 - X.
    let domain = GeneralEvaluationDomain::<Fr>::new(2).unwrap();
    let value = compute_barycentric_eval(&vec![fr(5), fr(7)], fr(4), &domain);
    assert_eq!(value.to_limbs(), [2, 0, 0, 0]);
}

#[test]
fn first_lagrange_is_interpolation_of_one() {
    let domain = GeneralEvaluationDomain::<Fr>::new(16).unwrap();
    let x = fr(31337);
    let value = compute_barycentric_eval(&vec![fr(1)], x, &domain);
    assert_eq!(first_lagrange(&domain, x).to_limbs(), value.to_limbs());
}
