//! Verification of proofs over KZG commitments.
use std::cell::RefCell;

use ark_bls12_381::{Bls12_381, Fr as ArkFr, G1Affine};
use ark_ec::{AffineCurve, ProjectiveCurve};
use ark_ff::{BigInteger256, Field, One, PrimeField as ArkPrimeField, ToBytes, UniformRand, Zero};
use ark_marlin::rng::FiatShamirRng as ArkRng;
use ark_poly::univariate::DensePolynomial;
use ark_poly::{Polynomial, UVPolynomial};
use ark_poly_commit::sonic_pc::{CommitterKey, SonicKZG10};
use ark_poly_commit::{LabeledPolynomial, PolynomialCommitment, QuerySet};
use ark_serialize::CanonicalSerialize;
use blake2::Blake2s;
use plonk_core::bls12_381::Fr;
use plonk_core::challenges::Challenges;
use plonk_core::claims::label;
use plonk_core::domain::GeneralEvaluationDomain;
use plonk_core::encoding::{Canonical, IoErrorKind, SerializationError};
use plonk_core::error::Error;
use plonk_core::evaluations::{
    CustomEvaluations, LookupEvaluations, PermutationEvaluations, ProofEvaluations,
    WireEvaluations,
};
use plonk_core::field::PrimeField;
use plonk_core::g1::G1;
use plonk_core::kzg::{Kzg, KzgVerifierKey, Opening};
use plonk_core::lagrange::{compute_barycentric_eval, compute_first_lagrange_evaluation};
use plonk_core::proof_system::Proof;
use plonk_core::public_inputs::PublicInputs;
use plonk_core::verifier_key::{
    GateConstraints, GateTerms, LookupVerifierKey, PermutationVerifierKey, VerifierKey,
};

type Poly = DensePolynomial<ArkFr>;
type Scheme = SonicKZG10<Bls12_381, Poly>;

const DEGREE: usize = 7;

fn fr(x: &ArkFr) -> Fr {
    Fr::from_limbs(x.into_repr().0).unwrap()
}

fn ark(x: &Fr) -> ArkFr {
    ArkFr::from_repr(BigInteger256(x.to_limbs())).unwrap()
}

fn g1(point: &G1Affine) -> G1 {
    let mut bytes = vec![];
    point.serialize(&mut bytes).unwrap();
    G1::decode(&bytes).unwrap()
}

fn small(x: u64) -> Fr {
    Fr::from_u64(x)
}

/// Gates that contribute given terms, and note what they are asked with.
struct TestGates {
    terms: [Vec<(Fr, G1)>; 7],
    asked: RefCell<Vec<Vec<Vec<u8>>>>,
}

impl TestGates {
    fn silent() -> TestGates {
        TestGates { terms: Default::default(), asked: RefCell::new(vec![]) }
    }

    fn answer(&self, gate: usize, arguments: Vec<Vec<u8>>) -> Vec<(Fr, G1)> {
        let mut entry = vec![vec![gate as u8]];
        entry.extend(arguments);
        self.asked.borrow_mut().push(entry);
        self.terms[gate].clone()
    }
}

impl GateConstraints<Fr, Kzg> for TestGates {
    fn arithmetic(&self, evaluations: &ProofEvaluations<Fr>) -> Vec<(Fr, G1)> {
        self.answer(0, vec![evaluations.wire_evals.a_eval.to_bytes()])
    }

    fn range(&self, selector: &G1, sep: Fr, _: &ProofEvaluations<Fr>) -> Vec<(Fr, G1)> {
        self.answer(1, vec![selector.to_bytes(), sep.to_bytes()])
    }

    fn logic(&self, selector: &G1, sep: Fr, _: &ProofEvaluations<Fr>) -> Vec<(Fr, G1)> {
        self.answer(2, vec![selector.to_bytes(), sep.to_bytes()])
    }

    fn fixed_base_scalar_mul(
        &self,
        selector: &G1,
        sep: Fr,
        _: &ProofEvaluations<Fr>,
    ) -> Vec<(Fr, G1)> {
        self.answer(3, vec![selector.to_bytes(), sep.to_bytes()])
    }

    fn curve_addition(&self, selector: &G1, sep: Fr, _: &ProofEvaluations<Fr>) -> Vec<(Fr, G1)> {
        self.answer(4, vec![selector.to_bytes(), sep.to_bytes()])
    }

    fn lookup(
        &self,
        key: &LookupVerifierKey<G1>,
        _: &ProofEvaluations<Fr>,
        challenges: (Fr, Fr, Fr),
        sep: Fr,
        l1_eval: Fr,
        z_2_comm: G1,
        h_1_comm: G1,
    ) -> Vec<(Fr, G1)> {
        self.answer(
            5,
            vec![
                key.table_1.to_bytes(),
                challenges.0.to_bytes(),
                challenges.1.to_bytes(),
                challenges.2.to_bytes(),
                sep.to_bytes(),
                l1_eval.to_bytes(),
                z_2_comm.to_bytes(),
                h_1_comm.to_bytes(),
            ],
        )
    }

    fn permutation(
        &self,
        key: &PermutationVerifierKey<G1>,
        _: &ProofEvaluations<Fr>,
        z_challenge: Fr,
        challenges: (Fr, Fr, Fr),
        l1_eval: Fr,
        z_comm: G1,
    ) -> Vec<(Fr, G1)> {
        self.answer(
            6,
            vec![
                key.left_sigma.to_bytes(),
                z_challenge.to_bytes(),
                challenges.0.to_bytes(),
                challenges.1.to_bytes(),
                challenges.2.to_bytes(),
                l1_eval.to_bytes(),
                z_comm.to_bytes(),
            ],
        )
    }
}

/// Polynomials, with the keys to commit to them and to open them.
struct Setup {
    committer_key: CommitterKey<Bls12_381>,
    key: KzgVerifierKey,
    wires: Vec<Poly>,
    z: Poly,
    f: Poly,
    h: Vec<Poly>,
    z_2: Poly,
    sigmas: Vec<Poly>,
    tables: Vec<Poly>,
}

fn commit_to(key: &CommitterKey<Bls12_381>, polynomial: &Poly) -> G1 {
    let labelled = LabeledPolynomial::new(String::from("p"), polynomial.clone(), None, None);
    let (commitments, _) = Scheme::commit(key, vec![&labelled], None).unwrap();
    g1(&commitments[0].commitment().0)
}

impl Setup {
    fn new() -> Setup {
        let mut rng = ark_std::test_rng();
        let parameters = Scheme::setup(DEGREE, None, &mut rng).unwrap();
        let (committer_key, key) = Scheme::trim(&parameters, DEGREE, 0, None).unwrap();
        let mut bytes = vec![];
        key.serialize(&mut bytes).unwrap();
        let mut some = |count: usize| -> Vec<Poly> {
            (0..count).map(|_| Poly::rand(DEGREE, &mut rng)).collect()
        };
        Setup {
            committer_key,
            key: KzgVerifierKey::from_bytes(bytes).unwrap(),
            wires: some(4),
            z: some(1).remove(0),
            f: some(1).remove(0),
            h: some(2),
            z_2: some(1).remove(0),
            sigmas: some(3),
            tables: some(4),
        }
    }

    fn commit(&self, polynomial: &Poly) -> G1 {
        commit_to(&self.committer_key, polynomial)
    }

    fn table(&self, zeta: ArkFr) -> Poly {
        let mut sum = Poly::zero();
        let mut power = ArkFr::one();
        for column in &self.tables {
            sum = &sum + &(column * power);
            power *= zeta;
        }
        sum
    }

    fn plonk_key(&self, n: usize, gates: TestGates) -> VerifierKey<Fr, Kzg, TestGates> {
        VerifierKey {
            n,
            gates,
            range_selector_commitment: self.commit(&self.wires[0]),
            logic_selector_commitment: self.commit(&self.wires[1]),
            fixed_group_add_selector_commitment: self.commit(&self.wires[2]),
            variable_group_add_selector_commitment: self.commit(&self.wires[3]),
            lookup: LookupVerifierKey {
                table_1: self.commit(&self.tables[0]),
                table_2: self.commit(&self.tables[1]),
                table_3: self.commit(&self.tables[2]),
                table_4: self.commit(&self.tables[3]),
            },
            permutation: PermutationVerifierKey {
                left_sigma: self.commit(&self.sigmas[0]),
                right_sigma: self.commit(&self.sigmas[1]),
                out_sigma: self.commit(&self.sigmas[2]),
            },
        }
    }

    /// The commitments and the evaluations at the given points, without openings.
    fn unopened(&self, z: ArkFr, omega_z: ArkFr, zeta: ArkFr) -> Proof<Fr, Kzg> {
        let at = |p: &Poly, x: ArkFr| fr(&p.evaluate(&x));
        let table = self.table(zeta);
        let nothing = self.commit(&Poly::zero());
        Proof {
            a_comm: self.commit(&self.wires[0]),
            b_comm: self.commit(&self.wires[1]),
            c_comm: self.commit(&self.wires[2]),
            d_comm: self.commit(&self.wires[3]),
            z_comm: self.commit(&self.z),
            f_comm: self.commit(&self.f),
            h_1_comm: self.commit(&self.h[0]),
            h_2_comm: self.commit(&self.h[1]),
            z_2_comm: self.commit(&self.z_2),
            t_1_comm: nothing,
            t_2_comm: nothing,
            t_3_comm: nothing,
            t_4_comm: nothing,
            evaluations: ProofEvaluations {
                wire_evals: WireEvaluations {
                    a_eval: at(&self.wires[0], z),
                    b_eval: at(&self.wires[1], z),
                    c_eval: at(&self.wires[2], z),
                    d_eval: at(&self.wires[3], z),
                },
                perm_evals: PermutationEvaluations {
                    left_sigma_eval: at(&self.sigmas[0], z),
                    right_sigma_eval: at(&self.sigmas[1], z),
                    out_sigma_eval: at(&self.sigmas[2], z),
                    permutation_eval: at(&self.z, omega_z),
                },
                lookup_evals: LookupEvaluations {
                    q_lookup_eval: small(17),
                    z2_next_eval: at(&self.z_2, omega_z),
                    h1_eval: at(&self.h[0], z),
                    h1_next_eval: at(&self.h[0], omega_z),
                    h2_eval: at(&self.h[1], z),
                    f_eval: at(&self.f, z),
                    table_eval: at(&table, z),
                    table_next_eval: at(&table, omega_z),
                },
                custom_evals: CustomEvaluations {
                    vals: vec![
                        (String::from("q_l_eval"), small(23)),
                        (String::from("a_next_eval"), at(&self.wires[0], omega_z)),
                        (String::from("b_next_eval"), at(&self.wires[1], omega_z)),
                        (String::from("d_next_eval"), at(&self.wires[3], omega_z)),
                    ],
                },
            },
            batch_opening: vec![],
        }
    }

    /// A proof whose openings are right, and the key of a circuit whose gates contribute what
    /// makes the linearisation right.
    fn prove(
        &self,
        n: usize,
        pub_inputs: &PublicInputs<Fr>,
    ) -> (Proof<Fr, Kzg>, VerifierKey<Fr, Kzg, TestGates>) {
        let domain = GeneralEvaluationDomain::<Fr>::new(n).unwrap();
        // The evaluation point does not depend on the evaluations.
        let draft = self.unopened(ArkFr::zero(), ArkFr::zero(), ArkFr::zero());
        let (drafted, _) = draft.draw_challenges(pub_inputs);
        let z = ark(&drafted.z_challenge);
        let omega_z = z * ark(&domain.group_gen);
        let mut proof = self.unopened(z, omega_z, ark(&drafted.zeta));
        let (challenges, _) = proof.draw_challenges(pub_inputs);
        assert_eq!(challenges.z_challenge.to_limbs(), drafted.z_challenge.to_limbs());

        let r0 = r0_of(&proof, &domain, pub_inputs, &challenges);
        let minus_r0 = -ark(&r0);
        let constant = |c: ArkFr| Poly::from_coefficients_vec(vec![c]);
        let mut gates = TestGates::silent();
        gates.terms[0] = vec![(fr(&minus_r0), self.commit(&constant(ArkFr::one())))];

        let table = self.table(ark(&challenges.zeta));
        let w = [
            constant(minus_r0),
            self.sigmas[0].clone(),
            self.sigmas[1].clone(),
            self.sigmas[2].clone(),
            self.f.clone(),
            self.h[1].clone(),
            table.clone(),
            self.wires[0].clone(),
            self.wires[1].clone(),
            self.wires[2].clone(),
            self.wires[3].clone(),
        ];
        let saw = [
            self.z.clone(),
            self.wires[0].clone(),
            self.wires[1].clone(),
            self.wires[3].clone(),
            self.h[0].clone(),
            self.z_2.clone(),
            table,
        ];
        let mut polynomials = vec![];
        let mut queries = QuerySet::new();
        for (i, p) in w.iter().enumerate() {
            let name = format!("w_{}", i);
            polynomials.push(LabeledPolynomial::new(name.clone(), p.clone(), None, None));
            queries.insert((name, (String::from("z"), z)));
        }
        for (i, p) in saw.iter().enumerate() {
            let name = format!("saw_{}", i);
            polynomials.push(LabeledPolynomial::new(name.clone(), p.clone(), None, None));
            queries.insert((name, (String::from("omega_z"), omega_z)));
        }
        let (commitments, rands) =
            Scheme::commit(&self.committer_key, &polynomials, None).unwrap();
        let openings = Scheme::batch_open(
            &self.committer_key,
            &polynomials,
            &commitments,
            &queries,
            ark(&challenges.separation_challenge),
            &rands,
            None,
        )
        .unwrap();
        proof.batch_opening = openings
            .iter()
            .map(|o| Opening { w: g1(&o.w), random_v: o.random_v.map(|v| fr(&v)) })
            .collect();
        (proof, self.plonk_key(n, gates))
    }
}

fn l1_of(domain: &GeneralEvaluationDomain<Fr>, z: Fr) -> Fr {
    compute_first_lagrange_evaluation(domain, &domain.evaluate_vanishing_polynomial(z), &z)
}

fn r0_of(
    proof: &Proof<Fr, Kzg>,
    domain: &GeneralEvaluationDomain<Fr>,
    pub_inputs: &PublicInputs<Fr>,
    c: &Challenges<Fr>,
) -> Fr {
    proof.compute_r0(
        domain,
        pub_inputs.as_evals(),
        c.alpha,
        c.beta,
        c.gamma,
        c.delta,
        c.epsilon,
        c.z_challenge,
        l1_of(domain, c.z_challenge),
        proof.evaluations.perm_evals.permutation_eval,
        proof.evaluations.lookup_evals.z2_next_eval,
        proof.evaluations.lookup_evals.h1_next_eval,
        proof.evaluations.lookup_evals.h2_eval,
        c.lookup_sep_challenge,
    )
}

fn inputs() -> PublicInputs<Fr> {
    PublicInputs { evaluations: vec![small(3), small(0), small(8)] }
}

#[test]
fn right_proofs_are_accepted() {
    let setup = Setup::new();
    let (proof, key) = setup.prove(8, &inputs());
    assert_eq!(proof.verify(&key, &setup.key, &inputs()), Ok(()));
    assert_eq!(proof.try_verify(&key, &setup.key, &inputs()), Some(Ok(())));
}

#[test]
fn verdicts_are_repeatable() {
    let setup = Setup::new();
    let (mut proof, key) = setup.prove(8, &inputs());
    for expected in [Ok(()), Err(Error::ProofVerificationError)] {
        assert_eq!(proof.verify(&key, &setup.key, &inputs()), expected);
        assert_eq!(proof.verify(&key, &setup.key, &inputs()), expected);
        proof.batch_opening.swap(0, 1);
    }
}

#[test]
fn changed_evaluations_are_rejected() {
    let setup = Setup::new();
    let (mut proof, key) = setup.prove(8, &inputs());
    proof.evaluations.lookup_evals.table_eval =
        proof.evaluations.lookup_evals.table_eval.plus(Fr::one());
    assert_eq!(
        proof.verify(&key, &setup.key, &inputs()),
        Err(Error::ProofVerificationError)
    );
}

#[test]
fn changed_commitments_are_rejected() {
    let setup = Setup::new();
    let (mut proof, key) = setup.prove(8, &inputs());
    proof.z_2_comm = proof.h_1_comm;
    assert_eq!(
        proof.verify(&key, &setup.key, &inputs()),
        Err(Error::ProofVerificationError)
    );
}

#[test]
fn other_public_inputs_are_rejected() {
    let setup = Setup::new();
    let (proof, key) = setup.prove(8, &inputs());
    let others = PublicInputs { evaluations: vec![small(3), small(1), small(8)] };
    assert_eq!(proof.verify(&key, &setup.key, &others), Err(Error::ProofVerificationError));
}

#[test]
fn other_circuit_sizes_are_rejected() {
    let setup = Setup::new();
    let (proof, mut key) = setup.prove(8, &inputs());
    key.n = 5;
    assert_eq!(proof.verify(&key, &setup.key, &inputs()), Ok(()));
    key.n = 9;
    assert_eq!(
        proof.verify(&key, &setup.key, &inputs()),
        Err(Error::ProofVerificationError)
    );
}

#[test]
fn circuits_can_be_too_large_for_the_field() {
    let setup = Setup::new();
    let proof = setup.unopened(ArkFr::zero(), ArkFr::zero(), ArkFr::zero());
    let key = setup.plonk_key(3 << 35, TestGates::silent());
    let expected = Err(Error::InvalidEvalDomainSize { log_size_of_group: 35, adicity: 32 });
    assert_eq!(proof.verify(&key, &setup.key, &inputs()), expected);
    assert_eq!(proof.try_verify(&key, &setup.key, &inputs()), Some(expected));
}

#[test]
fn proofs_that_cannot_be_checked() {
    let setup = Setup::new();
    let (mut proof, mut key) = setup.prove(8, &inputs());
    key.n = usize::MAX;
    assert_eq!(proof.try_verify(&key, &setup.key, &inputs()), None);
    key.n = 8;
    let last = proof.batch_opening.pop().unwrap();
    assert_eq!(proof.try_verify(&key, &setup.key, &inputs()), None);
    proof.batch_opening.push(last);
    proof.evaluations.custom_evals.vals.pop();
    assert_eq!(proof.try_verify(&key, &setup.key, &inputs()), None);
}

#[test]
fn gates_are_asked_with_what_the_proof_and_the_key_hold() {
    let setup = Setup::new();
    let (proof, key) = setup.prove(8, &inputs());
    let (c, _) = proof.draw_challenges(&inputs());
    let domain = GeneralEvaluationDomain::<Fr>::new(8).unwrap();
    let l1_eval = l1_of(&domain, c.z_challenge);
    proof.verify(&key, &setup.key, &inputs()).unwrap();
    let asked = key.gates.asked.borrow();
    let order: Vec<u8> = asked.iter().map(|entry| entry[0][0]).collect();
    assert_eq!(order, vec![0, 1, 2, 3, 4, 5, 6]);
    assert_eq!(asked[0][1], proof.evaluations.wire_evals.a_eval.to_bytes());
    assert_eq!(asked[1][1], key.range_selector_commitment.to_bytes());
    assert_eq!(asked[1][2], c.range_sep_challenge.to_bytes());
    assert_eq!(asked[2][1], key.logic_selector_commitment.to_bytes());
    assert_eq!(asked[2][2], c.logic_sep_challenge.to_bytes());
    assert_eq!(asked[3][1], key.fixed_group_add_selector_commitment.to_bytes());
    assert_eq!(asked[3][2], c.fixed_base_sep_challenge.to_bytes());
    assert_eq!(asked[4][1], key.variable_group_add_selector_commitment.to_bytes());
    assert_eq!(asked[4][2], c.var_base_sep_challenge.to_bytes());
    assert_eq!(
        asked[5][1..],
        [
            key.lookup.table_1.to_bytes(),
            c.delta.to_bytes(),
            c.epsilon.to_bytes(),
            c.zeta.to_bytes(),
            c.lookup_sep_challenge.to_bytes(),
            l1_eval.to_bytes(),
            proof.z_2_comm.to_bytes(),
            proof.h_1_comm.to_bytes(),
        ]
    );
    assert_eq!(
        asked[6][1..],
        [
            key.permutation.left_sigma.to_bytes(),
            c.z_challenge.to_bytes(),
            c.alpha.to_bytes(),
            c.beta.to_bytes(),
            c.gamma.to_bytes(),
            l1_eval.to_bytes(),
            proof.z_comm.to_bytes(),
        ]
    );
}

fn bytes_of<T: ToBytes>(values: &[T]) -> Vec<u8> {
    let mut bytes = vec![];
    for value in values {
        value.write(&mut bytes).unwrap();
    }
    bytes
}

fn points_of(points: &[G1]) -> Vec<u8> {
    points.iter().flat_map(|p| p.to_bytes()).collect()
}

#[test]
fn challenges_are_drawn_in_order() {
    let setup = Setup::new();
    let (proof, _) = setup.prove(8, &inputs());
    let (c, _) = proof.draw_challenges(&inputs());

    let mut rng = ArkRng::<Blake2s>::from_seed(&b"Plonk".to_vec());
    let mut draw = |absorbed: &[Vec<u8>]| -> [u64; 4] {
        for bytes in absorbed {
            rng.absorb(bytes);
        }
        let challenge = ArkFr::rand(&mut rng);
        rng.absorb(&bytes_of(&[challenge]));
        challenge.into_repr().0
    };
    let pi = bytes_of(&[ArkFr::from(3u64), ArkFr::from(0u64), ArkFr::from(8u64)]);
    let wires = points_of(&[proof.a_comm, proof.b_comm, proof.c_comm, proof.d_comm]);
    assert_eq!(draw(&[pi, wires]), c.zeta.to_limbs());
    let h = points_of(&[proof.h_1_comm, proof.h_2_comm]);
    assert_eq!(draw(&[proof.f_comm.to_bytes(), h]), c.beta.to_limbs());
    assert_eq!(draw(&[]), c.gamma.to_limbs());
    assert_eq!(draw(&[]), c.delta.to_limbs());
    assert_eq!(draw(&[]), c.epsilon.to_limbs());
    assert_eq!(draw(&[proof.z_comm.to_bytes()]), c.alpha.to_limbs());
    assert_eq!(draw(&[]), c.range_sep_challenge.to_limbs());
    assert_eq!(draw(&[]), c.logic_sep_challenge.to_limbs());
    assert_eq!(draw(&[]), c.fixed_base_sep_challenge.to_limbs());
    assert_eq!(draw(&[]), c.var_base_sep_challenge.to_limbs());
    assert_eq!(draw(&[]), c.lookup_sep_challenge.to_limbs());
    let t = points_of(&[proof.t_1_comm, proof.t_2_comm, proof.t_3_comm, proof.t_4_comm]);
    assert_eq!(draw(&[t]), c.z_challenge.to_limbs());
    let e = &proof.evaluations;
    let listed = [
        e.wire_evals.a_eval,
        e.wire_evals.b_eval,
        e.wire_evals.c_eval,
        e.wire_evals.d_eval,
        e.perm_evals.left_sigma_eval,
        e.perm_evals.right_sigma_eval,
        e.perm_evals.out_sigma_eval,
        e.perm_evals.permutation_eval,
        e.lookup_evals.f_eval,
        e.lookup_evals.q_lookup_eval,
        e.lookup_evals.z2_next_eval,
        e.lookup_evals.h1_eval,
        e.lookup_evals.h1_next_eval,
        e.lookup_evals.h2_eval,
    ];
    let mut absorbed = vec![listed.iter().flat_map(|x| x.to_bytes()).collect()];
    absorbed.extend(e.custom_evals.vals.iter().map(|(_, x)| x.to_bytes()));
    assert_eq!(draw(&absorbed), c.separation_challenge.to_limbs());
}

#[test]
fn different_transcripts_give_different_challenges() {
    let setup = Setup::new();
    let (mut proof, _) = setup.prove(8, &inputs());
    let (before, _) = proof.draw_challenges(&inputs());
    proof.evaluations.custom_evals.vals[0].1 = small(24);
    let (after, _) = proof.draw_challenges(&inputs());
    assert_eq!(before.z_challenge.to_limbs(), after.z_challenge.to_limbs());
    assert_ne!(before.separation_challenge.to_limbs(), after.separation_challenge.to_limbs());
    proof.f_comm = proof.a_comm;
    let (last, _) = proof.draw_challenges(&inputs());
    assert_eq!(before.zeta.to_limbs(), last.zeta.to_limbs());
    assert_ne!(before.beta.to_limbs(), last.beta.to_limbs());
}

/// A proof with small evaluations, and no particular commitments.
fn small_proof() -> Proof<Fr, Kzg> {
    let point = g1(&G1Affine::prime_subgroup_generator());
    Proof {
        a_comm: point,
        b_comm: point,
        c_comm: point,
        d_comm: point,
        z_comm: point,
        f_comm: point,
        h_1_comm: point,
        h_2_comm: point,
        z_2_comm: point,
        t_1_comm: point,
        t_2_comm: point,
        t_3_comm: point,
        t_4_comm: point,
        evaluations: ProofEvaluations {
            wire_evals: WireEvaluations {
                a_eval: small(2),
                b_eval: small(3),
                c_eval: small(5),
                d_eval: small(7),
            },
            perm_evals: PermutationEvaluations {
                left_sigma_eval: small(11),
                right_sigma_eval: small(13),
                out_sigma_eval: small(17),
                permutation_eval: small(19),
            },
            lookup_evals: LookupEvaluations {
                q_lookup_eval: small(23),
                z2_next_eval: small(29),
                h1_eval: small(31),
                h1_next_eval: small(37),
                h2_eval: small(41),
                f_eval: small(43),
                table_eval: small(47),
                table_next_eval: small(53),
            },
            custom_evals: CustomEvaluations {
                vals: vec![
                    (String::from("a_next_eval"), small(59)),
                    (String::from("b_next_eval"), small(61)),
                    (String::from("d_next_eval"), small(67)),
                    (String::from("a_next_eval"), small(71)),
                ],
            },
        },
        batch_opening: vec![
            Opening { w: point, random_v: None },
            Opening { w: point, random_v: Some(small(73)) },
        ],
    }
}

#[test]
fn r0_has_an_exact_value() {
    let domain = GeneralEvaluationDomain::<Fr>::new(2).unwrap();
    // The public inputs belong to 6 - X, so that PI(4) = 2.
    let pub_inputs = vec![small(5), small(7)];
    let (alpha, beta, gamma, delta, epsilon) = (2, 3, 4, 5, 6);
    let (l1, z_hat, z2_next, h1_next, h2, s) = (8, 9, 10, 11, 12, 13);
    let r0 = small_proof().compute_r0(
        &domain,
        &pub_inputs,
        small(alpha),
        small(beta),
        small(gamma),
        small(delta),
        small(epsilon),
        small(4),
        small(l1),
        small(z_hat),
        small(z2_next),
        small(h1_next),
        small(h2),
        small(s),
    );
    let b = (2 + 33 + 4) * (3 + 39 + 4) * (5 + 51 + 4) * ((7 + 4) * 9 * 2);
    let c = 8 * 4;
    let d = 169 * 10 * (36 + 60) * (36 + 12 + 55);
    let e = 2197 * 8;
    assert_eq!(r0.to_limbs(), small(b + c + d + e - 2).negate().to_limbs());
}

#[test]
fn linearisation_commitments_combine_terms_and_quotient() {
    let base = G1Affine::prime_subgroup_generator();
    let times = |k: u64| g1(&base.mul(ArkFr::from(k)).into_affine());
    let mut proof = small_proof();
    proof.t_1_comm = times(1);
    proof.t_2_comm = times(10);
    proof.t_3_comm = times(100);
    proof.t_4_comm = times(1000);
    let term = |s: u64, k: u64| vec![(small(s), times(k))];
    let terms = GateTerms {
        arithmetic: vec![(small(2), times(1)), (small(3), times(1))],
        range: term(5, 2),
        logic: term(7, 3),
        fixed_base_scalar_mul: term(11, 4),
        curve_addition: term(13, 5),
        lookup: term(17, 6),
        permutation: term(19, 7),
    };
    let domain = GeneralEvaluationDomain::<Fr>::new(2).unwrap();
    let commitment = proof.combine_linearisation(&domain, small(3), &terms);
    let gates = 2 + 3 + 10 + 21 + 44 + 65 + 102 + 133;
    // z^n = 9 and Z_H(z) = 8.
    let quotient = 8 * (1 + 9 * 10 + 81 * 100 + 729 * 1000);
    let expected = base.mul(ArkFr::from(gates as u64) - ArkFr::from(quotient as u64));
    assert_eq!(commitment.to_bytes(), g1(&expected.into_affine()).to_bytes());
}

#[test]
fn linearisation_commitments_ask_the_gates() {
    let setup = Setup::new();
    let proof = small_proof();
    let base = G1Affine::prime_subgroup_generator();
    let mut gates = TestGates::silent();
    gates.terms[5] = vec![(small(6), g1(&base))];
    let key = setup.plonk_key(2, gates);
    let domain = GeneralEvaluationDomain::<Fr>::new(2).unwrap();
    let (mut challenges, _) = proof.draw_challenges(&inputs());
    challenges.z_challenge = small(3);
    let commitment =
        proof.compute_linearisation_commitment(&domain, &challenges, small(1), &key);
    let quotient = 8 * (1 + 9 + 81 + 729);
    let expected = base.mul(ArkFr::from(6u64) - ArkFr::from(quotient as u64));
    assert_eq!(commitment.to_bytes(), g1(&expected.into_affine()).to_bytes());
}

/// What the linearisation commitment of a proof is, where the lookups contribute one term.
fn linearised(proof: &Proof<Fr, Kzg>, z: Fr, range_sep: u64, range_terms: u64) -> Vec<u8> {
    let point = |k: u64| G1::generator_multiple(small(k));
    let mut gates = TestGates::silent();
    gates.terms[1] = vec![(small(range_terms), point(0)), (small(2), point(0))];
    gates.terms[5] = vec![(small(6), point(1))];
    let key = VerifierKey {
        n: 2,
        gates,
        range_selector_commitment: point(0),
        logic_selector_commitment: point(2),
        fixed_group_add_selector_commitment: point(3),
        variable_group_add_selector_commitment: point(4),
        lookup: LookupVerifierKey {
            table_1: point(5),
            table_2: point(6),
            table_3: point(7),
            table_4: point(8),
        },
        permutation: PermutationVerifierKey {
            left_sigma: point(9),
            right_sigma: point(10),
            out_sigma: point(11),
        },
    };
    let domain = GeneralEvaluationDomain::<Fr>::new(2).unwrap();
    let (mut challenges, _) = small_proof().draw_challenges(&inputs());
    challenges.z_challenge = z;
    challenges.range_sep_challenge = small(range_sep);
    proof.compute_linearisation_commitment(&domain, &challenges, small(1), &key).to_bytes()
}

#[test]
fn linearisations_are_additive_in_the_quotient() {
    let proof = small_proof();
    let mut other = small_proof();
    // Each piece is the generator; 2, 3, 4 and 5 times the generator are added.
    other.t_1_comm = G1::generator_multiple(small(3));
    other.t_2_comm = G1::generator_multiple(small(4));
    other.t_3_comm = G1::generator_multiple(small(5));
    other.t_4_comm = G1::generator_multiple(small(6));
    let base = small(6).minus(small(8 * (1 + 9 + 81 + 729)));
    let added = small(8 * (2 + 3 * 9 + 4 * 81 + 5 * 729)).negate();
    assert_eq!(
        linearised(&proof, small(3), 1, 1),
        G1::generator_multiple(base).to_bytes()
    );
    assert_eq!(
        linearised(&other, small(3), 1, 1),
        G1::generator_multiple(base.plus(added)).to_bytes()
    );
}

#[test]
fn the_quotient_does_not_count_on_the_domain() {
    let proof = small_proof();
    let mut other = small_proof();
    other.t_1_comm = G1::generator_multiple(small(3));
    other.t_4_comm = G1::generator_multiple(small(6));
    let omega = Fr::one().negate();
    let expected = G1::generator_multiple(small(6)).to_bytes();
    assert_eq!(linearised(&proof, omega, 1, 1), expected);
    assert_eq!(linearised(&other, omega, 1, 1), expected);
}

#[test]
fn linearisations_depend_on_part_of_the_proof() {
    let proof = small_proof();
    let mut other = small_proof();
    let point = G1::generator_multiple(small(99));
    other.a_comm = point;
    other.b_comm = point;
    other.c_comm = point;
    other.d_comm = point;
    other.f_comm = point;
    other.h_2_comm = point;
    other.batch_opening.clear();
    assert_eq!(linearised(&proof, small(3), 1, 1), linearised(&other, small(3), 1, 1));
    other.t_2_comm = point;
    assert_ne!(linearised(&proof, small(3), 1, 1), linearised(&other, small(3), 1, 1));
}

#[test]
fn separation_challenges_do_not_count_without_a_selector() {
    let proof = small_proof();
    assert_eq!(linearised(&proof, small(3), 1, 1), linearised(&proof, small(3), 2, 12));
}

#[test]
fn proofs_are_compared_and_copied() {
    let proof = small_proof();
    let mut other = proof.clone();
    assert_eq!(proof, other);
    other.evaluations.custom_evals.vals[3].0.push('_');
    assert_ne!(proof, other);
    let mut other = proof.clone();
    other.batch_opening[1].random_v = None;
    assert_ne!(proof, other);
    let mut other = proof.clone();
    other.t_4_comm = G1::default();
    assert_ne!(proof, other);
}

#[test]
fn default_proofs_are_zero() {
    let proof = Proof::<Fr, Kzg>::default();
    assert_eq!(proof.a_comm.to_bytes(), g1(&G1Affine::zero()).to_bytes());
    assert_eq!(proof.t_4_comm.to_bytes(), g1(&G1Affine::zero()).to_bytes());
    assert_eq!(proof.evaluations.lookup_evals.table_next_eval.to_limbs(), [0, 0, 0, 0]);
    assert!(proof.evaluations.custom_evals.vals.is_empty());
    assert!(proof.batch_opening.is_empty());
}

#[test]
fn trailing_zeros_of_the_public_inputs_enter_the_transcript() {
    let longer = PublicInputs { evaluations: vec![small(3), small(0), small(8), small(0)] };
    let (first, _) = small_proof().draw_challenges(&inputs());
    let (second, _) = small_proof().draw_challenges(&longer);
    assert_ne!(first.zeta.to_limbs(), second.zeta.to_limbs());
    let domain = GeneralEvaluationDomain::<Fr>::new(4).unwrap();
    let value = compute_barycentric_eval(inputs().as_evals(), small(9), &domain);
    let same = compute_barycentric_eval(longer.as_evals(), small(9), &domain);
    assert_eq!(value.to_limbs(), same.to_limbs());
}

#[test]
fn table_commitments_compress_the_columns() {
    let setup = Setup::new();
    let key = setup.plonk_key(8, TestGates::silent());
    let commitment = Proof::<Fr, Kzg>::compute_table_commitment(&key, small(5));
    let expected = setup.commit(&setup.table(ArkFr::from(5u64)));
    assert_eq!(commitment.to_bytes(), expected.to_bytes());
}

#[test]
fn public_inputs_are_a_polynomial() {
    let domain = GeneralEvaluationDomain::<Fr>::new(8).unwrap();
    let x = small(9);
    let value = compute_barycentric_eval(inputs().as_evals(), x, &domain);
    // 3 * L_0 + 8 * L_2, with L_i(x) = omega^i (x^n - 1) / (n (x - omega^i)).
    let n = ArkFr::from(8u64);
    let mut expected = ArkFr::zero();
    for (i, e) in [(0u64, 3u64), (2, 8)] {
        let omega_i = ark(&domain.element(i));
        let numerator = omega_i * (ark(&x).pow(&[8]) - ArkFr::one());
        let denominator = n * (ark(&x) - omega_i);
        expected += ArkFr::from(e) * numerator * denominator.inverse().unwrap();
    }
    assert_eq!(value.to_limbs(), fr(&expected).to_limbs());
}

#[test]
fn labelled_evaluations_are_found_first_to_last() {
    let proof = small_proof();
    let custom = &proof.evaluations.custom_evals;
    assert_eq!(custom.get("a_next_eval").to_limbs(), [59, 0, 0, 0]);
    assert_eq!(custom.get("d_next_eval").to_limbs(), [67, 0, 0, 0]);
    assert!(custom.find(&String::from("c_next_eval")).is_none());
}

#[test]
fn labels_are_numbered_in_decimal() {
    assert_eq!(label("w_", 0), "w_0");
    assert_eq!(label("w_", 10), "w_10");
    assert_eq!(label("saw_", 6), "saw_6");
    assert_eq!(label("", 9070), "9070");
}

#[test]
fn challenges_are_compared() {
    let setup = Setup::new();
    let (proof, _) = setup.prove(8, &inputs());
    let (mut c, _) = proof.draw_challenges(&inputs());
    assert!(c.check_distinct());
    c.delta = c.beta;
    assert!(!c.check_distinct());
}

#[test]
fn test_serde_proof() {
    let setup = Setup::new();
    let (proof, key) = setup.prove(8, &inputs());
    let mut proof_bytes = vec![];
    proof.serialize(&mut proof_bytes);
    let (obtained_proof, end) = Proof::<Fr, Kzg>::deserialize(&proof_bytes, 0).unwrap();
    assert_eq!(end, proof_bytes.len());
    assert_eq!(proof, obtained_proof);
    assert_eq!(proof.verify(&key, &setup.key, &inputs()), Ok(()));
    assert_eq!(obtained_proof.verify(&key, &setup.key, &inputs()), Ok(()));
}

#[test]
fn proofs_are_written_field_by_field() {
    let proof = small_proof();
    let mut bytes = vec![];
    proof.serialize(&mut bytes);
    let mut expected = vec![];
    for _ in 0..13 {
        G1Affine::prime_subgroup_generator().serialize(&mut expected).unwrap();
    }
    for x in [2u64, 3, 5, 7, 11, 13, 17, 19, 23, 29, 31, 37, 41, 43, 47, 53] {
        ArkFr::from(x).serialize(&mut expected).unwrap();
    }
    let custom: Vec<(String, ArkFr)> = proof
        .evaluations
        .custom_evals
        .vals
        .iter()
        .map(|(name, x)| (name.clone(), ark(x)))
        .collect();
    custom.serialize(&mut expected).unwrap();
    2u64.serialize(&mut expected).unwrap();
    for random_v in [None, Some(ArkFr::from(73u64))] {
        G1Affine::prime_subgroup_generator().serialize(&mut expected).unwrap();
        random_v.serialize(&mut expected).unwrap();
    }
    assert_eq!(bytes, expected);
}

#[test]
fn broken_proofs_are_not_read() {
    let mut bytes = vec![];
    small_proof().serialize(&mut bytes);
    let cut = bytes[..bytes.len() - 1].to_vec();
    assert_eq!(
        Proof::<Fr, Kzg>::deserialize(&cut, 0).err(),
        Some(SerializationError::IoError(IoErrorKind::UnexpectedEof))
    );
    // The first commitment is on the curve, but not in the subgroup.
    for byte in bytes.iter_mut().take(48) {
        *byte = 0;
    }
    assert_eq!(
        Proof::<Fr, Kzg>::deserialize(&bytes, 0).err(),
        Some(SerializationError::InvalidData)
    );
    bytes[47] = 0xff;
    assert_eq!(
        Proof::<Fr, Kzg>::deserialize(&bytes, 0).err(),
        Some(SerializationError::UnexpectedFlags)
    );
    bytes[47] = 0x3f;
    assert_eq!(
        Proof::<Fr, Kzg>::deserialize(&bytes, 0).err(),
        Some(SerializationError::IoError(IoErrorKind::Other))
    );
}

#[test]
fn verifier_keys_have_to_decode() {
    assert!(KzgVerifierKey::from_bytes(vec![]).is_none());
    assert!(KzgVerifierKey::from_bytes(vec![1; 300]).is_none());
}
