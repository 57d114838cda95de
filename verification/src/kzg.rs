//! KZG commitments over BLS12-381.
use ark_bls12_381::{Bls12_381, Fq as ArkFq, Fr as ArkFr, G1Affine};
use ark_ff::{BigInteger256, BigInteger384, PrimeField as ArkPrimeField};
use ark_poly::univariate::DensePolynomial;
use ark_poly_commit::kzg10::{Commitment as ArkCommitment, Proof as ArkProof};
use ark_poly_commit::sonic_pc::{SonicKZG10, VerifierKey as ArkVerifierKey};
use ark_poly_commit::{Evaluations, LabeledCommitment, PolynomialCommitment, QuerySet};
use ark_serialize::CanonicalDeserialize;
use vstd::prelude::*;

use crate::arithmetic::{
    lemma_congruent_product, lemma_congruent_sum, lemma_reduce_range, lemma_reduce_small, reduce,
};
use crate::bls12_381::{fr_modulus, Fr};
use crate::commitment::{
    is_answered, point_labels, EvaluationsModel, HomomorphicCommitment, QueryModel,
};
use crate::field::PrimeField;
use crate::g1::{combined_exponent, g1_bytes, g1_multiple, Coordinates, G1};
use crate::polynomial::{lemma_sum_equal, sum};
use crate::sponge::{absorbed, Sponge};
use crate::transcript::Log;

verus! {

/// Whether `CanonicalDeserialize::deserialize` of `sonic_pc::VerifierKey` succeeds. A key holds
/// sizes of eight bytes each, and does not decode where one of them is above `usize::MAX`.
pub uninterp spec fn kzg_key_decodes(key: Seq<u8>) -> bool;

/// The verdict of `SonicKZG10::batch_check` on openings. The commitments are given by their
/// exponents, and `log` is the history of the transcript that it draws from.
pub uninterp spec fn kzg_accepts(
    key: Seq<u8>,
    commitments: Seq<(Seq<char>, int)>,
    queries: Set<(Seq<char>, (Seq<char>, int))>,
    evaluations: Map<(Seq<char>, int), int>,
    openings: Seq<((int, int, bool), Option<int>)>,
    opening_challenge: int,
    log: Seq<Option<Seq<u8>>>,
) -> bool;

/// A key against which openings are checked, in its serialized form.
#[derive(Debug)]
pub struct KzgVerifierKey {
    bytes: Vec<u8>,
}

impl KzgVerifierKey {
    /// The bytes are those of a key.
    #[verifier::type_invariant]
    spec fn inv(self) -> bool {
        kzg_key_decodes(self.bytes@)
    }

    /// The serialized form of the key.
    pub closed spec fn serialized(self) -> Seq<u8> {
        self.bytes@
    }

    /// The key with the given serialized form, if there is one.
    pub fn from_bytes(bytes: Vec<u8>) -> (r: Option<KzgVerifierKey>)
        ensures
            r is Some <==> kzg_key_decodes(bytes@),
            r matches Some(key) ==> key.serialized() == bytes@,
    {
        if ark_key_decodes(&bytes) {
            Some(KzgVerifierKey { bytes })
        } else {
            None
        }
    }
}

/// The opening of several polynomials at one point.
#[derive(Clone, Copy, Debug)]
pub struct Opening {
    /// Commitment to the witness polynomial.
    pub w: G1,
    /// Evaluation of the random polynomial, where the commitments are hiding.
    pub random_v: Option<Fr>,
}

impl Opening {
    /// What the opening is to specifications.
    pub open spec fn parts(self) -> (Coordinates, Option<int>) {
        (
            self.w.coordinates(),
            match self.random_v {
                Some(v) => Some(v.int_value()),
                None => None,
            },
        )
    }
}

/// Holds a list of `ark_poly_commit::LabeledCommitment`, which is known through
/// [`listed_commitments`].
#[verifier::external_body]
pub struct CommitmentList {
    list: Vec<LabeledCommitment<ArkCommitment<Bls12_381>>>,
}

/// Holds an `ark_poly_commit::QuerySet`, which is known through [`asked_queries`].
#[verifier::external_body]
pub struct QueryCollection {
    set: QuerySet<ArkFr>,
}

/// Holds `ark_poly_commit::Evaluations`, which are known through [`claimed_evaluations`].
#[verifier::external_body]
pub struct EvaluationCollection {
    map: Evaluations<ArkFr, ArkFr>,
}

/// The labels of the listed commitments, each with the exponent of its point.
pub uninterp spec fn listed_commitments(commitments: CommitmentList) -> Seq<(Seq<char>, int)>;

/// The elements of the `QuerySet`.
pub uninterp spec fn asked_queries(queries: QueryCollection) -> Set<
    (Seq<char>, (Seq<char>, int)),
>;

/// The entries of the `Evaluations`.
pub uninterp spec fn claimed_evaluations(evaluations: EvaluationCollection) -> Map<
    (Seq<char>, int),
    int,
>;

/// Labelled commitments, the queries to them and the claimed evaluations.
pub struct KzgClaims {
    commitments: CommitmentList,
    queries: QueryCollection,
    evaluations: EvaluationCollection,
}

impl KzgClaims {
    /// The labels of the commitments, each with the exponent of its point.
    pub closed spec fn listed(self) -> Seq<(Seq<char>, int)> {
        listed_commitments(self.commitments)
    }

    /// The queries.
    pub closed spec fn asked(self) -> Set<QueryModel> {
        asked_queries(self.queries)
    }

    /// The claimed evaluations.
    pub closed spec fn claimed(self) -> EvaluationsModel {
        claimed_evaluations(self.evaluations)
    }
}

/// Wraps `CanonicalDeserialize::deserialize` of `sonic_pc::VerifierKey`: whether the bytes
/// are those of a key.
#[verifier::external_body]
fn ark_key_decodes(bytes: &Vec<u8>) -> (r: bool)
    ensures
        r == kzg_key_decodes(bytes@),
{
    ArkVerifierKey::<Bls12_381>::deserialize(bytes.as_slice()).is_ok()
}

/// Wraps `Vec::new`: a list that holds nothing.
#[verifier::external_body]
fn ark_no_commitments() -> (r: CommitmentList)
    ensures
        listed_commitments(r).len() == 0,
{
    CommitmentList { list: Vec::new() }
}

/// Wraps `new` of `ark_poly_commit::QuerySet`: a set that holds nothing.
#[verifier::external_body]
fn ark_no_queries() -> (r: QueryCollection)
    ensures
        asked_queries(r) == Set::<QueryModel>::empty(),
{
    QueryCollection { set: QuerySet::new() }
}

/// Wraps `new` of `ark_poly_commit::Evaluations`: a map that holds nothing.
#[verifier::external_body]
fn ark_no_evaluations() -> (r: EvaluationCollection)
    ensures
        claimed_evaluations(r) == EvaluationsModel::empty(),
{
    EvaluationCollection { map: Evaluations::new() }
}

/// Wraps `LabeledCommitment::new`: a commitment without a degree bound, which is put at the
/// end of the list.
#[verifier::external_body]
fn ark_push_commitment(commitments: &mut CommitmentList, label: &String, point: &G1)
    ensures
        listed_commitments(*final(commitments)) == listed_commitments(*old(commitments)).push(
            (label@, point.exponent()),
        ),
{
    let x = ArkFq::from_repr(BigInteger384(point.x)).unwrap();
    let y = ArkFq::from_repr(BigInteger384(point.y)).unwrap();
    let commitment = ArkCommitment(G1Affine::new(x, y, point.infinity));
    commitments.list.push(LabeledCommitment::new(label.clone(), commitment, None));
}

/// Wraps `insert` of `ark_poly_commit::QuerySet`: the query is one of the elements then.
#[verifier::external_body]
fn ark_insert_query(queries: &mut QueryCollection, label: &String, name: &String, point: Fr)
    ensures
        asked_queries(*final(queries)) == asked_queries(*old(queries)).insert(
            (label@, (name@, point.int_value())),
        ),
{
    let x = ArkFr::from_repr(BigInteger256(point.limbs)).unwrap();
    queries.set.insert((label.clone(), (name.clone(), x)));
}

/// Wraps `insert` of `ark_poly_commit::Evaluations`: the evaluation is the entry for its
/// label and point then.
#[verifier::external_body]
fn ark_insert_evaluation(
    evaluations: &mut EvaluationCollection,
    label: &String,
    point: Fr,
    evaluation: Fr,
)
    ensures
        claimed_evaluations(*final(evaluations)) == claimed_evaluations(
            *old(evaluations),
        ).insert((label@, point.int_value()), evaluation.int_value()),
{
    let x = ArkFr::from_repr(BigInteger256(point.limbs)).unwrap();
    let value = ArkFr::from_repr(BigInteger256(evaluation.limbs)).unwrap();
    evaluations.map.insert((label.clone(), x), value);
}

/// Wraps `PolynomialCommitment::batch_check` of `SonicKZG10`: the named verdict. It returns
/// an error where a query has no commitment or no evaluation, and panics where there are
/// more or fewer openings than points.
#[verifier::external_body]
fn ark_batch_check(
    key: &KzgVerifierKey,
    claims: &KzgClaims,
    openings: &Vec<Opening>,
    opening_challenge: Fr,
    sponge: &mut Sponge,
) -> (r: bool)
    requires
        kzg_key_decodes(key.serialized()),
        is_answered(
            claims.listed(),
            claims.asked(),
            claims.claimed(),
        ),
        openings@.len() == point_labels(claims.asked()).len(),
    ensures
        r == kzg_accepts(
            key.serialized(),
            claims.listed(),
            claims.asked(),
            claims.claimed(),
            openings@.map_values(|o: Opening| o.parts()),
            opening_challenge.int_value(),
            absorbed(*old(sponge)),
        ),
{
    let fq = |limbs| ArkFq::from_repr(BigInteger384(limbs)).unwrap();
    let fr = |s: Fr| ArkFr::from_repr(BigInteger256(s.limbs)).unwrap();
    let proof: Vec<ArkProof<Bls12_381>> = openings.iter().map(|o| ArkProof {
        w: G1Affine::new(fq(o.w.x), fq(o.w.y), o.w.infinity),
        random_v: o.random_v.map(fr),
    }).collect();
    let (list, set) = (&claims.commitments.list, &claims.queries.set);
    SonicKZG10::<Bls12_381, DensePolynomial<ArkFr>>::batch_check(
        &ArkVerifierKey::deserialize(key.bytes.as_slice()).unwrap(), list, set,
        &claims.evaluations.map, &proof, fr(opening_challenge), &mut sponge.rng).unwrap()
}

/// The KZG commitment scheme over BLS12-381.
#[derive(Clone, Copy, Debug)]
pub struct Kzg;

impl HomomorphicCommitment<Fr> for Kzg {
    type Point = int;

    type Commitment = G1;

    type BatchProof = Vec<Opening>;

    type VerifierKey = KzgVerifierKey;

    type Rng = Sponge;

    type Claims = KzgClaims;

    /// The multiple of the generator that the point is.
    open spec fn point(commitment: G1) -> int {
        commitment.exponent()
    }

    open spec fn point_bytes(point: int) -> Seq<u8> {
        g1_bytes(g1_multiple(point))
    }

    open spec fn neutral() -> int {
        0
    }

    open spec fn plus(a: int, b: int) -> int {
        reduce(fr_modulus(), a + b)
    }

    open spec fn scaled(scalar: int, a: int) -> int {
        reduce(fr_modulus(), scalar * a)
    }

    open spec fn combination(points: Seq<int>, scalars: Seq<int>) -> int {
        combined_exponent(points, scalars)
    }

    open spec fn commitments(claims: KzgClaims) -> Seq<(Seq<char>, int)> {
        claims.listed()
    }

    open spec fn queries(claims: KzgClaims) -> Set<QueryModel> {
        claims.asked()
    }

    open spec fn evaluations(claims: KzgClaims) -> EvaluationsModel {
        claims.claimed()
    }

    open spec fn opening_count(proof: Vec<Opening>) -> nat {
        proof@.len()
    }

    open spec fn accepts(
        verifier_key: KzgVerifierKey,
        commitments: Seq<(Seq<char>, int)>,
        queries: Set<QueryModel>,
        evaluations: EvaluationsModel,
        proof: Vec<Opening>,
        opening_challenge: int,
        log: Log,
    ) -> bool {
        kzg_accepts(
            verifier_key.serialized(),
            commitments,
            queries,
            evaluations,
            proof@.map_values(|o: Opening| o.parts()),
            opening_challenge,
            log,
        )
    }

    proof fn lemma_plus(a: int, b: int, c: int) {
        let p = fr_modulus();
        lemma_reduce_range(p, a + b);
        lemma_reduce_range(p, b + c);
        lemma_reduce_small(p, reduce(p, a + b));
        lemma_reduce_small(p, 0);
        lemma_congruent_sum(p, reduce(p, a + b), c, a + b, c);
        lemma_congruent_sum(p, a, reduce(p, b + c), a, b + c);
    }

    proof fn lemma_scaled(scalar: int, a: int, b: int) {
        let p = fr_modulus();
        lemma_reduce_range(p, a + b);
        lemma_reduce_range(p, scalar * a);
        lemma_reduce_range(p, scalar * b);
        lemma_reduce_small(p, 0);
        lemma_congruent_product(p, scalar, reduce(p, a + b), scalar, a + b);
        lemma_congruent_sum(
            p,
            reduce(p, scalar * a),
            reduce(p, scalar * b),
            scalar * a,
            scalar * b,
        );
        assert(scalar * (a + b) == scalar * a + scalar * b) by (nonlinear_arith);
        assert(0 * a == 0 && scalar * 0 == 0);
    }

    proof fn lemma_combination(points: Seq<int>, scalars: Seq<int>, a: int, scalar: int) {
        let p = fr_modulus();
        let n = points.len();
        let longer = points.push(a);
        let more = scalars.push(scalar);
        let terms = |i: int| scalars[i] * points[i];
        lemma_reduce_small(p, 0);
        lemma_sum_equal(n, |i: int| more[i] * longer[i], terms);
        lemma_reduce_range(p, sum(n, terms));
        lemma_reduce_range(p, scalar * a);
        lemma_congruent_sum(
            p,
            reduce(p, sum(n, terms)),
            reduce(p, scalar * a),
            sum(n, terms),
            scalar * a,
        );
    }

    fn to_bytes(commitment: &G1) -> (r: Vec<u8>) {
        commitment.to_bytes()
    }

    fn multi_scalar_mul(commitments: &Vec<G1>, scalars: &Vec<Fr>) -> (r: G1) {
        let r = G1::multi_scalar_mul(commitments, scalars);
        proof {
            assert(commitments@.map_values(|p: G1| p.exponent()) =~= commitments@.map_values(
                |c: G1| <Kzg as HomomorphicCommitment<Fr>>::point(c),
            ));
            assert(scalars@.map_values(|s: Fr| s.int_value()) =~= scalars@.map_values(
                |s: Fr| s.value(),
            ));
        }
        r
    }

    fn no_claims() -> (r: KzgClaims) {
        let claims = KzgClaims {
            commitments: ark_no_commitments(),
            queries: ark_no_queries(),
            evaluations: ark_no_evaluations(),
        };
        assert(claims.listed() =~= Seq::<(Seq<char>, int)>::empty());
        claims
    }

    fn push_commitment(claims: &mut KzgClaims, label: &String, commitment: &G1) {
        ark_push_commitment(&mut claims.commitments, label, commitment);
    }

    fn insert_query(claims: &mut KzgClaims, label: &String, point_label: &String, point: Fr) {
        ark_insert_query(&mut claims.queries, label, point_label, point);
    }

    fn insert_evaluation(claims: &mut KzgClaims, label: &String, point: Fr, evaluation: Fr) {
        ark_insert_evaluation(&mut claims.evaluations, label, point, evaluation);
    }

    fn count_openings(proof: &Vec<Opening>) -> (r: usize) {
        proof.len()
    }

    fn batch_check(
        verifier_key: &KzgVerifierKey,
        claims: &KzgClaims,
        proof: &Vec<Opening>,
        opening_challenge: Fr,
        rng: &mut Sponge,
    ) -> (r: bool) {
        proof {
            use_type_invariant(verifier_key);
        }
        ark_batch_check(verifier_key, claims, proof, opening_challenge, rng)
    }
}

} // verus!
