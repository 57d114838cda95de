//! Commitments to polynomials, as the verifier uses them.
use vstd::prelude::*;

use crate::field::PrimeField;
use crate::transcript::{FiatShamirRng, Log};

verus! {

/// A query as specifications see it: the label of a commitment, and the label and the value
/// of the point at which the committed polynomial is opened.
pub type QueryModel = (Seq<char>, (Seq<char>, int));

/// The claimed evaluations as specifications see them: by the label of the commitment and
/// the value of the point.
pub type EvaluationsModel = Map<(Seq<char>, int), int>;

/// Some commitment has the given label.
pub open spec fn is_committed<Point>(
    commitments: Seq<(Seq<char>, Point)>,
    label: Seq<char>,
) -> bool {
    exists|i: int| 0 <= i < commitments.len() && (#[trigger] commitments[i]).0 == label
}

/// The labels of the points at which something is opened.
pub open spec fn point_labels(queries: Set<QueryModel>) -> Set<Seq<char>> {
    queries.map(|q: QueryModel| q.1.0)
}

/// Every query asks for a commitment that is there and at a point for which an evaluation is
/// claimed, and no point label stands for two points.
pub open spec fn is_answered<Point>(
    commitments: Seq<(Seq<char>, Point)>,
    queries: Set<QueryModel>,
    evaluations: EvaluationsModel,
) -> bool {
    &&& queries.finite()
    &&& forall|q: QueryModel| #[trigger]
        queries.contains(q) ==> is_committed(commitments, q.0) && evaluations.contains_key(
            (q.0, q.1.1),
        )
    &&& forall|q: QueryModel, s: QueryModel| #[trigger]
        queries.contains(q) && #[trigger] queries.contains(s) && q.1.0 == s.1.0 ==> q.1.1 == s.1.1
}

/// A polynomial commitment scheme whose commitments can be combined linearly.
pub trait HomomorphicCommitment<F: PrimeField>: Sized {
    /// What a commitment is to specifications.
    type Point;

    /// A commitment to a polynomial.
    type Commitment: Copy;

    /// A proof that several committed polynomials take the claimed values.
    type BatchProof;

    /// The key against which openings are checked.
    type VerifierKey;

    /// The transcript that the scheme can draw its own randomness from.
    type Rng: FiatShamirRng<F>;

    /// Labelled commitments, the queries to them and the claimed evaluations.
    type Claims;

    /// The group element that the commitment is.
    spec fn point(commitment: Self::Commitment) -> Self::Point;

    /// The bytes that stand for a commitment in a transcript.
    spec fn point_bytes(point: Self::Point) -> Seq<u8>;

    /// The neutral element of the group.
    spec fn neutral() -> Self::Point;

    /// The sum of two points.
    spec fn plus(a: Self::Point, b: Self::Point) -> Self::Point;

    /// The point multiplied by a scalar.
    spec fn scaled(scalar: int, a: Self::Point) -> Self::Point;

    /// The sum of the points, each multiplied by the scalar at the same place.
    spec fn combination(points: Seq<Self::Point>, scalars: Seq<int>) -> Self::Point;

    /// The labelled commitments, in the order in which they were added.
    spec fn commitments(claims: Self::Claims) -> Seq<(Seq<char>, Self::Point)>;

    /// The queries.
    spec fn queries(claims: Self::Claims) -> Set<QueryModel>;

    /// The claimed evaluations.
    spec fn evaluations(claims: Self::Claims) -> EvaluationsModel;

    /// The number of points for which the proof holds an opening.
    spec fn opening_count(proof: Self::BatchProof) -> nat;

    /// Whether the scheme accepts the openings. `log` is the history of the transcript that
    /// it may draw from.
    spec fn accepts(
        verifier_key: Self::VerifierKey,
        commitments: Seq<(Seq<char>, Self::Point)>,
        queries: Set<QueryModel>,
        evaluations: EvaluationsModel,
        proof: Self::BatchProof,
        opening_challenge: int,
        log: Log,
    ) -> bool;

    /// Sums may be taken in any order, and the neutral element does not change them.
    proof fn lemma_plus(a: Self::Point, b: Self::Point, c: Self::Point)
        ensures
            Self::plus(a, b) == Self::plus(b, a),
            Self::plus(Self::plus(a, b), c) == Self::plus(a, Self::plus(b, c)),
            Self::plus(Self::plus(a, b), Self::neutral()) == Self::plus(a, b),
            Self::plus(Self::neutral(), Self::neutral()) == Self::neutral(),
    ;

    /// Sums may be multiplied term by term; nothing is left where the scalar is zero or the
    /// point neutral.
    proof fn lemma_scaled(scalar: int, a: Self::Point, b: Self::Point)
        ensures
            Self::scaled(scalar, Self::plus(a, b)) == Self::plus(
                Self::scaled(scalar, a),
                Self::scaled(scalar, b),
            ),
            Self::scaled(0, a) == Self::neutral(),
            Self::scaled(scalar, Self::neutral()) == Self::neutral(),
    ;

    /// A combination of no points is neutral, and one of more points is a sum.
    proof fn lemma_combination(
        points: Seq<Self::Point>,
        scalars: Seq<int>,
        a: Self::Point,
        scalar: int,
    )
        requires
            points.len() == scalars.len(),
        ensures
            points.len() == 0 ==> Self::combination(points, scalars) == Self::neutral(),
            Self::combination(points.push(a), scalars.push(scalar)) == Self::plus(
                Self::combination(points, scalars),
                Self::scaled(scalar, a),
            ),
    ;

    /// The commitment as bytes.
    fn to_bytes(commitment: &Self::Commitment) -> (r: Vec<u8>)
        ensures
            r@ == Self::point_bytes(Self::point(*commitment)),
    ;

    /// Combines commitments linearly.
    fn multi_scalar_mul(commitments: &Vec<Self::Commitment>, scalars: &Vec<F>) -> (r:
        Self::Commitment)
        ensures
            Self::point(r) == Self::combination(
                commitments@.map_values(|c: Self::Commitment| Self::point(c)),
                scalars@.map_values(|s: F| s.value()),
            ),
    ;

    /// No claims at all.
    fn no_claims() -> (r: Self::Claims)
        ensures
            Self::commitments(r) == Seq::<(Seq<char>, Self::Point)>::empty(),
            Self::queries(r) == Set::<QueryModel>::empty(),
            Self::evaluations(r) == EvaluationsModel::empty(),
    ;

    /// Adds a commitment under the given label.
    fn push_commitment(claims: &mut Self::Claims, label: &String, commitment: &Self::Commitment)
        ensures
            Self::commitments(*final(claims)) == Self::commitments(*old(claims)).push(
                (label@, Self::point(*commitment)),
            ),
            Self::queries(*final(claims)) == Self::queries(*old(claims)),
            Self::evaluations(*final(claims)) == Self::evaluations(*old(claims)),
    ;

    /// Asks for the commitment `label` at the point `point`, which is called `point_label`.
    fn insert_query(claims: &mut Self::Claims, label: &String, point_label: &String, point: F)
        ensures
            Self::commitments(*final(claims)) == Self::commitments(*old(claims)),
            Self::queries(*final(claims)) == Self::queries(*old(claims)).insert(
                (label@, (point_label@, point.value())),
            ),
            Self::evaluations(*final(claims)) == Self::evaluations(*old(claims)),
    ;

    /// Claims that the polynomial behind the commitment `label` has the given value at `point`.
    fn insert_evaluation(claims: &mut Self::Claims, label: &String, point: F, evaluation: F)
        ensures
            Self::commitments(*final(claims)) == Self::commitments(*old(claims)),
            Self::queries(*final(claims)) == Self::queries(*old(claims)),
            Self::evaluations(*final(claims)) == Self::evaluations(*old(claims)).insert(
                (label@, point.value()),
                evaluation.value(),
            ),
    ;

    /// The number of points for which the proof holds an opening.
    fn count_openings(proof: &Self::BatchProof) -> (r: usize)
        ensures
            r == Self::opening_count(*proof),
    ;

    /// Checks the claims against the openings.
    fn batch_check(
        verifier_key: &Self::VerifierKey,
        claims: &Self::Claims,
        proof: &Self::BatchProof,
        opening_challenge: F,
        rng: &mut Self::Rng,
    ) -> (r: bool)
        requires
            is_answered(
                Self::commitments(*claims),
                Self::queries(*claims),
                Self::evaluations(*claims),
            ),
            Self::opening_count(*proof) == point_labels(Self::queries(*claims)).len(),
        ensures
            r == Self::accepts(
                *verifier_key,
                Self::commitments(*claims),
                Self::queries(*claims),
                Self::evaluations(*claims),
                *proof,
                opening_challenge.value(),
                old(rng).log(),
            ),
    ;
}

/// The points of a sequence of commitments.
pub open spec fn points<F: PrimeField, PC: HomomorphicCommitment<F>>(
    commitments: Seq<PC::Commitment>,
) -> Seq<PC::Point> {
    commitments.map_values(|c: PC::Commitment| PC::point(c))
}

/// The bytes of several points, one after another.
pub open spec fn all_point_bytes<F: PrimeField, PC: HomomorphicCommitment<F>>(
    points: Seq<PC::Point>,
) -> Seq<u8>
    decreases points.len(),
{
    if points.len() == 0 {
        Seq::empty()
    } else {
        all_point_bytes::<F, PC>(points.drop_last()) + PC::point_bytes(points.last())
    }
}

/// Writes commitments as bytes, one after another.
pub fn commitments_to_bytes<F: PrimeField, PC: HomomorphicCommitment<F>>(
    commitments: &Vec<PC::Commitment>,
) -> (r: Vec<u8>)
    ensures
        r@ == all_point_bytes::<F, PC>(points::<F, PC>(commitments@)),
{
    let mut bytes: Vec<u8> = Vec::new();
    let mut i: usize = 0;
    let ghost all = points::<F, PC>(commitments@);
    assert(all.take(0) =~= Seq::<PC::Point>::empty());
    while i < commitments.len()
        invariant
            i <= commitments.len(),
            all == points::<F, PC>(commitments@),
            bytes@ == all_point_bytes::<F, PC>(all.take(i as int)),
        decreases commitments.len() - i,
    {
        let mut next = PC::to_bytes(&commitments[i]);
        bytes.append(&mut next);
        i = i + 1;
        assert(all.take(i as int).drop_last() =~= all.take(i - 1));
    }
    assert(all.take(i as int) =~= all);
    bytes
}

} // verus!
