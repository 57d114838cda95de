//! The claims about commitments that a proof has to open.
use vstd::prelude::*;
use vstd::string::*;

use crate::commitment::{
    is_answered, is_committed, point_labels, points, EvaluationsModel, HomomorphicCommitment,
    QueryModel,
};
use crate::field::PrimeField;
use crate::lagrange::values;

verus! {

/// The decimal digits.
pub open spec fn digits() -> Seq<char> {
    seq!['0', '1', '2', '3', '4', '5', '6', '7', '8', '9']
}

/// `n` in decimal.
pub open spec fn decimal(n: nat) -> Seq<char>
    decreases n,
{
    if n < 10 {
        seq![digits()[n as int]]
    } else {
        decimal(n / 10).push(digits()[(n % 10) as int])
    }
}

/// The label of the `i`-th of several commitments.
pub open spec fn numbered_label(prefix: Seq<char>, i: nat) -> Seq<char> {
    prefix + decimal(i)
}

proof fn lemma_decimal_injective(m: nat, n: nat)
    requires
        decimal(m) == decimal(n),
    ensures
        m == n,
    decreases m,
{
    lemma_decimal_nonempty(m / 10);
    lemma_decimal_nonempty(n / 10);
    assert(decimal(m).last() == digits()[(m % 10) as int]);
    assert(decimal(n).last() == digits()[(n % 10) as int]);
    if m >= 10 {
        assert(decimal(m).drop_last() =~= decimal(m / 10));
        assert(decimal(n).drop_last() =~= decimal(n / 10));
        lemma_decimal_injective(m / 10, n / 10);
    }
}

proof fn lemma_decimal_nonempty(n: nat)
    ensures
        decimal(n).len() > 0,
{
}

/// Different places get different labels.
pub proof fn lemma_labels_differ(prefix: Seq<char>, i: nat, j: nat)
    requires
        i != j,
    ensures
        numbered_label(prefix, i) != numbered_label(prefix, j),
{
    if numbered_label(prefix, i) == numbered_label(prefix, j) {
        let k = prefix.len() as int;
        let a = numbered_label(prefix, i);
        let b = numbered_label(prefix, j);
        assert(a.subrange(k, a.len() as int) =~= decimal(i));
        assert(b.subrange(k, b.len() as int) =~= decimal(j));
        lemma_decimal_injective(i, j);
    }
}

/// Writes `n` in decimal.
fn decimal_string(n: usize) -> (r: String)
    ensures
        r@ == decimal(n as nat),
    decreases n,
{
    let last: usize = n % 10;
    let all = "0123456789";
    proof {
        reveal_strlit("0123456789");
        assert(all@ =~= digits());
    }
    let digit = all.substring_char(last, last + 1);
    assert(digit@ =~= seq![digits()[last as int]]);
    if n < 10 {
        digit.to_owned()
    } else {
        let mut text = decimal_string(n / 10);
        text.append(digit);
        assert(text@ =~= decimal(n as nat));
        text
    }
}

/// The label of the `i`-th of several commitments.
pub fn label(prefix: &str, i: usize) -> (r: String)
    ensures
        r@ == numbered_label(prefix@, i as nat),
{
    let mut text = prefix.to_owned();
    let number = decimal_string(i);
    text.append(number.as_str());
    text
}

/// Commitments with their labels.
pub open spec fn labelled<Point>(prefix: Seq<char>, points: Seq<Point>) -> Seq<(
    Seq<char>,
    Point,
)> {
    Seq::new(points.len(), |i: int| (numbered_label(prefix, i as nat), points[i]))
}

/// The queries that ask for the first `count` labels at one point.
pub open spec fn asked_at(
    prefix: Seq<char>,
    count: nat,
    point_label: Seq<char>,
    point: int,
) -> Set<QueryModel>
    decreases count,
{
    if count == 0 {
        Set::empty()
    } else {
        asked_at(prefix, (count - 1) as nat, point_label, point).insert(
            (numbered_label(prefix, (count - 1) as nat), (point_label, point)),
        )
    }
}

/// The claims that the polynomials behind the numbered labels have the given values at one
/// point.
pub open spec fn claimed_at(
    prefix: Seq<char>,
    evaluations: Seq<int>,
    point: int,
) -> EvaluationsModel
    decreases evaluations.len(),
{
    if evaluations.len() == 0 {
        Map::empty()
    } else {
        claimed_at(prefix, evaluations.drop_last(), point).insert(
            (numbered_label(prefix, (evaluations.len() - 1) as nat), point),
            evaluations.last(),
        )
    }
}

/// What is asked at one point: the numbered labels, each once, and nothing else.
pub proof fn lemma_asked_at(
    prefix: Seq<char>,
    count: nat,
    point_label: Seq<char>,
    point: int,
    q: QueryModel,
)
    ensures
        asked_at(prefix, count, point_label, point).finite(),
        asked_at(prefix, count, point_label, point).contains(q) <==> q.1 == (point_label, point)
            && exists|i: nat| i < count && q.0 == #[trigger] numbered_label(prefix, i),
    decreases count,
{
    if count > 0 {
        let m = (count - 1) as nat;
        lemma_asked_at(prefix, m, point_label, point, q);
        if q.1 == (point_label, point) {
            if q.0 == numbered_label(prefix, m) {
                assert(q == (numbered_label(prefix, m), (point_label, point)));
            } else {
                assert forall|i: nat|
                    i < count && q.0 == #[trigger] numbered_label(prefix, i) implies i < m by {}
            }
        }
    }
}

/// What is claimed at one point: the `i`-th value under the `i`-th label.
pub proof fn lemma_claimed_at(prefix: Seq<char>, evaluations: Seq<int>, point: int, i: nat)
    requires
        i < evaluations.len(),
    ensures
        claimed_at(prefix, evaluations, point).contains_key((numbered_label(prefix, i), point)),
        claimed_at(prefix, evaluations, point)[(numbered_label(prefix, i), point)]
            == evaluations[i as int],
    decreases evaluations.len(),
{
    let m = (evaluations.len() - 1) as nat;
    if i < m {
        lemma_claimed_at(prefix, evaluations.drop_last(), point, i);
        lemma_labels_differ(prefix, i, m);
    }
}

/// Nothing is claimed under other labels.
proof fn lemma_claimed_keys(
    prefix: Seq<char>,
    evaluations: Seq<int>,
    point: int,
    key: (Seq<char>, int),
)
    ensures
        claimed_at(prefix, evaluations, point).contains_key(key) ==> exists|i: nat|
            i < evaluations.len() && key == (#[trigger] numbered_label(prefix, i), point),
    decreases evaluations.len(),
{
    if evaluations.len() > 0 {
        lemma_claimed_keys(prefix, evaluations.drop_last(), point, key);
        let m = (evaluations.len() - 1) as nat;
        assert(numbered_label(prefix, m) == numbered_label(prefix, m));
    }
}

/// Adds commitments under numbered labels, with one query and one claimed evaluation for each.
pub fn add_claims<F: PrimeField, PC: HomomorphicCommitment<F>>(
    claims: &mut PC::Claims,
    prefix: &str,
    commitments: &Vec<PC::Commitment>,
    point_label: &String,
    point: F,
    evaluations: &Vec<F>,
)
    requires
        commitments.len() == evaluations.len(),
    ensures
        PC::commitments(*final(claims)) == PC::commitments(*old(claims)) + labelled(
            prefix@,
            points::<F, PC>(commitments@),
        ),
        PC::queries(*final(claims)) == PC::queries(*old(claims)).union(
            asked_at(prefix@, commitments.len() as nat, point_label@, point.value()),
        ),
        PC::evaluations(*final(claims)) == PC::evaluations(*old(claims)).union_prefer_right(
            claimed_at(prefix@, values(evaluations@), point.value()),
        ),
{
    let ghost old_claims = *claims;
    let ghost all = labelled(prefix@, points::<F, PC>(commitments@));
    let ghost evals = values(evaluations@);
    let mut i: usize = 0;
    assert(PC::commitments(*claims) =~= PC::commitments(old_claims) + all.take(0));
    assert(PC::queries(*claims) =~= PC::queries(old_claims).union(
        asked_at(prefix@, 0, point_label@, point.value()),
    ));
    assert(PC::evaluations(*claims) =~= PC::evaluations(old_claims).union_prefer_right(
        claimed_at(prefix@, evals.take(0), point.value()),
    ));
    while i < commitments.len()
        invariant
            i <= commitments.len(),
            commitments.len() == evaluations.len(),
            all == labelled(prefix@, points::<F, PC>(commitments@)),
            evals == values(evaluations@),
            PC::commitments(*claims) == PC::commitments(old_claims) + all.take(i as int),
            PC::queries(*claims) == PC::queries(old_claims).union(
                asked_at(prefix@, i as nat, point_label@, point.value()),
            ),
            PC::evaluations(*claims) == PC::evaluations(old_claims).union_prefer_right(
                claimed_at(prefix@, evals.take(i as int), point.value()),
            ),
        decreases commitments.len() - i,
    {
        let name = label(prefix, i);
        PC::push_commitment(claims, &name, &commitments[i]);
        PC::insert_query(claims, &name, point_label, point);
        PC::insert_evaluation(claims, &name, point, evaluations[i]);
        i = i + 1;
        proof {
            assert(PC::commitments(*claims) =~= PC::commitments(old_claims) + all.take(i as int));
            assert(PC::queries(*claims) =~= PC::queries(old_claims).union(
                asked_at(prefix@, i as nat, point_label@, point.value()),
            ));
            assert(evals.take(i as int).drop_last() =~= evals.take(i - 1));
            assert(PC::evaluations(*claims) =~= PC::evaluations(old_claims).union_prefer_right(
                claimed_at(prefix@, evals.take(i as int), point.value()),
            ));
        }
    }
    assert(all.take(i as int) =~= all);
    assert(evals.take(i as int) =~= evals);
}

/// The claims under two prefixes, each at one point, are all answered, and they are about
/// two points.
pub proof fn lemma_two_points_answered<Point>(
    first: Seq<char>,
    first_points: Seq<Point>,
    first_values: Seq<int>,
    first_label: Seq<char>,
    x: int,
    second: Seq<char>,
    second_points: Seq<Point>,
    second_values: Seq<int>,
    second_label: Seq<char>,
    y: int,
)
    requires
        first_points.len() == first_values.len() > 0,
        second_points.len() == second_values.len() > 0,
        first_label != second_label,
    ensures
        ({
            let commitments = labelled(first, first_points) + labelled(second, second_points);
            let queries = asked_at(first, first_points.len(), first_label, x).union(
                asked_at(second, second_points.len(), second_label, y),
            );
            let evaluations = claimed_at(first, first_values, x).union_prefer_right(
                claimed_at(second, second_values, y),
            );
            &&& is_answered(commitments, queries, evaluations)
            &&& point_labels(queries).len() == 2
        }),
{
    let n = first_points.len();
    let m = second_points.len();
    let commitments = labelled(first, first_points) + labelled(second, second_points);
    let asked_first = asked_at(first, n, first_label, x);
    let asked_second = asked_at(second, m, second_label, y);
    let queries = asked_first.union(asked_second);
    let evaluations = claimed_at(first, first_values, x).union_prefer_right(
        claimed_at(second, second_values, y),
    );
    let q0: QueryModel = (numbered_label(first, 0), (first_label, x));
    let s0: QueryModel = (numbered_label(second, 0), (second_label, y));
    lemma_asked_at(first, n, first_label, x, q0);
    lemma_asked_at(second, m, second_label, y, s0);
    assert forall|q: QueryModel| #[trigger] queries.contains(q) implies is_committed(
        commitments,
        q.0,
    ) && evaluations.contains_key((q.0, q.1.1)) && (q.1 == (first_label, x) || q.1 == (
        second_label,
        y,
    )) by {
        lemma_asked_at(first, n, first_label, x, q);
        lemma_asked_at(second, m, second_label, y, q);
        if asked_first.contains(q) {
            let i = choose|i: nat| i < n && q.0 == #[trigger] numbered_label(first, i);
            assert(commitments[i as int].0 == q.0);
            lemma_claimed_at(first, first_values, x, i);
        } else {
            let i = choose|i: nat| i < m && q.0 == #[trigger] numbered_label(second, i);
            assert(commitments[(n + i) as int].0 == q.0);
            lemma_claimed_at(second, second_values, y, i);
        }
    }
    let labels = point_labels(queries);
    assert(queries.contains(q0) && queries.contains(s0));
    assert forall|l: Seq<char>| labels.contains(l) <==> l == first_label || l == second_label by {
        if labels.contains(l) {
            let q = choose|q: QueryModel| queries.contains(q) && q.1.0 == l;
            assert(queries.contains(q));
        }
    }
    assert(labels =~= Set::<Seq<char>>::empty().insert(first_label).insert(second_label));
}

/// Claims under prefixes that start differently do not touch each other: under each label
/// stands the evaluation that belongs to it.
pub proof fn lemma_claims_kept_apart(
    first: Seq<char>,
    first_values: Seq<int>,
    x: int,
    second: Seq<char>,
    second_values: Seq<int>,
    y: int,
    i: nat,
)
    requires
        first.len() > 0,
        second.len() > 0,
        first[0] != second[0],
    ensures
        ({
            let evaluations = claimed_at(first, first_values, x).union_prefer_right(
                claimed_at(second, second_values, y),
            );
            &&& i < first_values.len() ==> evaluations.contains_key(
                (numbered_label(first, i), x),
            ) && evaluations[(numbered_label(first, i), x)] == first_values[i as int]
            &&& i < second_values.len() ==> evaluations.contains_key(
                (numbered_label(second, i), y),
            ) && evaluations[(numbered_label(second, i), y)] == second_values[i as int]
        }),
{
    let right = claimed_at(second, second_values, y);
    if i < first_values.len() {
        let key = (numbered_label(first, i), x);
        lemma_claimed_at(first, first_values, x, i);
        lemma_claimed_keys(second, second_values, y, key);
        if right.contains_key(key) {
            let j = choose|j: nat|
                j < second_values.len() && key == (#[trigger] numbered_label(second, j), y);
            assert(numbered_label(first, i)[0] == first[0]);
            assert(numbered_label(second, j)[0] == second[0]);
        }
    }
    if i < second_values.len() {
        lemma_claimed_at(second, second_values, y, i);
    }
}

} // verus!
