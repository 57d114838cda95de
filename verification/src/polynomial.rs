//! Sums, geometric series and polynomials with integer coefficients, modulo `p`.
use vstd::arithmetic::power::{lemma_pow0, lemma_pow1, lemma_pow_adds, pow};
use vstd::prelude::*;

use crate::arithmetic::{
    congruent, invertible, lemma_cancel, lemma_congruent_difference, lemma_congruent_product,
    lemma_congruent_sum,
};

verus! {

/// `f(0) + f(1) + .. + f(n - 1)`.
pub open spec fn sum(n: nat, f: spec_fn(int) -> int) -> int
    decreases n,
{
    if n == 0 {
        0
    } else {
        sum((n - 1) as nat, f) + f(n - 1)
    }
}

/// The geometric series `1 + y + .. + y^(n - 1)`.
pub open spec fn geometric(y: int, n: nat) -> int {
    sum(n, |j: int| pow(y, j as nat))
}

/// The value at `x` of the polynomial whose coefficients, from the constant one upwards, are
/// `coefficients`.
pub open spec fn evaluate(coefficients: Seq<int>, x: int) -> int
    decreases coefficients.len(),
{
    if coefficients.len() == 0 {
        0
    } else {
        coefficients[0] + x * evaluate(coefficients.drop_first(), x)
    }
}

/// `(x - r_0) * (x - r_1) * ..` over all given roots.
pub open spec fn root_product(roots: Seq<int>, x: int) -> int
    decreases roots.len(),
{
    if roots.len() == 0 {
        1
    } else {
        (x - roots[0]) * root_product(roots.drop_first(), x)
    }
}

pub proof fn lemma_sum_congruent(p: int, n: nat, f: spec_fn(int) -> int, g: spec_fn(int) -> int)
    requires
        p > 0,
        forall|i: int| 0 <= i < n ==> congruent(p, #[trigger] f(i), g(i)),
    ensures
        congruent(p, sum(n, f), sum(n, g)),
    decreases n,
{
    if n > 0 {
        lemma_sum_congruent(p, (n - 1) as nat, f, g);
        assert(congruent(p, f(n - 1), g(n - 1)));
        lemma_congruent_sum(p, sum((n - 1) as nat, f), f(n - 1), sum((n - 1) as nat, g), g(n - 1));
    }
}

pub proof fn lemma_sum_equal(n: nat, f: spec_fn(int) -> int, g: spec_fn(int) -> int)
    requires
        forall|i: int| 0 <= i < n ==> #[trigger] f(i) == g(i),
    ensures
        sum(n, f) == sum(n, g),
    decreases n,
{
    if n > 0 {
        lemma_sum_equal((n - 1) as nat, f, g);
        assert(f(n - 1) == g(n - 1));
    }
}

pub proof fn lemma_sum_scaled(n: nat, c: int, f: spec_fn(int) -> int)
    ensures
        sum(n, |i: int| c * f(i)) == c * sum(n, f),
    decreases n,
{
    if n > 0 {
        lemma_sum_scaled((n - 1) as nat, c, f);
        assert(c * sum((n - 1) as nat, f) + c * f(n - 1) == c * (sum((n - 1) as nat, f) + f(n - 1)))
            by (nonlinear_arith);
    } else {
        assert(c * 0 == 0);
    }
}

pub proof fn lemma_sum_of_sums(n: nat, f: spec_fn(int) -> int, g: spec_fn(int) -> int)
    ensures
        sum(n, |i: int| f(i) + g(i)) == sum(n, f) + sum(n, g),
    decreases n,
{
    if n > 0 {
        lemma_sum_of_sums((n - 1) as nat, f, g);
    }
}

pub proof fn lemma_sum_zero(n: nat, f: spec_fn(int) -> int)
    requires
        forall|i: int| 0 <= i < n ==> #[trigger] f(i) == 0,
    ensures
        sum(n, f) == 0,
    decreases n,
{
    if n > 0 {
        lemma_sum_zero((n - 1) as nat, f);
        assert(f(n - 1) == 0);
    }
}

/// A sum of sums may be taken in either order.
pub proof fn lemma_sum_swap(n: nat, m: nat, f: spec_fn(int, int) -> int)
    ensures
        sum(n, |i: int| sum(m, |j: int| f(i, j))) == sum(m, |j: int| sum(n, |i: int| f(i, j))),
    decreases n,
{
    if n == 0 {
        lemma_sum_zero(m, |j: int| sum(0, |i: int| f(i, j)));
    } else {
        let k = (n - 1) as nat;
        lemma_sum_swap(k, m, f);
        lemma_sum_of_sums(m, |j: int| sum(k, |i: int| f(i, j)), |j: int| f(n - 1, j));
        lemma_sum_equal(
            m,
            |j: int| sum(n, |i: int| f(i, j)),
            |j: int| (|j: int| sum(k, |i: int| f(i, j)))(j) + (|j: int| f(n - 1, j))(j),
        );
        assert((|i: int| sum(m, |j: int| f(i, j)))(n - 1) == sum(m, |j: int| f(n - 1, j)));
    }
}

/// A sum of which only the term at `k` is not zero.
pub proof fn lemma_sum_single(p: int, n: nat, k: int, f: spec_fn(int) -> int)
    requires
        p > 0,
        0 <= k < n,
        forall|i: int| 0 <= i < n && i != k ==> congruent(p, #[trigger] f(i), 0),
    ensures
        congruent(p, sum(n, f), f(k)),
    decreases n,
{
    let m = (n - 1) as nat;
    if k == n - 1 {
        lemma_sum_congruent(p, m, f, |i: int| 0int);
        lemma_sum_zero(m, |i: int| 0int);
        lemma_congruent_sum(p, sum(m, f), f(k), 0, f(k));
    } else {
        lemma_sum_single(p, m, k, f);
        assert(congruent(p, f(n - 1), 0));
        lemma_congruent_sum(p, sum(m, f), f(n - 1), f(k), 0);
    }
}

/// `(y - 1) * (1 + y + .. + y^(n - 1)) = y^n - 1`.
pub proof fn lemma_geometric(y: int, n: nat)
    ensures
        (y - 1) * geometric(y, n) == pow(y, n) - 1,
    decreases n,
{
    lemma_pow0(y);
    if n == 0 {
        assert((y - 1) * 0 == 0);
    } else {
        let m = (n - 1) as nat;
        lemma_geometric(y, m);
        lemma_pow_adds(y, 1, m);
        lemma_pow1(y);
        assert(geometric(y, n) == geometric(y, m) + pow(y, m));
        assert((y - 1) * (geometric(y, m) + pow(y, m)) == (y - 1) * geometric(y, m) + y * pow(y, m)
            - pow(y, m)) by (nonlinear_arith);
    }
}

/// Appending a coefficient adds a power of `x`.
proof fn lemma_evaluate_push(coefficients: Seq<int>, c: int, x: int)
    ensures
        evaluate(coefficients.push(c), x) == evaluate(coefficients, x) + c * pow(
            x,
            coefficients.len(),
        ),
    decreases coefficients.len(),
{
    let longer = coefficients.push(c);
    lemma_pow0(x);
    if coefficients.len() == 0 {
        assert(longer.drop_first() =~= Seq::<int>::empty());
        assert(evaluate(longer.drop_first(), x) == 0);
        assert(x * 0 == 0);
        assert(c * 1 == c);
    } else {
        let rest = coefficients.drop_first();
        lemma_evaluate_push(rest, c, x);
        assert(longer.drop_first() =~= rest.push(c));
        lemma_pow_adds(x, 1, rest.len());
        lemma_pow1(x);
        let v = evaluate(rest, x);
        let q = pow(x, rest.len());
        assert(x * (v + c * q) == x * v + c * (x * q)) by (nonlinear_arith);
    }
}

/// A polynomial is the sum of its monomials.
pub proof fn lemma_evaluate_is_sum(coefficients: Seq<int>, x: int)
    ensures
        evaluate(coefficients, x) == sum(
            coefficients.len(),
            |k: int| coefficients[k] * pow(x, k as nat),
        ),
    decreases coefficients.len(),
{
    if coefficients.len() > 0 {
        let shorter = coefficients.drop_last();
        let last = coefficients.last();
        lemma_evaluate_is_sum(shorter, x);
        lemma_evaluate_push(shorter, last, x);
        assert(shorter.push(last) =~= coefficients);
        lemma_sum_equal(
            shorter.len(),
            |k: int| coefficients[k] * pow(x, k as nat),
            |k: int| shorter[k] * pow(x, k as nat),
        );
    }
}

/// The quotient of the polynomial by `X - r`, without its remainder.
spec fn divide(coefficients: Seq<int>, r: int) -> Seq<int>
    decreases coefficients.len(),
{
    if coefficients.len() <= 1 {
        Seq::empty()
    } else {
        seq![evaluate(coefficients.drop_first(), r)] + divide(coefficients.drop_first(), r)
    }
}

proof fn lemma_evaluate_constant(coefficients: Seq<int>, x: int)
    requires
        coefficients.len() == 1,
    ensures
        evaluate(coefficients, x) == coefficients[0],
{
    assert(evaluate(coefficients.drop_first(), x) == 0);
    assert(x * 0 == 0);
}

/// Division by `X - r` leaves the value at `r`, and keeps the leading coefficient.
proof fn lemma_divide(coefficients: Seq<int>, r: int, x: int)
    requires
        coefficients.len() > 0,
    ensures
        divide(coefficients, r).len() == coefficients.len() - 1,
        coefficients.len() > 1 ==> divide(coefficients, r).last() == coefficients.last(),
        evaluate(coefficients, x) == (x - r) * evaluate(divide(coefficients, r), x) + evaluate(
            coefficients,
            r,
        ),
    decreases coefficients.len(),
{
    let rest = coefficients.drop_first();
    if coefficients.len() == 1 {
        assert(evaluate(rest, x) == 0 && evaluate(rest, r) == 0);
        assert(x * 0 == 0 && r * 0 == 0 && (x - r) * 0 == 0);
    } else {
        lemma_divide(rest, r, x);
        let quotient = divide(coefficients, r);
        assert(quotient.drop_first() =~= divide(rest, r));
        let v = evaluate(rest, r);
        let q = evaluate(divide(rest, r), x);
        assert(x * ((x - r) * q + v) == (x - r) * (v + x * q) + r * v) by (nonlinear_arith);
        if coefficients.len() == 2 {
            lemma_evaluate_constant(rest, r);
        }
    }
}

/// A monic polynomial that is zero at as many points as its degree, any two of which differ
/// by something one can divide by, is the product over these points.
pub proof fn lemma_monic_is_root_product(p: int, coefficients: Seq<int>, roots: Seq<int>, x: int)
    requires
        p > 0,
        coefficients.len() == roots.len() + 1,
        coefficients.last() == 1,
        forall|i: int|
            0 <= i < roots.len() ==> congruent(p, evaluate(coefficients, #[trigger] roots[i]), 0),
        forall|i: int, j: int|
            0 <= i < j < roots.len() ==> invertible(p, #[trigger] roots[j] - #[trigger] roots[i]),
    ensures
        congruent(p, evaluate(coefficients, x), root_product(roots, x)),
    decreases roots.len(),
{
    if roots.len() == 0 {
        lemma_evaluate_constant(coefficients, x);
    } else {
        let r = roots[0];
        let others = roots.drop_first();
        let quotient = divide(coefficients, r);
        lemma_divide(coefficients, r, x);
        assert forall|i: int| 0 <= i < others.len() implies congruent(
            p,
            evaluate(quotient, #[trigger] others[i]),
            0,
        ) by {
            let s = others[i];
            assert(s == roots[i + 1]);
            lemma_divide(coefficients, r, s);
            let q = evaluate(quotient, s);
            lemma_congruent_difference(
                p,
                evaluate(coefficients, s),
                evaluate(coefficients, r),
                0,
                0,
            );
            assert((s - r) * 0 == 0);
            assert(invertible(p, roots[i + 1] - roots[0]));
            lemma_cancel(p, s - r, q, 0);
        }
        assert forall|i: int, j: int| 0 <= i < j < others.len() implies invertible(
            p,
            #[trigger] others[j] - #[trigger] others[i],
        ) by {
            assert(invertible(p, roots[j + 1] - roots[i + 1]));
        }
        lemma_monic_is_root_product(p, quotient, others, x);
        let q = evaluate(quotient, x);
        lemma_congruent_product(p, x - r, q, x - r, root_product(others, x));
        lemma_congruent_sum(
            p,
            (x - r) * q,
            evaluate(coefficients, r),
            (x - r) * root_product(others, x),
            0,
        );
    }
}

} // verus!
