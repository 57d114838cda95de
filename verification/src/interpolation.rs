//! What the formulas of [`crate::lagrange`] compute: values of interpolating polynomials.
use vstd::arithmetic::power::{
    lemma_pow0, lemma_pow1, lemma_pow_adds, lemma_pow_distributes, lemma_pow_multiplies, pow,
};
use vstd::prelude::*;

use crate::arithmetic::{
    congruent, inverse_of, inverse_or_zero, invertible, is_inverse, lemma_cancel,
    lemma_congruent_difference, lemma_congruent_power, lemma_congruent_product,
    lemma_congruent_sum, lemma_factor_invertible, lemma_inverse_congruent, lemma_inverse_is,
    lemma_invertible_is_nonzero,
};
use crate::field::{is_primitive_root, is_subgroup};
use crate::lagrange::{barycentric_eval, barycentric_sum, first_lagrange_denominator};
use crate::polynomial::{
    evaluate, geometric, lemma_evaluate_is_sum, lemma_geometric, lemma_monic_is_root_product,
    lemma_sum_congruent, lemma_sum_equal, lemma_sum_scaled, lemma_sum_single, lemma_sum_swap,
    root_product, sum,
};

verus! {

/// `1^e = 1`, modulo `p`.
proof fn lemma_power_of_one(p: int, a: int, e: nat)
    requires
        p > 0,
        congruent(p, a, 1),
    ensures
        congruent(p, pow(a, e), 1),
    decreases e,
{
    lemma_pow0(a);
    if e > 0 {
        lemma_power_of_one(p, a, (e - 1) as nat);
        lemma_pow_adds(a, 1, (e - 1) as nat);
        lemma_pow1(a);
        lemma_congruent_product(p, a, pow(a, (e - 1) as nat), 1, 1);
    }
}

/// Powers of an element and of its inverse undo each other.
proof fn lemma_power_inverse(p: int, g: int, h: int, e: nat)
    requires
        p > 0,
        congruent(p, g * h, 1),
    ensures
        congruent(p, pow(g, e) * pow(h, e), 1),
{
    lemma_pow_distributes(g, h, e);
    lemma_power_of_one(p, g * h, e);
}

/// `g^k * h^j = g^(k - j)` where `h` inverts `g`.
proof fn lemma_power_quotient(p: int, g: int, h: int, k: nat, j: nat)
    requires
        p > 0,
        congruent(p, g * h, 1),
        j <= k,
    ensures
        congruent(p, pow(g, k) * pow(h, j), pow(g, (k - j) as nat)),
{
    let m = (k - j) as nat;
    lemma_pow_adds(g, m, j);
    lemma_power_inverse(p, g, h, j);
    lemma_congruent_product(p, pow(g, m), pow(g, j) * pow(h, j), pow(g, m), 1);
    assert(pow(g, m) * pow(g, j) * pow(h, j) == pow(g, m) * (pow(g, j) * pow(h, j)))
        by (nonlinear_arith);
}

/// The inverse of a primitive root is a primitive root.
proof fn lemma_inverse_root(p: int, g: int, h: int, n: nat)
    requires
        p > 0,
        congruent(p, g * h, 1),
        is_primitive_root(p, g, n),
    ensures
        is_primitive_root(p, h, n),
{
    lemma_power_inverse(p, g, h, n);
    lemma_congruent_product(p, pow(g, n), pow(h, n), 1, pow(h, n));
    assert forall|m: nat| 0 < m < n implies invertible(p, #[trigger] pow(h, m) - 1) by {
        // (h^m - 1) * -g^m = g^m - 1
        lemma_power_inverse(p, g, h, m);
        assert((pow(h, m) - 1) * -pow(g, m) == pow(g, m) - pow(g, m) * pow(h, m))
            by (nonlinear_arith);
        lemma_congruent_difference(p, pow(g, m), pow(g, m) * pow(h, m), pow(g, m), 1);
        assert(invertible(p, pow(g, m) - 1));
        lemma_factor_invertible(p, pow(h, m) - 1, -pow(g, m), pow(g, m) - 1);
    }
}

/// The powers of an element other than one whose `n`-th power is one add up to zero.
proof fn lemma_roots_add_up(p: int, y: int, n: nat)
    requires
        p > 0,
        congruent(p, pow(y, n), 1),
        invertible(p, y - 1),
    ensures
        congruent(p, geometric(y, n), 0),
{
    lemma_geometric(y, n);
    lemma_congruent_difference(p, pow(y, n), 1, 1, 1);
    assert((y - 1) * 0 == 0);
    lemma_cancel(p, y - 1, geometric(y, n), 0);
}

/// The geometric series depends on the residue alone.
proof fn lemma_geometric_congruent(p: int, y: int, z: int, n: nat)
    requires
        p > 0,
        congruent(p, y, z),
    ensures
        congruent(p, geometric(y, n), geometric(z, n)),
{
    let f = |j: int| pow(y, j as nat);
    let g = |j: int| pow(z, j as nat);
    assert forall|j: int| 0 <= j < n implies congruent(p, #[trigger] f(j), g(j)) by {
        lemma_congruent_power(p, y, z, j as nat);
    }
    lemma_sum_congruent(p, n, f, g);
}

/// Different powers of a root of unity are orthogonal: the sum over `i < n` of
/// `(g^k / g^j)^i` is zero unless `k` and `j` agree.
proof fn lemma_orthogonal(p: int, g: int, h: int, n: nat, k: nat, j: nat)
    requires
        p > 0,
        congruent(p, g * h, 1),
        is_primitive_root(p, g, n),
        k < n,
        j < n,
    ensures
        congruent(p, geometric(pow(g, k) * pow(h, j), n), if k == j { n as int } else { 0 }),
{
    let y = pow(g, k) * pow(h, j);
    if k == j {
        lemma_power_inverse(p, g, h, k);
        lemma_geometric_congruent(p, y, 1, n);
        lemma_geometric_of_one(n);
    } else if j < k {
        let m = (k - j) as nat;
        lemma_power_quotient(p, g, h, k, j);
        lemma_geometric_congruent(p, y, pow(g, m), n);
        lemma_root_power(p, g, n, m);
        lemma_roots_add_up(p, pow(g, m), n);
    } else {
        let m = (j - k) as nat;
        lemma_inverse_root(p, g, h, n);
        assert(g * h == h * g) by (nonlinear_arith);
        lemma_power_quotient(p, h, g, j, k);
        assert(pow(g, k) * pow(h, j) == pow(h, j) * pow(g, k)) by (nonlinear_arith);
        lemma_geometric_congruent(p, y, pow(h, m), n);
        lemma_root_power(p, h, n, m);
        lemma_roots_add_up(p, pow(h, m), n);
    }
}

proof fn lemma_root_power(p: int, g: int, n: nat, m: nat)
    requires
        p > 0,
        is_primitive_root(p, g, n),
    ensures
        congruent(p, pow(pow(g, m), n), 1),
{
    lemma_pow_multiplies(g, m, n);
    lemma_pow_multiplies(g, n, m);
    assert(m * n == n * m) by (nonlinear_arith);
    lemma_power_of_one(p, pow(g, n), m);
}

proof fn lemma_geometric_of_one(n: nat)
    ensures
        geometric(1, n) == n,
    decreases n,
{
    if n > 0 {
        lemma_geometric_of_one((n - 1) as nat);
        vstd::arithmetic::power::lemma1_pow((n - 1) as nat);
    }
}

/// The `k`-th power of `x` is recovered from its values `g^(i k)` on the domain: the sum
/// over `i` of `g^(i k)` times the geometric series of `x / g^i` is `n * x^k`.
proof fn lemma_monomial(p: int, g: int, h: int, n: nat, k: nat, x: int)
    requires
        p > 0,
        congruent(p, g * h, 1),
        is_primitive_root(p, g, n),
        k < n,
    ensures
        congruent(
            p,
            sum(n, |i: int| pow(pow(g, i as nat), k) * geometric(pow(h, i as nat) * x, n)),
            n * pow(x, k),
        ),
{
    let f = |i: int, j: int| pow(x, j as nat) * pow(pow(g, k) * pow(h, j as nat), i as nat);
    let outer = |i: int| pow(pow(g, i as nat), k) * geometric(pow(h, i as nat) * x, n);
    // Each summand is itself a sum over j.
    assert forall|i: int| 0 <= i < n implies #[trigger] outer(i) == sum(n, |j: int| f(i, j)) by {
        let c = pow(pow(g, i as nat), k);
        let y = pow(h, i as nat) * x;
        let powers = |j: int| pow(y, j as nat);
        let scaled = |j: int| c * powers(j);
        lemma_sum_scaled(n, c, powers);
        assert forall|j: int| 0 <= j < n implies #[trigger] scaled(j) == f(i, j) by {
            lemma_pow_distributes(pow(h, i as nat), x, j as nat);
            lemma_pow_multiplies(h, i as nat, j as nat);
            lemma_pow_multiplies(h, j as nat, i as nat);
            lemma_pow_multiplies(g, i as nat, k);
            lemma_pow_multiplies(g, k, i as nat);
            assert(i * j == j * i) by (nonlinear_arith);
            assert(i * k == k * i) by (nonlinear_arith);
            lemma_pow_distributes(pow(g, k), pow(h, j as nat), i as nat);
            let a = pow(pow(g, k), i as nat);
            let b = pow(pow(h, j as nat), i as nat);
            let z = pow(x, j as nat);
            assert(a * (b * z) == z * (a * b)) by (nonlinear_arith);
        }
        lemma_sum_equal(n, scaled, |j: int| f(i, j));
    }
    lemma_sum_equal(n, outer, |i: int| sum(n, |j: int| f(i, j)));
    lemma_sum_swap(n, n, f);
    // The inner sums over i vanish but for j = k.
    let inner = |j: int| sum(n, |i: int| f(i, j));
    assert forall|j: int| 0 <= j < n implies congruent(
        p,
        #[trigger] inner(j),
        if j == k { n * pow(x, k) } else { 0 },
    ) by {
        let y = pow(g, k) * pow(h, j as nat);
        let z = pow(x, j as nat);
        let powers = |i: int| pow(y, i as nat);
        lemma_sum_scaled(n, z, powers);
        lemma_sum_equal(n, |i: int| f(i, j), |i: int| z * powers(i));
        assert(inner(j) == z * geometric(y, n));
        lemma_orthogonal(p, g, h, n, k, j as nat);
        if j == k {
            lemma_congruent_product(p, z, geometric(y, n), z, n as int);
            assert(z * n == n * z) by (nonlinear_arith);
        } else {
            lemma_congruent_product(p, z, geometric(y, n), z, 0);
            assert(z * 0 == 0);
        }
    }
    lemma_sum_single(p, n, k as int, inner);
}

/// The evaluation that belongs to the `i`-th element of the domain; those that are missing
/// count as zero.
pub open spec fn evaluation_at(evaluations: Seq<int>, i: int) -> int {
    if 0 <= i < evaluations.len() {
        evaluations[i]
    } else {
        0
    }
}

/// The polynomial with the given coefficients takes the given values on the first `n` powers
/// of `gen`, modulo `p`.
pub open spec fn interpolates(
    p: int,
    coefficients: Seq<int>,
    evaluations: Seq<int>,
    gen: int,
    n: nat,
) -> bool {
    forall|i: int|
        #![trigger evaluation_at(evaluations, i)]
        0 <= i < n ==> congruent(
            p,
            evaluate(coefficients, pow(gen, i as nat)),
            evaluation_at(evaluations, i),
        )
}

/// `x` is none of the elements `gen^i` of the domain.
pub open spec fn is_outside(p: int, x: int, gen: int, n: nat) -> bool {
    forall|i: nat| i < n ==> !congruent(p, x, #[trigger] pow(gen, i))
}

/// One can divide by the denominators of the terms that belong to evaluations other than
/// zero.
pub open spec fn has_denominators(p: int, evaluations: Seq<int>, x: int, gen_inv: int) -> bool {
    forall|i: int|
        #![trigger evaluations[i]]
        0 <= i < evaluations.len() && evaluations[i] != 0 ==> invertible(
            p,
            pow(gen_inv, i as nat) * x - 1,
        )
}

/// The denominators are not zero outside of the domain.
pub proof fn lemma_outside_denominator(p: int, x: int, n: nat, gen: int, gen_inv: int, i: nat)
    requires
        p > 1,
        congruent(p, gen * gen_inv, 1),
        is_outside(p, x, gen, n),
        i < n,
    ensures
        !congruent(p, pow(gen_inv, i) * x - 1, 0),
{
    let h = pow(gen_inv, i);
    let g = pow(gen, i);
    if congruent(p, h * x - 1, 0) {
        // x = (g * h) * x = g * (h * x) = g
        lemma_congruent_sum(p, h * x - 1, 1, 0, 1);
        lemma_congruent_product(p, g, h * x, g, 1);
        lemma_power_inverse(p, gen, gen_inv, i);
        lemma_congruent_product(p, g * h, x, 1, x);
        assert((g * h) * x == g * (h * x)) by (nonlinear_arith);
        assert(!congruent(p, x, g));
    }
}

/// `d = h^i * x - 1` divides `x^n - 1`, and the quotient is a geometric series.
proof fn lemma_denominator(p: int, h: int, n: nat, i: nat, x: int)
    requires
        p > 1,
        is_primitive_root(p, h, n),
        invertible(p, pow(h, i) * x - 1),
    ensures
        congruent(
            p,
            inverse_or_zero(p, pow(h, i) * x - 1) * (pow(x, n) - 1),
            geometric(pow(h, i) * x, n),
        ),
{
    let y = pow(h, i) * x;
    let d = y - 1;
    let s = geometric(y, n);
    lemma_geometric(y, n);
    lemma_pow_distributes(pow(h, i), x, n);
    lemma_root_power(p, h, n, i);
    lemma_congruent_product(p, pow(pow(h, i), n), pow(x, n), 1, pow(x, n));
    lemma_congruent_difference(p, pow(y, n), 1, pow(x, n), 1);
    let w = inverse_of(p, d);
    assert(is_inverse(p, d, w));
    lemma_invertible_is_nonzero(p, d, w);
    // w * (x^n - 1) = w * (d * s) = s
    lemma_congruent_product(p, w, d * s, w, pow(x, n) - 1);
    lemma_congruent_product(p, d * w, s, 1, s);
    assert(w * (d * s) == (d * w) * s) by (nonlinear_arith);
}

proof fn lemma_barycentric_sum(p: int, evaluations: Seq<int>, x: int, h: int, k: nat)
    ensures
        barycentric_sum(p, evaluations, x, h, k) == sum(
            k,
            |i: int| inverse_or_zero(p, pow(h, i as nat) * x - 1) * evaluations[i],
        ),
    decreases k,
{
    if k > 0 {
        lemma_barycentric_sum(p, evaluations, x, h, (k - 1) as nat);
    }
}

/// The barycentric formula, with the division carried out.
proof fn lemma_barycentric_series(
    p: int,
    evaluations: Seq<int>,
    x: int,
    n: nat,
    size_inv: int,
    h: int,
)
    requires
        p > 1,
        is_primitive_root(p, h, n),
        has_denominators(p, evaluations, x, h),
        evaluations.len() <= n,
    ensures
        congruent(
            p,
            barycentric_eval(p, evaluations, x, n, size_inv, h),
            size_inv * sum(
                n,
                |i: int| evaluation_at(evaluations, i) * geometric(pow(h, i as nat) * x, n),
            ),
        ),
{
    let z = pow(x, n) - 1;
    let terms = |i: int| inverse_or_zero(p, pow(h, i as nat) * x - 1) * evaluations[i];
    let scaled = |i: int| z * terms(i);
    let series = |i: int| evaluation_at(evaluations, i) * geometric(pow(h, i as nat) * x, n);
    let len = evaluations.len();
    lemma_barycentric_sum(p, evaluations, x, h, len);
    lemma_sum_scaled(len, z, terms);
    assert forall|i: int| 0 <= i < len implies congruent(p, #[trigger] scaled(i), series(i)) by {
        let w = inverse_or_zero(p, pow(h, i as nat) * x - 1);
        let e = evaluations[i];
        let s = geometric(pow(h, i as nat) * x, n);
        assert(z * (w * e) == e * (w * z)) by (nonlinear_arith);
        if e == 0 {
            assert(e * (w * z) == 0 && e * s == 0);
        } else {
            lemma_denominator(p, h, n, i as nat, x);
            lemma_congruent_product(p, e, w * z, e, s);
        }
    }
    lemma_sum_congruent(p, len, scaled, series);
    lemma_sum_padded(len, n, series);
    let total = sum(len, terms);
    lemma_congruent_product(p, size_inv, z * total, size_inv, sum(n, series));
    assert(total * (z * size_inv) == size_inv * (z * total)) by (nonlinear_arith);
}

/// Terms that are zero may be added at the end of a sum.
proof fn lemma_sum_padded(len: nat, n: nat, f: spec_fn(int) -> int)
    requires
        len <= n,
        forall|i: int| len <= i < n ==> #[trigger] f(i) == 0,
    ensures
        sum(n, f) == sum(len, f),
    decreases n,
{
    if len < n {
        lemma_sum_padded(len, (n - 1) as nat, f);
        assert(f(n - 1) == 0);
    }
}

/// The barycentric formula evaluates the polynomial that is given by its values on the
/// domain: whatever polynomial of degree below `n` takes the given values there, its value at
/// `x` is the value of the formula at `x`. Where `x` is an element of the domain, there is a
/// denominator that one cannot divide by.
pub proof fn lemma_barycentric_interpolates(
    p: int,
    evaluations: Seq<int>,
    coefficients: Seq<int>,
    x: int,
    n: nat,
    size_inv: int,
    gen: int,
    gen_inv: int,
)
    requires
        p > 1,
        is_subgroup(p, n, size_inv, gen, gen_inv),
        has_denominators(p, evaluations, x, gen_inv),
        evaluations.len() <= n,
        coefficients.len() <= n,
        interpolates(p, coefficients, evaluations, gen, n),
    ensures
        congruent(
            p,
            barycentric_eval(p, evaluations, x, n, size_inv, gen_inv),
            evaluate(coefficients, x),
        ),
{
    let h = gen_inv;
    let len = coefficients.len();
    let terms = |k: int| coefficients[k] * pow(x, k as nat);
    lemma_inverse_root(p, gen, h, n);
    lemma_barycentric_series(p, evaluations, x, n, size_inv, h);
    let series = |i: int| evaluation_at(evaluations, i) * geometric(pow(h, i as nat) * x, n);
    // Put the polynomial's value in place of each evaluation.
    let f = |i: int, k: int|
        coefficients[k] * (pow(pow(gen, i as nat), k as nat) * geometric(pow(h, i as nat) * x, n));
    let rows = |i: int| sum(len, |k: int| f(i, k));
    assert forall|i: int| 0 <= i < n implies congruent(p, #[trigger] series(i), rows(i)) by {
        let g = pow(gen, i as nat);
        let s = geometric(pow(h, i as nat) * x, n);
        let powers = |k: int| coefficients[k] * pow(g, k as nat);
        lemma_evaluate_is_sum(coefficients, g);
        lemma_sum_scaled(len, s, powers);
        assert forall|k: int| 0 <= k < len implies #[trigger] (s * powers(k)) == f(i, k) by {
            let c = coefficients[k];
            let gk = pow(g, k as nat);
            assert(s * (c * gk) == c * (gk * s)) by (nonlinear_arith);
        }
        lemma_sum_equal(len, |k: int| s * powers(k), |k: int| f(i, k));
        let e = evaluation_at(evaluations, i);
        lemma_congruent_product(p, evaluate(coefficients, g), s, e, s);
        let v = evaluate(coefficients, g);
        assert(v * s == s * v) by (nonlinear_arith);
    }
    lemma_sum_congruent(p, n, series, rows);
    lemma_sum_swap(n, len, f);
    // Sum over the domain first: every power of x comes back n times.
    let columns = |k: int| sum(n, |i: int| f(i, k));
    let scaled = |k: int| n * terms(k);
    assert forall|k: int| 0 <= k < len implies congruent(p, #[trigger] columns(k), scaled(k)) by {
        let c = coefficients[k];
        let inner = |i: int|
            pow(pow(gen, i as nat), k as nat) * geometric(pow(h, i as nat) * x, n);
        lemma_sum_scaled(n, c, inner);
        lemma_sum_equal(n, |i: int| f(i, k), |i: int| c * inner(i));
        lemma_monomial(p, gen, h, n, k as nat, x);
        lemma_congruent_product(p, c, sum(n, inner), c, n * pow(x, k as nat));
        let xk = pow(x, k as nat);
        assert(c * (n * xk) == n * (c * xk)) by (nonlinear_arith);
    }
    lemma_sum_congruent(p, len, columns, scaled);
    lemma_sum_scaled(len, n as int, terms);
    lemma_evaluate_is_sum(coefficients, x);
    let total = sum(len, terms);
    lemma_congruent_product(p, size_inv, sum(n, series), size_inv, n * total);
    lemma_congruent_product(p, n * size_inv, total, 1, total);
    assert(size_inv * (n * total) == (n * size_inv) * total) by (nonlinear_arith);
}

/// The coefficients of the polynomial of degree below `n` that takes the given values on the
/// domain.
pub open spec fn interpolation(
    evaluations: Seq<int>,
    n: nat,
    size_inv: int,
    gen_inv: int,
) -> Seq<int> {
    Seq::new(
        n,
        |k: int|
            size_inv * sum(
                n,
                |j: int| evaluation_at(evaluations, j) * pow(pow(gen_inv, j as nat), k as nat),
            ),
    )
}

/// For all values on the domain there is a polynomial of degree below `n` that takes them.
pub proof fn lemma_interpolation_exists(
    p: int,
    evaluations: Seq<int>,
    n: nat,
    size_inv: int,
    gen: int,
    gen_inv: int,
)
    requires
        p > 1,
        is_subgroup(p, n, size_inv, gen, gen_inv),
    ensures
        interpolation(evaluations, n, size_inv, gen_inv).len() == n,
        interpolates(
            p,
            interpolation(evaluations, n, size_inv, gen_inv),
            evaluations,
            gen,
            n,
        ),
{
    let h = gen_inv;
    let c = interpolation(evaluations, n, size_inv, h);
    assert forall|i: int|
        #![trigger evaluation_at(evaluations, i)]
        0 <= i < n implies congruent(
        p,
        evaluate(c, pow(gen, i as nat)),
        evaluation_at(evaluations, i),
    ) by {
        let x = pow(gen, i as nat);
        lemma_evaluate_is_sum(c, x);
        let f = |k: int, j: int|
            evaluation_at(evaluations, j) * (pow(pow(h, j as nat), k as nat) * pow(x, k as nat));
        let terms = |k: int| c[k] * pow(x, k as nat);
        let rows = |k: int| sum(n, |j: int| f(k, j));
        let scaled = |k: int| size_inv * rows(k);
        assert forall|k: int| 0 <= k < n implies #[trigger] terms(k) == scaled(k) by {
            let xk = pow(x, k as nat);
            let inner = |j: int|
                evaluation_at(evaluations, j) * pow(pow(h, j as nat), k as nat);
            lemma_sum_scaled(n, xk, inner);
            let left = |j: int| xk * inner(j);
            assert forall|j: int| 0 <= j < n implies #[trigger] left(j) == f(k, j) by {
                let e = evaluation_at(evaluations, j);
                let hk = pow(pow(h, j as nat), k as nat);
                assert(xk * (e * hk) == e * (hk * xk)) by (nonlinear_arith);
            }
            lemma_sum_equal(n, left, |j: int| f(k, j));
            let s = sum(n, inner);
            assert((size_inv * s) * xk == size_inv * (xk * s)) by (nonlinear_arith);
        }
        lemma_sum_equal(n, terms, scaled);
        lemma_sum_scaled(n, size_inv, rows);
        lemma_sum_swap(n, n, f);
        let columns = |j: int| sum(n, |k: int| f(k, j));
        assert forall|j: int| 0 <= j < n implies congruent(
            p,
            #[trigger] columns(j),
            if j == i { n * evaluation_at(evaluations, i) } else { 0 },
        ) by {
            let e = evaluation_at(evaluations, j);
            let y = pow(gen, i as nat) * pow(h, j as nat);
            let powers = |k: int| pow(y, k as nat);
            lemma_sum_scaled(n, e, powers);
            let left = |k: int| e * powers(k);
            assert forall|k: int| 0 <= k < n implies #[trigger] left(k) == f(k, j) by {
                lemma_pow_distributes(x, pow(h, j as nat), k as nat);
                let hk = pow(pow(h, j as nat), k as nat);
                let xk = pow(x, k as nat);
                assert(xk * hk == hk * xk) by (nonlinear_arith);
            }
            lemma_sum_equal(n, left, |k: int| f(k, j));
            lemma_orthogonal(p, gen, h, n, i as nat, j as nat);
            if i == j {
                lemma_congruent_product(p, e, geometric(y, n), e, n as int);
                assert(e * n == n * e) by (nonlinear_arith);
            } else {
                lemma_congruent_product(p, e, geometric(y, n), e, 0);
                assert(e * 0 == 0);
            }
        }
        lemma_sum_single(p, n, i, columns);
        let e = evaluation_at(evaluations, i);
        let total = sum(n, rows);
        assert(congruent(p, columns(i), n * e));
        lemma_congruent_product(p, size_inv, total, size_inv, n * e);
        lemma_congruent_product(p, n * size_inv, e, 1, e);
        assert(size_inv * (n * e) == (n * size_inv) * e) by (nonlinear_arith);
    }
}

/// The elements of the domain but the first, which is one.
pub open spec fn other_elements(gen: int, n: nat) -> Seq<int> {
    Seq::new((n - 1) as nat, |i: int| pow(gen, (i + 1) as nat))
}

/// Two different powers of a root of unity differ by something one can divide by.
proof fn lemma_powers_differ(p: int, g: int, h: int, n: nat, i: nat, j: nat)
    requires
        p > 0,
        congruent(p, g * h, 1),
        is_primitive_root(p, g, n),
        i < j < n,
    ensures
        invertible(p, pow(g, j) - pow(g, i)),
{
    // (g^j - g^i) * h^i = g^(j - i) - 1
    let m = (j - i) as nat;
    lemma_power_quotient(p, g, h, j, i);
    lemma_power_inverse(p, g, h, i);
    lemma_congruent_difference(
        p,
        pow(g, j) * pow(h, i),
        pow(g, i) * pow(h, i),
        pow(g, m),
        1,
    );
    assert((pow(g, j) - pow(g, i)) * pow(h, i) == pow(g, j) * pow(h, i) - pow(g, i) * pow(h, i))
        by (nonlinear_arith);
    assert(invertible(p, pow(g, m) - 1));
    lemma_factor_invertible(p, pow(g, j) - pow(g, i), pow(h, i), pow(g, m) - 1);
}

/// The product of `x - omega^i` over the elements `omega^i` of the domain but one is the
/// geometric series.
proof fn lemma_other_elements(p: int, n: nat, gen: int, gen_inv: int, x: int)
    requires
        p > 1,
        n > 0,
        congruent(p, gen * gen_inv, 1),
        is_primitive_root(p, gen, n),
    ensures
        congruent(p, root_product(other_elements(gen, n), x), geometric(x, n)),
{
    let ones = Seq::new(n, |k: int| 1int);
    let roots = other_elements(gen, n);
    assert forall|y: int| #[trigger] evaluate(ones, y) == geometric(y, n) by {
        lemma_evaluate_is_sum(ones, y);
        let monomials = |k: int| ones[k] * pow(y, k as nat);
        assert forall|k: int| 0 <= k < n implies #[trigger] monomials(k) == pow(y, k as nat) by {
            assert(1 * pow(y, k as nat) == pow(y, k as nat));
        }
        lemma_sum_equal(n, monomials, |k: int| pow(y, k as nat));
    }
    assert forall|i: int| 0 <= i < roots.len() implies congruent(
        p,
        evaluate(ones, #[trigger] roots[i]),
        0,
    ) by {
        let m = (i + 1) as nat;
        lemma_root_power(p, gen, n, m);
        assert(invertible(p, pow(gen, m) - 1));
        lemma_roots_add_up(p, pow(gen, m), n);
    }
    assert forall|i: int, j: int| 0 <= i < j < roots.len() implies invertible(
        p,
        #[trigger] roots[j] - #[trigger] roots[i],
    ) by {
        lemma_powers_differ(p, gen, gen_inv, n, (i + 1) as nat, (j + 1) as nat);
    }
    lemma_monic_is_root_product(p, ones, roots, x);
}

/// `mul_from_1_to_(n-1) [(X - omega^i)] = (X^n - 1) / (X - 1)`, for all `X`.
pub proof fn lemma_domain_root_product(p: int, n: nat, gen: int, gen_inv: int, x: int)
    requires
        p > 1,
        n > 0,
        congruent(p, gen * gen_inv, 1),
        is_primitive_root(p, gen, n),
    ensures
        congruent(p, (x - 1) * root_product(other_elements(gen, n), x), pow(x, n) - 1),
{
    lemma_other_elements(p, n, gen, gen_inv, x);
    lemma_geometric(x, n);
    lemma_congruent_product(
        p,
        x - 1,
        root_product(other_elements(gen, n), x),
        x - 1,
        geometric(x, n),
    );
}

/// `mul_from_1_to_(n-1) [(1 - omega^i)] = n`.
pub proof fn lemma_domain_size_product(p: int, n: nat, gen: int, gen_inv: int)
    requires
        p > 1,
        n > 0,
        congruent(p, gen * gen_inv, 1),
        is_primitive_root(p, gen, n),
    ensures
        congruent(p, root_product(other_elements(gen, n), 1), n as int),
{
    lemma_other_elements(p, n, gen, gen_inv, 1);
    lemma_geometric_of_one(n);
}

/// The value that [`crate::lagrange::compute_first_lagrange_evaluation`] returns is that of
/// the first Lagrange polynomial: `mul_from_1_to_(n-1) [(x - omega^i) / (1 - omega^i)]`.
pub proof fn lemma_first_lagrange_is_product(
    p: int,
    n: nat,
    size_inv: int,
    gen: int,
    gen_inv: int,
    z_h: int,
    x: int,
)
    requires
        p > 1,
        is_subgroup(p, n, size_inv, gen, gen_inv),
        congruent(p, z_h, pow(x, n) - 1),
        invertible(p, first_lagrange_denominator(n as int, x)),
    ensures
        congruent(
            p,
            z_h * inverse_of(p, first_lagrange_denominator(n as int, x)),
            root_product(other_elements(gen, n), x) * inverse_of(
                p,
                root_product(other_elements(gen, n), 1),
            ),
        ),
{
    let r = root_product(other_elements(gen, n), x);
    let s = root_product(other_elements(gen, n), 1);
    lemma_domain_root_product(p, n, gen, gen_inv, x);
    lemma_domain_size_product(p, n, gen, gen_inv);
    lemma_inverse_congruent(p, n as int, s, size_inv);
    lemma_inverse_is(p, s, size_inv);
    let d = first_lagrange_denominator(n as int, x);
    let w = inverse_of(p, d);
    assert(is_inverse(p, d, w));
    lemma_shifted_inverse(p, n, size_inv, x);
    lemma_congruent_product(p, z_h, w, (x - 1) * r, w);
    lemma_congruent_product(p, (x - 1) * w, r, size_inv, r);
    assert(((x - 1) * r) * w == ((x - 1) * w) * r) by (nonlinear_arith);
    assert(size_inv * r == r * size_inv) by (nonlinear_arith);
}

/// `(x - 1) / (n * (x - 1)) = 1 / n`.
proof fn lemma_shifted_inverse(p: int, n: nat, size_inv: int, x: int)
    requires
        p > 1,
        is_inverse(p, n as int, size_inv),
        invertible(p, first_lagrange_denominator(n as int, x)),
    ensures
        congruent(
            p,
            (x - 1) * inverse_of(p, first_lagrange_denominator(n as int, x)),
            size_inv,
        ),
{
    let d = first_lagrange_denominator(n as int, x);
    let w = inverse_of(p, d);
    assert(is_inverse(p, d, w));
    lemma_congruent_product(p, size_inv, d * w, size_inv, 1);
    lemma_congruent_product(p, n * size_inv, (x - 1) * w, 1, (x - 1) * w);
    assert(size_inv * ((n * (x - 1)) * w) == (n * size_inv) * ((x - 1) * w)) by (nonlinear_arith);
}

/// The first Lagrange polynomial is the one that takes the value one at the first element of
/// the domain and zero at the others: [`crate::lagrange::compute_first_lagrange_evaluation`]
/// and [`crate::lagrange::compute_barycentric_eval`] agree on it.
pub proof fn lemma_first_lagrange_is_barycentric(
    p: int,
    n: nat,
    size_inv: int,
    gen_inv: int,
    z_h: int,
    x: int,
)
    requires
        p > 1,
        is_inverse(p, n as int, size_inv),
        congruent(p, z_h, pow(x, n) - 1),
        invertible(p, first_lagrange_denominator(n as int, x)),
    ensures
        congruent(
            p,
            z_h * inverse_of(p, first_lagrange_denominator(n as int, x)),
            barycentric_eval(p, seq![1], x, n, size_inv, gen_inv),
        ),
{
    let d = first_lagrange_denominator(n as int, x);
    let w = inverse_of(p, d);
    assert(is_inverse(p, d, w));
    lemma_pow0(gen_inv);
    reveal_with_fuel(barycentric_sum, 2);
    let v = inverse_or_zero(p, pow(gen_inv, 0) * x - 1);
    assert(1 * x - 1 == x - 1);
    assert((x - 1) * n == d) by (nonlinear_arith)
        requires
            d == n * (x - 1),
    ;
    lemma_factor_invertible(p, x - 1, n as int, d);
    assert(is_inverse(p, x - 1, inverse_of(p, x - 1)));
    lemma_invertible_is_nonzero(p, x - 1, inverse_of(p, x - 1));
    let z = pow(x, n) - 1;
    assert(barycentric_sum(p, seq![1], x, gen_inv, 1) == v * 1);
    // w = (v * (x - 1)) * w = v * ((x - 1) * w) = v * size_inv
    lemma_shifted_inverse(p, n, size_inv, x);
    lemma_congruent_product(p, (x - 1) * v, w, 1, w);
    lemma_congruent_product(p, v, (x - 1) * w, v, size_inv);
    assert(((x - 1) * v) * w == v * ((x - 1) * w)) by (nonlinear_arith);
    lemma_congruent_product(p, z_h, w, z, v * size_inv);
    assert(z * (v * size_inv) == v * (z * size_inv)) by (nonlinear_arith);
}

} // verus!
