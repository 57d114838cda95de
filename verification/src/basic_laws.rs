//! What the parts that a verifier is built from do.
use vstd::arithmetic::div_mod::{
    lemma_div_denominator, lemma_div_multiples_vanish, lemma_fundamental_div_mod,
    lemma_mod_multiples_vanish,
};
use vstd::arithmetic::power::{
    lemma_pow0, lemma_pow1, lemma_pow_adds, lemma_pow_multiplies, lemma_pow_positive, pow,
};
use vstd::prelude::*;

use crate::arithmetic::{
    congruent, inverse_or_zero, invertible, is_inverse, lemma_congruent_difference,
    lemma_congruent_product, lemma_congruent_sum, lemma_inverse_is, lemma_reduce_range,
    lemma_reduce_small, reduce,
};
use crate::bls12_381::{
    fr_modulus, fr_root_of_unity, lemma_domain_has_room, lemma_next_power_of_two,
    next_power_of_two, Fr,
};
use crate::byte_laws::lemma_digits;
use crate::challenges::Challenges;
use crate::commitment::{EvaluationsModel, HomomorphicCommitment, QueryModel};
use crate::domain::GeneralEvaluationDomain;
use crate::encoding::{
    lemma_le_bytes_value, lemma_le_value_range, le_value, Canonical, IoErrorKind,
    SerializationError,
};
use crate::evaluations::ProofEvaluations;
use crate::field::{le_bytes, PrimeField};
use crate::g1::{combined_exponent, fq_modulus, g1_encoding, Coordinates, G1};
use crate::interpolation::{evaluation_at, interpolates, is_outside};
use crate::kzg::{kzg_accepts, Kzg, KzgVerifierKey, Opening};
use crate::lagrange::{
    barycentric_sum, compute_barycentric_eval, compute_first_lagrange_evaluation, values,
};
use crate::polynomial::evaluate;
use crate::proof_system::Proof;
use crate::sponge::{fiat_shamir_scalar, Sponge};
use crate::transcript::{FiatShamirRng, Log};

verus! {

/// Reduction leaves the remainder, and two integers are congruent where their difference is a
/// multiple.
pub proof fn lemma_remainders(p: int, x: int, y: int)
    requires
        p > 0,
    ensures
        0 <= reduce(p, x) < p,
        exists|q: int| x == #[trigger] (p * q) + reduce(p, x),
        congruent(p, x, y) <==> exists|q: int| x - y == #[trigger] (p * q),
{
    lemma_reduce_range(p, x);
    lemma_fundamental_div_mod(x, p);
    lemma_fundamental_div_mod(y, p);
    assert(x == (p * (x / p)) + reduce(p, x));
    if congruent(p, x, y) {
        let q = x / p - y / p;
        assert(p * (x / p) - p * (y / p) == p * (x / p - y / p)) by (nonlinear_arith);
        assert(x - y == (p * q));
    }
    if exists|q: int| x - y == #[trigger] (p * q) {
        let q = choose|q: int| x - y == #[trigger] (p * q);
        lemma_mod_multiples_vanish(q, y, p);
        assert(x == p * q + y);
    }
}

/// A polynomial is the sum of its coefficients, each multiplied by a power of the point.
pub proof fn lemma_polynomials_are_sums(coefficients: Seq<int>, a: int, x: int)
    ensures
        evaluate(Seq::<int>::empty(), x) == 0,
        evaluate(coefficients.push(a), x) == evaluate(coefficients, x) + a * pow(
            x,
            coefficients.len(),
        ),
    decreases coefficients.len(),
{
    let longer = coefficients.push(a);
    lemma_pow0(x);
    if coefficients.len() == 0 {
        assert(longer.drop_first() =~= Seq::<int>::empty());
        assert(evaluate(longer.drop_first(), x) == 0);
        assert(x * 0 == 0);
    } else {
        let rest = coefficients.drop_first();
        lemma_polynomials_are_sums(rest, a, x);
        assert(longer.drop_first() =~= rest.push(a));
        assert(longer[0] == coefficients[0]);
        let e = evaluate(rest, x);
        let q = pow(x, rest.len());
        lemma_pow1(x);
        lemma_pow_adds(x, 1, rest.len());
        assert(x * (e + a * q) == x * e + a * (x * q)) by (nonlinear_arith);
    }
}

/// [`compute_barycentric_eval`] gives the value at the point of whatever polynomial takes the
/// given values on the domain, if the point is none of its elements.
pub proof fn lemma_barycentric_is_interpolation<F: PrimeField>(
    evaluations: Vec<F>,
    point: F,
    domain: GeneralEvaluationDomain<F>,
    r: F,
    coefficients: Seq<int>,
)
    requires
        call_ensures(compute_barycentric_eval::<F>, (&evaluations, point, &domain), r),
        domain.wf(),
        evaluations.len() <= domain.size,
        coefficients.len() <= domain.size,
        forall|i: int|
            0 <= i < evaluations.len() ==> evaluate(
                coefficients,
                pow(domain.group_gen.value(), i as nat),
            ) % F::modulus() == #[trigger] evaluations@[i].value(),
        forall|i: nat|
            evaluations.len() <= i < domain.size ==> evaluate(
                coefficients,
                #[trigger] pow(domain.group_gen.value(), i),
            ) % F::modulus() == 0,
        forall|i: nat|
            i < domain.size ==> point.value() % F::modulus() != #[trigger] pow(
                domain.group_gen.value(),
                i,
            ) % F::modulus(),
    ensures
        r.value() == evaluate(coefficients, point.value()) % F::modulus(),
{
    let m = F::modulus();
    let gen = domain.group_gen.value();
    let evals = values(evaluations@);
    F::lemma_value_range(point);
    lemma_reduce_small(m, 0);
    assert(interpolates(m, coefficients, evals, gen, domain.size as nat)) by {
        assert forall|i: int|
            #![trigger evaluation_at(evals, i)]
            0 <= i < domain.size implies congruent(
            m,
            evaluate(coefficients, pow(gen, i as nat)),
            evaluation_at(evals, i),
        ) by {
            if i < evaluations.len() {
                F::lemma_value_range(evaluations@[i]);
                lemma_reduce_small(m, evaluations@[i].value());
            } else {
                let j = i as nat;
                assert(evaluate(coefficients, pow(gen, j)) % m == 0);
            }
        }
    }
    assert(is_outside(m, point.value(), gen, domain.size as nat)) by {
        assert forall|i: nat| i < domain.size implies !congruent(
            m,
            point.value(),
            #[trigger] pow(gen, i),
        ) by {}
    }
}

/// One more evaluation adds its own term to what [`compute_barycentric_eval`] gives, however
/// many there are: `e (x^n - 1) / (n (omega^-k x - 1))` for the evaluation `e` at place `k`,
/// or nothing where the denominator is zero. Without evaluations, the result is zero.
pub proof fn lemma_evaluations_add_up<F: PrimeField>(
    evaluations: Vec<F>,
    more: Vec<F>,
    point: F,
    domain: GeneralEvaluationDomain<F>,
    r: F,
    more_r: F,
)
    requires
        call_ensures(compute_barycentric_eval::<F>, (&evaluations, point, &domain), r),
        call_ensures(compute_barycentric_eval::<F>, (&more, point, &domain), more_r),
        more@.len() == evaluations@.len() + 1,
        more@.drop_last() == evaluations@,
    ensures
        evaluations@.len() == 0 ==> r.value() == 0,
        ({
            let m = F::modulus();
            let x = point.value();
            let d = pow(domain.group_gen_inv.value(), evaluations@.len()) * x - 1;
            if d % m == 0 {
                more_r.value() == r.value()
            } else {
                ((more_r.value() - r.value()) * d) % m == (more@.last().value() * ((pow(
                    x,
                    domain.size as nat,
                ) - 1) * domain.size_inv.value())) % m
            }
        }),
{
    let m = F::modulus();
    let x = point.value();
    let g = domain.group_gen_inv.value();
    let n = domain.size as nat;
    let a = values(evaluations@);
    let b = values(more@);
    let k = a.len();
    let e = more@.last().value();
    let d = pow(g, k) * x - 1;
    let w = inverse_or_zero(m, d);
    let scale = (pow(x, n) - 1) * domain.size_inv.value();
    F::lemma_value_range(point);
    F::lemma_value_range(r);
    F::lemma_value_range(more_r);
    lemma_reduce_small(m, 0);
    assert(a =~= b.drop_last()) by {
        assert forall|i: int| 0 <= i < k implies a[i] == b[i] by {
            assert(more@.drop_last()[i] == evaluations@[i]);
        }
    }
    lemma_same_barycentric_sum(m, a, b, x, g, k);
    let before = barycentric_sum(m, a, x, g, k);
    assert(barycentric_sum(m, b, x, g, b.len()) == before + w * e);
    let u = before * scale;
    let v = (before + w * e) * scale;
    assert(r.value() % m == u % m) by {
        lemma_reduce_range(m, u);
    }
    assert(more_r.value() % m == v % m) by {
        lemma_reduce_range(m, v);
    }
    if k == 0 {
        assert(0 * scale == 0);
    }
    if d % m == 0 {
        assert((before + 0 * e) * scale == before * scale);
    } else {
        let t = w * e * scale;
        assert(v - u == t) by (nonlinear_arith)
            requires
                u == before * scale,
                v == (before + w * e) * scale,
                t == w * e * scale,
        ;
        lemma_congruent_difference(m, more_r.value(), r.value(), v, u);
        lemma_congruent_product(m, more_r.value() - r.value(), d, t, d);
        if e == 0 {
            assert(w * 0 * scale * d == 0 && 0 * scale == 0) by (nonlinear_arith);
        } else {
            assert(b[k as int] == e);
            assert(invertible(m, d));
            let inverse = choose|y: int| is_inverse(m, d, y);
            lemma_inverse_is(m, d, inverse);
            assert(congruent(m, d * w, 1));
            lemma_congruent_product(m, d * w, e * scale, 1, e * scale);
            assert(w * e * scale * d == (d * w) * (e * scale)) by (nonlinear_arith);
        }
    }
}

/// The sum depends on the evaluations that it is taken over alone.
proof fn lemma_same_barycentric_sum(p: int, a: Seq<int>, b: Seq<int>, x: int, g: int, k: nat)
    requires
        k <= a.len(),
        k <= b.len(),
        forall|i: int| 0 <= i < k ==> a[i] == b[i],
    ensures
        barycentric_sum(p, a, x, g, k) == barycentric_sum(p, b, x, g, k),
    decreases k,
{
    if k > 0 {
        lemma_same_barycentric_sum(p, a, b, x, g, (k - 1) as nat);
        assert(a[k - 1] == b[k - 1]);
    }
}

/// [`compute_first_lagrange_evaluation`] gives what `n (z - 1)` has to be multiplied by to
/// give the value of the vanishing polynomial.
pub proof fn lemma_first_lagrange_divides<F: PrimeField>(
    domain: GeneralEvaluationDomain<F>,
    z_h_eval: F,
    z_challenge: F,
    r: F,
)
    requires
        call_ensures(
            compute_first_lagrange_evaluation::<F>,
            (&domain, &z_h_eval, &z_challenge),
            r,
        ),
    ensures
        (r.value() * (domain.size * (z_challenge.value() - 1))) % F::modulus() == z_h_eval.value(),
{
    F::lemma_value_range(z_h_eval);
    lemma_reduce_small(F::modulus(), z_h_eval.value());
}

/// The domain for a number of coefficients over the scalar field is the smallest power of two
/// with room for them, and there is none above `2^32`.
pub proof fn lemma_domain_is_next_power_of_two(num_coeffs: nat)
    ensures
        Fr::domain_size(num_coeffs) is Some <==> num_coeffs <= 0x1_0000_0000,
        Fr::domain_size(num_coeffs) matches Some(n) ==> num_coeffs <= n && (num_coeffs > 1 ==> n < 2
            * num_coeffs) && (num_coeffs <= 1 ==> n == 1) && exists|k: nat| n == #[trigger] pow(
            2,
            k,
        ),
{
    lemma_domain_has_room(num_coeffs);
    let k = lemma_next_power_of_two(num_coeffs);
    if let Some(n) = Fr::domain_size(num_coeffs) {
        assert(n == pow(2, k));
    }
}

/// The generators of the domains over the scalar field belong together: that of the largest
/// one, of `2^32` elements, is the root of unity below, and each domain is generated by the
/// square of what generates the one of twice its size.
pub proof fn lemma_generators_belong_together(k: nat)
    requires
        k < 32,
    ensures
        Fr::domain_generator(0x1_0000_0000)
            == 0x16a2a19edfe81f20d09b681922c813b4b63683508c2280b93829971f439f0d2bint,
        ({
            let n = pow(2, k) as nat;
            let double = pow(2, k + 1) as nat;
            Fr::domain_generator(n) == (Fr::domain_generator(double) * Fr::domain_generator(
                double,
            )) % fr_modulus()
        }),
{
    let p = fr_modulus();
    let root = fr_root_of_unity();
    let half = pow(2, (31 - k) as nat);
    lemma_powers_are_kept(32);
    lemma_powers_are_kept(k);
    lemma_powers_are_kept(k + 1);
    assert(pow(2, 32) == 0x1_0000_0000) by {
        lemma_pow_multiplies(2, 8, 4);
        assert(pow(2, 8) == 256) by {
            reveal_with_fuel(pow, 9);
        }
        assert(pow(256, 4) == 0x1_0000_0000) by {
            reveal_with_fuel(pow, 5);
        }
    }
    lemma_pow1(root);
    lemma_reduce_small(p, root);
    let n = pow(2, k);
    let double = pow(2, k + 1);
    lemma_pow_positive(2, k);
    lemma_pow_positive(2, k + 1);
    lemma_pow_positive(2, (31 - k) as nat);
    lemma_pow_adds(2, k + 1, (31 - k) as nat);
    lemma_pow_adds(2, k, 1);
    lemma_pow1(2);
    assert(n * (2 * half) == (n * 2) * half) by (nonlinear_arith);
    lemma_div_multiples_vanish(half, double);
    lemma_div_multiples_vanish(2 * half, n);
    assert(0x1_0000_0000int / double == half);
    assert(0x1_0000_0000int / n == 2 * half);
    let h = half as nat;
    lemma_pow_adds(root, h, h);
    let g = pow(root, h);
    lemma_reduce_range(p, g);
    lemma_congruent_product(p, reduce(p, g), reduce(p, g), g, g);
}

/// A power of two is its own next power of two.
proof fn lemma_powers_are_kept(k: nat)
    ensures
        pow(2, k) > 0,
        next_power_of_two(pow(2, k) as nat) == pow(2, k),
    decreases k,
{
    lemma_pow_positive(2, k);
    if k == 0 {
        lemma_pow0(2);
    } else {
        let j = (k - 1) as nat;
        lemma_powers_are_kept(j);
        lemma_pow_adds(2, j, 1);
        lemma_pow1(2);
        assert((pow(2, k) + 1) / 2 == pow(2, j));
    }
}

/// Over KZG, points are multiples of a generator: sums add the multiples, scalars multiply
/// them, both modulo the order of the group, and a combination of points is the sum of the
/// products.
pub proof fn lemma_multiples_add(a: int, b: int, s: int, exponents: Seq<int>, scalars: Seq<int>)
    requires
        exponents.len() == scalars.len(),
    ensures
        Kzg::plus(a, b) == (a + b) % fr_modulus(),
        Kzg::scaled(s, a) == (s * a) % fr_modulus(),
        Kzg::neutral() == 0,
        combined_exponent(Seq::empty(), Seq::empty()) == 0,
        combined_exponent(exponents.push(a), scalars.push(s)) == (combined_exponent(
            exponents,
            scalars,
        ) + s * a) % fr_modulus(),
{
    let p = fr_modulus();
    lemma_reduce_small(p, 0);
    Kzg::lemma_combination(exponents, scalars, a, s);
    let before = combined_exponent(exponents, scalars);
    lemma_reduce_range(p, s * a);
    lemma_congruent_sum(p, before, reduce(p, s * a), before, s * a);
}

/// [`G1::multi_scalar_mul`] over points and as many scalars gives the sum of the products,
/// and one more of each adds their product.
pub proof fn lemma_combinations_grow(
    points: Vec<G1>,
    scalars: Vec<Fr>,
    more_points: Vec<G1>,
    more_scalars: Vec<Fr>,
    r: G1,
    more: G1,
)
    requires
        call_ensures(G1::multi_scalar_mul, (&points, &scalars), r),
        call_ensures(G1::multi_scalar_mul, (&more_points, &more_scalars), more),
        points@.len() == scalars@.len(),
        more_points@.len() == points@.len() + 1,
        more_scalars@.len() == scalars@.len() + 1,
        more_points@.drop_last() == points@,
        more_scalars@.drop_last() == scalars@,
    ensures
        points@.len() == 0 ==> r.exponent() == 0,
        more.exponent() == (r.exponent() + more_scalars@.last().int_value()
            * more_points@.last().exponent()) % fr_modulus(),
{
    let e = points@.map_values(|p: G1| p.exponent());
    let s = scalars@.map_values(|x: Fr| x.int_value());
    let f = more_points@.map_values(|p: G1| p.exponent());
    let t = more_scalars@.map_values(|x: Fr| x.int_value());
    lemma_multiples_add(
        more_points@.last().exponent(),
        0,
        more_scalars@.last().int_value(),
        e,
        s,
    );
    assert(f =~= e.push(more_points@.last().exponent())) by {
        assert forall|i: int| 0 <= i < e.len() implies f[i] == e[i] by {
            assert(more_points@.drop_last()[i] == points@[i]);
        }
    }
    assert(t =~= s.push(more_scalars@.last().int_value())) by {
        assert forall|i: int| 0 <= i < s.len() implies t[i] == s[i] by {
            assert(more_scalars@.drop_last()[i] == scalars@[i]);
        }
    }
    if points@.len() == 0 {
        assert(e =~= Seq::<int>::empty());
        assert(s =~= Seq::<int>::empty());
    }
}

/// The compressed encoding of a point holds its first coordinate, the lowest byte first. The
/// highest bit is set where the second coordinate is the larger of the two possible ones, and
/// the bit below it, and no other, for the point at infinity.
pub proof fn lemma_compressed_points(point: Coordinates, i: int)
    requires
        0 <= point.0 < fq_modulus(),
        0 <= i < 48,
    ensures
        g1_encoding(point).len() == 48,
        ({
            let held = if point.2 {
                pow(2, 382)
            } else if point.1 > fq_modulus() - point.1 {
                point.0 + pow(2, 383)
            } else {
                point.0
            };
            g1_encoding(point)[i] == (held / pow(256, i as nat)) % 256
        }),
{
    lemma_pow_positive(2, 382);
    lemma_pow_positive(2, 383);
    lemma_digits(point.0, 48, i);
    lemma_digits(point.0 + pow(2, 383), 48, i);
    lemma_digits(pow(2, 382), 48, i);
}

/// How an element of the scalar field is read: from 32 bytes that are the digits of a reduced
/// integer in base 256, the lowest first, that integer; from no others anything. The error is
/// that of too few bytes, that of a flag in the highest bit, or that of an integer which is not
/// reduced.
pub proof fn lemma_scalars_are_read(
    bytes: Vec<u8>,
    start: usize,
    r: Result<(Fr, usize), SerializationError>,
    value: int,
)
    requires
        call_ensures(<Fr as Canonical>::deserialize, (&bytes, start), r),
        start <= bytes.len(),
    ensures
        r matches Ok((x, end)) ==> end == start + 32 && end <= bytes.len() && bytes@.subrange(
            start as int,
            start + 32,
        ) == le_bytes(x.int_value(), 32),
        start + 32 <= bytes.len() && 0 <= value < fr_modulus() && bytes@.subrange(
            start as int,
            start + 32,
        ) == le_bytes(value, 32) ==> (r matches Ok((x, end)) && x.int_value() == value),
        start + 32 > bytes.len() <==> r == Err::<(Fr, usize), SerializationError>(
            SerializationError::IoError(IoErrorKind::UnexpectedEof),
        ),
        r is Err && start + 32 <= bytes.len() ==> r == Err::<(Fr, usize), SerializationError>(
            if bytes@[start + 31] >= 0x80 {
                SerializationError::UnexpectedFlags
            } else {
                SerializationError::IoError(IoErrorKind::Other)
            },
        ),
{
    let rest = bytes@.skip(start as int);
    if start + 32 <= bytes.len() {
        let taken = rest.take(32);
        assert(taken =~= bytes@.subrange(start as int, start + 32));
        assert(taken[31] == bytes@[start + 31]);
        if 0 <= value < fr_modulus() && taken == le_bytes(value, 32) {
            Fr::lemma_byte_len();
            lemma_le_bytes_value(value, 32);
        }
        if let Ok((x, end)) = r {
            lemma_bytes_of_value(taken);
        }
    }
}

/// Bytes are the digits of the integer that they stand for.
proof fn lemma_bytes_of_value(bytes: Seq<u8>)
    ensures
        le_bytes(le_value(bytes), bytes.len()) == bytes,
    decreases bytes.len(),
{
    let v = le_value(bytes);
    let len = bytes.len();
    if len > 0 {
        let rest = bytes.drop_first();
        let w = le_value(rest);
        lemma_bytes_of_value(rest);
        lemma_le_value_range(rest);
        assert(v == bytes[0] + 256 * w);
        assert forall|i: int| 0 <= i < len implies #[trigger] le_bytes(v, len)[i] == bytes[i] by {
            lemma_digits(v, len, i);
            if i == 0 {
                lemma_pow0(256);
                assert(v / 1 == v);
                assert((bytes[0] + 256 * w) % 256 == bytes[0]);
            } else {
                let j = (i - 1) as nat;
                lemma_digits(w, (len - 1) as nat, i - 1);
                lemma_pow1(256);
                lemma_pow_adds(256, 1, j);
                lemma_pow_positive(256, j);
                lemma_div_denominator(v, 256, pow(256, j));
                assert(v / 256 == w);
                assert(rest[i - 1] == bytes[i]);
            }
        }
    }
    assert(le_bytes(v, len) =~= bytes);
}

/// A copy of evaluations has the same evaluations, and the same labelled ones under the same
/// labels in the same order.
pub proof fn lemma_copies_are_equal<F: PrimeField>(
    e: ProofEvaluations<F>,
    r: ProofEvaluations<F>,
    i: int,
)
    requires
        call_ensures(<ProofEvaluations<F> as Clone>::clone, (&e,), r),
    ensures
        r.wire_evals == e.wire_evals,
        r.perm_evals == e.perm_evals,
        r.lookup_evals == e.lookup_evals,
        r.custom_evals.vals@.len() == e.custom_evals.vals@.len(),
        0 <= i < e.custom_evals.vals@.len() ==> r.custom_evals.vals@[i].0@
            == e.custom_evals.vals@[i].0@ && r.custom_evals.vals@[i].1
            == e.custom_evals.vals@[i].1,
{
}

/// A copy of a proof has the same commitments and labelled evaluations.
pub proof fn lemma_copies_of_proofs<F: PrimeField, PC: HomomorphicCommitment<F>>(
    p: Proof<F, PC>,
    r: Proof<F, PC>,
    i: int,
) where PC::BatchProof: Clone
    requires
        call_ensures(<Proof<F, PC> as Clone>::clone, (&p,), r),
    ensures
        r.evaluations.custom_evals.vals@.len() == p.evaluations.custom_evals.vals@.len(),
        0 <= i < p.evaluations.custom_evals.vals@.len() ==> r.evaluations.custom_evals.vals@[i].0@
            == p.evaluations.custom_evals.vals@[i].0@ && r.evaluations.custom_evals.vals@[i].1
            == p.evaluations.custom_evals.vals@[i].1,
{
}

/// The default evaluations are all zero, and none has a label.
pub proof fn lemma_default_is_zero<F: PrimeField>(r: ProofEvaluations<F>)
    requires
        call_ensures(<ProofEvaluations<F> as Default>::default, (), r),
    ensures
        r.wire_evals.a_eval.value() == 0,
        r.wire_evals.b_eval.value() == 0,
        r.wire_evals.c_eval.value() == 0,
        r.wire_evals.d_eval.value() == 0,
        r.perm_evals.left_sigma_eval.value() == 0,
        r.perm_evals.right_sigma_eval.value() == 0,
        r.perm_evals.out_sigma_eval.value() == 0,
        r.perm_evals.permutation_eval.value() == 0,
        r.lookup_evals.q_lookup_eval.value() == 0,
        r.lookup_evals.z2_next_eval.value() == 0,
        r.lookup_evals.h1_eval.value() == 0,
        r.lookup_evals.h1_next_eval.value() == 0,
        r.lookup_evals.h2_eval.value() == 0,
        r.lookup_evals.f_eval.value() == 0,
        r.lookup_evals.table_eval.value() == 0,
        r.lookup_evals.table_next_eval.value() == 0,
        r.custom_evals.vals@.len() == 0,
{
    let x = r.listed();
    assert(x[0] == 0 && x[1] == 0 && x[2] == 0 && x[3] == 0 && x[4] == 0 && x[5] == 0 && x[6] == 0
        && x[7] == 0 && x[8] == 0 && x[9] == 0 && x[10] == 0 && x[11] == 0 && x[12] == 0 && x[13]
        == 0);
}

/// [`Challenges::check_distinct`] tells whether no two of the four permutation challenges are
/// the same.
pub proof fn lemma_distinct_challenges<F: PrimeField>(c: Challenges<F>, r: bool)
    requires
        call_ensures(Challenges::<F>::check_distinct, (&c,), r),
    ensures
        !r <==> c.beta.value() == c.gamma.value() || c.beta.value() == c.delta.value()
            || c.beta.value() == c.epsilon.value() || c.gamma.value() == c.delta.value()
            || c.gamma.value() == c.epsilon.value() || c.delta.value() == c.epsilon.value(),
{
}

/// Over KZG, the verdict on openings is that of the scheme on the key, the claims, the
/// openings with all their parts, the challenge and the history of the transcript, and the
/// transcript is the one that the challenges are drawn from.
pub proof fn lemma_scheme_decides(
    key: KzgVerifierKey,
    commitments: Seq<(Seq<char>, int)>,
    queries: Set<QueryModel>,
    evaluations: EvaluationsModel,
    openings: Vec<Opening>,
    challenge: int,
    log: Log,
)
    ensures
        Kzg::accepts(key, commitments, queries, evaluations, openings, challenge, log)
            == kzg_accepts(
            key.serialized(),
            commitments,
            queries,
            evaluations,
            Seq::new(
                openings@.len(),
                |i: int|
                    (
                        openings@[i].w.coordinates(),
                        match openings@[i].random_v {
                            Some(v) => Some(v.int_value()),
                            None => None,
                        },
                    ),
            ),
            challenge,
            log,
        ),
        Kzg::opening_count(openings) == openings@.len(),
        <Sponge as FiatShamirRng<Fr>>::drawn(log) == fiat_shamir_scalar(log),
{
    let all = Seq::new(
        openings@.len(),
        |i: int|
            (
                openings@[i].w.coordinates(),
                match openings@[i].random_v {
                    Some(v) => Some(v.int_value()),
                    None => None,
                },
            ),
    );
    assert(openings@.map_values(|o: Opening| o.parts()) =~= all);
}

} // verus!
