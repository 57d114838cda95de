//! What the constant part of the linearisation is made of.
use vstd::arithmetic::power::pow;
use vstd::prelude::*;

use crate::arithmetic::{
    congruent, lemma_congruent_difference, lemma_reduce_range, lemma_reduce_small, reduce,
};
use crate::commitment::HomomorphicCommitment;
use crate::domain::GeneralEvaluationDomain;
use crate::field::PrimeField;
use crate::interpolation::{evaluation_at, interpolates, lemma_barycentric_interpolates};
use crate::lagrange::{barycentric_eval, compute_barycentric_eval, values};
use crate::polynomial::evaluate;
use crate::proof_system::Proof;

verus! {

/// A difference of two values of the same expression in three unknowns.
proof fn lemma_expression_differs(
    pi: int,
    k: int,
    w: int,
    alpha: int,
    s: int,
    u: int,
    v: int,
    l: int,
    z: int,
    y: int,
    m: int,
    x: int,
    t: int,
)
    ensures
        (pi - k * (w * z * alpha) - l * (alpha * alpha) - (s * s) * y * u * v - (s * s) * s * l) - (
        pi - k * (w * x * alpha) - m * (alpha * alpha) - (s * s) * t * u * v - (s * s) * s * m)
            == -((l - m) * (alpha * alpha + s * s * s) + (z - x) * (alpha * (k * w)) + (y - t) * (
        s * s * (u * v))),
{
    let t1 = alpha * w;
    let c1 = alpha * (k * w);
    assert(w * z * alpha == z * t1) by (nonlinear_arith)
        requires
            t1 == alpha * w,
    ;
    assert(w * x * alpha == x * t1) by (nonlinear_arith)
        requires
            t1 == alpha * w,
    ;
    assert(k * (z * t1) == z * (k * t1)) by (nonlinear_arith);
    assert(k * (x * t1) == x * (k * t1)) by (nonlinear_arith);
    assert(k * t1 == c1) by (nonlinear_arith)
        requires
            t1 == alpha * w,
            c1 == alpha * (k * w),
    ;
    assert(z * c1 - x * c1 == (z - x) * c1) by (nonlinear_arith);
    let q = s * s;
    let c2 = q * (u * v);
    lemma_factor_moves(q, y, u, v);
    lemma_factor_moves(q, t, u, v);
    assert(y * c2 - t * c2 == (y - t) * c2) by (nonlinear_arith);
    let a = alpha * alpha;
    let b = q * s;
    assert(l * a + b * l - m * a - b * m == (l - m) * (a + b)) by (nonlinear_arith);
}

proof fn lemma_factor_moves(q: int, y: int, u: int, v: int)
    ensures
        q * y * u * v == y * (q * (u * v)),
{
    let r = u * v;
    assert(q * y * u * v == (q * y) * r) by (nonlinear_arith)
        requires
            r == u * v,
    ;
    assert((q * y) * r == y * (q * r)) by (nonlinear_arith);
}

/// Two calls of [`Proof::compute_r0`] that differ in the values of the first Lagrange
/// polynomial, of the permutation polynomial and of the lookup permutation polynomial differ
/// by these differences, each multiplied by what stands before it: `alpha^2 + s^3` for the
/// first, and the factors of the permutation and of the lookup argument for the others.
pub proof fn lemma_r0_differences<F: PrimeField, PC: HomomorphicCommitment<F>>(
    proof: Proof<F, PC>,
    domain: GeneralEvaluationDomain<F>,
    pub_inputs: Vec<F>,
    alpha: F,
    beta: F,
    gamma: F,
    delta: F,
    epsilon: F,
    z_challenge: F,
    l1_eval: F,
    z_hat_eval: F,
    z2_next_eval: F,
    h1_next_eval: F,
    h2_eval: F,
    s: F,
    other_l1_eval: F,
    other_z_hat_eval: F,
    other_z2_next_eval: F,
    r: F,
    other_r: F,
)
    requires
        call_ensures(
            Proof::<F, PC>::compute_r0,
            (
                &proof,
                &domain,
                &pub_inputs,
                alpha,
                beta,
                gamma,
                delta,
                epsilon,
                z_challenge,
                l1_eval,
                z_hat_eval,
                z2_next_eval,
                h1_next_eval,
                h2_eval,
                s,
            ),
            r,
        ),
        call_ensures(
            Proof::<F, PC>::compute_r0,
            (
                &proof,
                &domain,
                &pub_inputs,
                alpha,
                beta,
                gamma,
                delta,
                epsilon,
                z_challenge,
                other_l1_eval,
                other_z_hat_eval,
                other_z2_next_eval,
                h1_next_eval,
                h2_eval,
                s,
            ),
            other_r,
        ),
    ensures
        ({
            let wires = proof.evaluations.wire_evals;
            let sigmas = proof.evaluations.perm_evals;
            let a = wires.a_eval.value() + beta.value() * sigmas.left_sigma_eval.value()
                + gamma.value();
            let b = wires.b_eval.value() + beta.value() * sigmas.right_sigma_eval.value()
                + gamma.value();
            let c = wires.c_eval.value() + beta.value() * sigmas.out_sigma_eval.value()
                + gamma.value();
            let d = wires.d_eval.value() + gamma.value();
            let shift = epsilon.value() * (1 + delta.value());
            let u = shift + delta.value() * h2_eval.value();
            let v = shift + h2_eval.value() + delta.value() * h1_next_eval.value();
            (r.value() - other_r.value()) % F::modulus() == (-((l1_eval.value()
                - other_l1_eval.value()) * (alpha.value() * alpha.value() + s.value() * s.value()
                * s.value()) + (z_hat_eval.value() - other_z_hat_eval.value()) * (alpha.value() * (a
                * b * c * d)) + (z2_next_eval.value() - other_z2_next_eval.value()) * (s.value()
                * s.value() * (u * v)))) % F::modulus()
        }),
{
    let p = F::modulus();
    let wires = proof.evaluations.wire_evals;
    let sigmas = proof.evaluations.perm_evals;
    let a = wires.a_eval.value() + beta.value() * sigmas.left_sigma_eval.value() + gamma.value();
    let b = wires.b_eval.value() + beta.value() * sigmas.right_sigma_eval.value() + gamma.value();
    let c = wires.c_eval.value() + beta.value() * sigmas.out_sigma_eval.value() + gamma.value();
    let d = wires.d_eval.value() + gamma.value();
    let shift = epsilon.value() * (1 + delta.value());
    let u = shift + delta.value() * h2_eval.value();
    let v = shift + h2_eval.value() + delta.value() * h1_next_eval.value();
    let pi = barycentric_eval(
        p,
        values(pub_inputs@),
        z_challenge.value(),
        domain.size as nat,
        domain.size_inv.value(),
        domain.group_gen_inv.value(),
    );
    let k = a * b * c;
    let t = s.value();
    let l = l1_eval.value();
    let m = other_l1_eval.value();
    let al = alpha.value();
    let e = pi - k * (d * z_hat_eval.value() * al) - l * (al * al) - (t * t) * z2_next_eval.value()
        * u * v - (t * t) * t * l;
    let f = pi - k * (d * other_z_hat_eval.value() * al) - m * (al * al) - (t * t)
        * other_z2_next_eval.value() * u * v - (t * t) * t * m;
    assert(r.value() % p == e % p);
    assert(other_r.value() % p == f % p);
    F::lemma_value_range(r);
    lemma_congruent_difference(p, r.value(), other_r.value(), e, f);
    lemma_expression_differs(
        pi,
        k,
        d,
        al,
        t,
        u,
        v,
        l,
        z_hat_eval.value(),
        z2_next_eval.value(),
        m,
        other_z_hat_eval.value(),
        other_z2_next_eval.value(),
    );
    assert(k * d == a * b * c * d);
}

/// Where the first Lagrange polynomial and both permutation polynomials are zero,
/// [`Proof::compute_r0`] gives the value of the public input polynomial: for whatever
/// polynomial `coefficients` takes the public inputs on the domain, its value at the
/// evaluation point if that is outside of the domain, and zero if it is in the domain.
pub proof fn lemma_r0_of_public_inputs<F: PrimeField, PC: HomomorphicCommitment<F>>(
    proof: Proof<F, PC>,
    domain: GeneralEvaluationDomain<F>,
    pub_inputs: Vec<F>,
    alpha: F,
    beta: F,
    gamma: F,
    delta: F,
    epsilon: F,
    z_challenge: F,
    zero: F,
    h1_next_eval: F,
    h2_eval: F,
    s: F,
    r: F,
    coefficients: Seq<int>,
)
    requires
        call_ensures(
            Proof::<F, PC>::compute_r0,
            (
                &proof,
                &domain,
                &pub_inputs,
                alpha,
                beta,
                gamma,
                delta,
                epsilon,
                z_challenge,
                zero,
                zero,
                zero,
                h1_next_eval,
                h2_eval,
                s,
            ),
            r,
        ),
        zero.value() == 0,
        domain.wf(),
        pub_inputs.len() <= domain.size,
        coefficients.len() <= domain.size,
        forall|i: int|
            #![trigger pow(domain.group_gen.value(), i as nat)]
            0 <= i < domain.size ==> evaluate(coefficients, pow(domain.group_gen.value(), i as nat))
                % F::modulus() == (if i < pub_inputs.len() {
                pub_inputs[i].value()
            } else {
                0
            }) % F::modulus(),
    ensures
        (forall|i: int|
            #![trigger pow(domain.group_gen.value(), i as nat)]
            0 <= i < domain.size ==> z_challenge.value() % F::modulus() != pow(
                domain.group_gen.value(),
                i as nat,
            ) % F::modulus()) ==> r.value() == evaluate(coefficients, z_challenge.value())
            % F::modulus(),
        pow(z_challenge.value(), domain.size as nat) % F::modulus() == 1 ==> r.value() == 0,
{
    let p = F::modulus();
    let gen = domain.group_gen.value();
    let n = domain.size as nat;
    let z = z_challenge.value();
    let inputs = values(pub_inputs@);
    let pi = barycentric_eval(
        p,
        inputs,
        z,
        n,
        domain.size_inv.value(),
        domain.group_gen_inv.value(),
    );
    F::lemma_value_range(r);
    lemma_reduce_small(p, r.value());
    lemma_reduce_small(p, 1);
    let wires = proof.evaluations.wire_evals;
    let sigmas = proof.evaluations.perm_evals;
    let k = (wires.a_eval.value() + beta.value() * sigmas.left_sigma_eval.value() + gamma.value())
        * (wires.b_eval.value() + beta.value() * sigmas.right_sigma_eval.value() + gamma.value())
        * (wires.c_eval.value() + beta.value() * sigmas.out_sigma_eval.value() + gamma.value());
    let w = wires.d_eval.value() + gamma.value();
    let shift = epsilon.value() * (1 + delta.value());
    let u = shift + delta.value() * h2_eval.value();
    let v = shift + h2_eval.value() + delta.value() * h1_next_eval.value();
    let al = alpha.value();
    let t = s.value();
    assert(k * (w * 0 * al) == 0 && 0 * (al * al) == 0 && (t * t) * 0 * u * v == 0 && (t * t) * t
        * 0 == 0) by (nonlinear_arith);
    assert(r.value() % p == pi % p);
    assert(interpolates(p, coefficients, inputs, gen, n)) by {
        assert forall|i: int|
            #![trigger evaluation_at(inputs, i)]
            0 <= i < n implies congruent(
            p,
            evaluate(coefficients, pow(gen, i as nat)),
            evaluation_at(inputs, i),
        ) by {
            assert(pow(gen, i as nat) == pow(gen, i as nat));
        }
    }
    if forall|i: int|
        #![trigger pow(gen, i as nat)]
        0 <= i < domain.size ==> z % p != pow(gen, i as nat) % p {
        assert forall|i: nat| i < n implies !congruent(p, z, #[trigger] pow(gen, i)) by {
            let j = i as int;
            assert(z % p != pow(gen, j as nat) % p);
        }
        lemma_barycentric_interpolates(
            p,
            inputs,
            coefficients,
            z,
            n,
            domain.size_inv.value(),
            gen,
            domain.group_gen_inv.value(),
        );
        assert(reduce(p, pi) == reduce(p, evaluate(coefficients, z)));
    }
}

/// The public inputs enter [`Proof::compute_r0`] through [`compute_barycentric_eval`] alone: two
/// calls that differ in them differ by as much as what that gives for them at the evaluation
/// point.
pub proof fn lemma_r0_follows_public_inputs<F: PrimeField, PC: HomomorphicCommitment<F>>(
    proof: Proof<F, PC>,
    domain: GeneralEvaluationDomain<F>,
    pub_inputs: Vec<F>,
    other_inputs: Vec<F>,
    alpha: F,
    beta: F,
    gamma: F,
    delta: F,
    epsilon: F,
    z_challenge: F,
    l1_eval: F,
    z_hat_eval: F,
    z2_next_eval: F,
    h1_next_eval: F,
    h2_eval: F,
    s: F,
    r: F,
    other_r: F,
    pi: F,
    other_pi: F,
)
    requires
        call_ensures(
            Proof::<F, PC>::compute_r0,
            (
                &proof,
                &domain,
                &pub_inputs,
                alpha,
                beta,
                gamma,
                delta,
                epsilon,
                z_challenge,
                l1_eval,
                z_hat_eval,
                z2_next_eval,
                h1_next_eval,
                h2_eval,
                s,
            ),
            r,
        ),
        call_ensures(
            Proof::<F, PC>::compute_r0,
            (
                &proof,
                &domain,
                &other_inputs,
                alpha,
                beta,
                gamma,
                delta,
                epsilon,
                z_challenge,
                l1_eval,
                z_hat_eval,
                z2_next_eval,
                h1_next_eval,
                h2_eval,
                s,
            ),
            other_r,
        ),
        call_ensures(compute_barycentric_eval::<F>, (&pub_inputs, z_challenge, &domain), pi),
        call_ensures(
            compute_barycentric_eval::<F>,
            (&other_inputs, z_challenge, &domain),
            other_pi,
        ),
    ensures
        (r.value() - other_r.value()) % F::modulus() == (pi.value() - other_pi.value())
            % F::modulus(),
{
    let p = F::modulus();
    let n = domain.size as nat;
    let z = z_challenge.value();
    let h = domain.group_gen_inv.value();
    let a = barycentric_eval(p, values(pub_inputs@), z, n, domain.size_inv.value(), h);
    let b = barycentric_eval(p, values(other_inputs@), z, n, domain.size_inv.value(), h);
    F::lemma_value_range(r);
    lemma_reduce_range(p, a);
    lemma_reduce_range(p, b);
    lemma_congruent_difference(p, pi.value(), other_pi.value(), a, b);
    let wires = proof.evaluations.wire_evals;
    let sigmas = proof.evaluations.perm_evals;
    let shift = epsilon.value() * (1 + delta.value());
    let t = s.value();
    let e = a - (wires.a_eval.value() + beta.value() * sigmas.left_sigma_eval.value()
        + gamma.value()) * (wires.b_eval.value() + beta.value() * sigmas.right_sigma_eval.value()
        + gamma.value()) * (wires.c_eval.value() + beta.value() * sigmas.out_sigma_eval.value()
        + gamma.value()) * ((wires.d_eval.value() + gamma.value()) * z_hat_eval.value()
        * alpha.value()) - l1_eval.value() * (alpha.value() * alpha.value()) - (t * t)
        * z2_next_eval.value() * (shift + delta.value() * h2_eval.value()) * (shift
        + h2_eval.value() + delta.value() * h1_next_eval.value()) - (t * t) * t * l1_eval.value();
    let f = e - a + b;
    assert(r.value() % p == e % p);
    assert(other_r.value() % p == f % p);
    lemma_congruent_difference(p, r.value(), other_r.value(), e, f);
}

} // verus!
