//! Evaluation of polynomials that are given by their values on a domain.
use vstd::arithmetic::power::pow;
use vstd::prelude::*;

use crate::arithmetic::{
    congruent, inverse_of, inverse_or_zero, invertible, lemma_congruent_difference,
    lemma_congruent_is_reduced, lemma_congruent_product, lemma_difference_step,
    lemma_inverse_congruent, lemma_inverse_is, lemma_product_step, lemma_reduce_range,
    lemma_reduce_small, lemma_sum_step, reduce,
};
use crate::domain::GeneralEvaluationDomain;
use crate::field::PrimeField;
use crate::interpolation::{
    has_denominators, interpolates, is_outside, lemma_barycentric_interpolates,
    lemma_first_lagrange_is_barycentric, lemma_first_lagrange_is_product,
    lemma_outside_denominator, other_elements,
};
use crate::polynomial::{evaluate, root_product};

verus! {

/// The denominator `n * (X - 1)` of the first Lagrange polynomial.
pub open spec fn first_lagrange_denominator(n: int, x: int) -> int {
    n * (x - 1)
}

/// Evaluates the first Lagrange polynomial of `domain` at `z_challenge`.
///
/// The polynomial is one at the first element of the domain and zero at the others:
///
/// ```text
/// L_0(X) = mul_from_1_to_(n-1) [(X - omega^i) / (1 - omega^i)] = (X^n - 1) / (n * (X - 1))
/// ```
///
/// with `omega` the generator of the domain. `z_h_eval` is the value of `X^n - 1` at
/// `z_challenge`.
pub fn compute_first_lagrange_evaluation<F: PrimeField>(
    domain: &GeneralEvaluationDomain<F>,
    z_h_eval: &F,
    z_challenge: &F,
) -> (r: F)
    requires
        !congruent(
            F::modulus(),
            first_lagrange_denominator(domain.size as int, z_challenge.value()),
            0,
        ),
    ensures
        r.value() == reduce(
            F::modulus(),
            z_h_eval.value() * inverse_of(
                F::modulus(),
                first_lagrange_denominator(domain.size as int, z_challenge.value()),
            ),
        ),
        invertible(
            F::modulus(),
            first_lagrange_denominator(domain.size as int, z_challenge.value()),
        ),
        congruent(
            F::modulus(),
            r.value() * (domain.size * (z_challenge.value() - 1)),
            z_h_eval.value(),
        ),
        // The value of the product, and that of the polynomial which is one at the first
        // element of the domain and zero at the others.
        domain.wf() && congruent(
            F::modulus(),
            z_h_eval.value(),
            pow(z_challenge.value(), domain.size as nat) - 1,
        ) ==> {
            let others = other_elements(domain.group_gen.value(), domain.size as nat);
            &&& r.value() == reduce(
                F::modulus(),
                root_product(others, z_challenge.value()) * inverse_of(
                    F::modulus(),
                    root_product(others, 1),
                ),
            )
            &&& r.value() == reduce(
                F::modulus(),
                barycentric_eval(
                    F::modulus(),
                    seq![1],
                    z_challenge.value(),
                    domain.size as nat,
                    domain.size_inv.value(),
                    domain.group_gen_inv.value(),
                ),
            )
        },
{
    let n_fr = F::from_u64(domain.size);
    let one = F::one();
    let shifted = z_challenge.minus(one);
    let denom = n_fr.times(shifted);
    proof {
        let p = F::modulus();
        F::lemma_value_range(denom);
        lemma_reduce_range(p, domain.size as int);
        lemma_difference_step(p, shifted.value(), z_challenge.value(), 1, z_challenge.value(), 1);
        lemma_product_step(
            p,
            denom.value(),
            n_fr.value(),
            shifted.value(),
            domain.size as int,
            z_challenge.value() - 1,
        );
        lemma_reduce_small(p, 0);
    }
    let inverse = denom.inverse().unwrap();
    proof {
        let p = F::modulus();
        let d = first_lagrange_denominator(domain.size as int, z_challenge.value());
        lemma_inverse_congruent(p, denom.value(), d, inverse.value());
        lemma_inverse_is(p, d, inverse.value());
        if domain.wf() && congruent(
            p,
            z_h_eval.value(),
            pow(z_challenge.value(), domain.size as nat) - 1,
        ) {
            lemma_first_lagrange_is_product(
                p,
                domain.size as nat,
                domain.size_inv.value(),
                domain.group_gen.value(),
                domain.group_gen_inv.value(),
                z_h_eval.value(),
                z_challenge.value(),
            );
            lemma_first_lagrange_is_barycentric(
                p,
                domain.size as nat,
                domain.size_inv.value(),
                domain.group_gen_inv.value(),
                z_h_eval.value(),
                z_challenge.value(),
            );
        }
    }
    let r = z_h_eval.times(inverse);
    proof {
        let p = F::modulus();
        let d = first_lagrange_denominator(domain.size as int, z_challenge.value());
        let z_h = z_h_eval.value();
        let w = inverse.value();
        lemma_reduce_range(p, z_h * w);
        lemma_congruent_product(p, r.value(), d, z_h * w, d);
        lemma_congruent_product(p, z_h, d * w, z_h, 1);
        assert((z_h * w) * d == z_h * (d * w)) by (nonlinear_arith);
    }
    r
}

/// The sum over the first `k` evaluations `e_i` of `e_i / (omega^-i * x - 1)`, where a
/// term whose denominator is zero modulo `p` counts as zero.
pub open spec fn barycentric_sum(
    p: int,
    evaluations: Seq<int>,
    x: int,
    group_gen_inv: int,
    k: nat,
) -> int
    decreases k,
{
    if k == 0 {
        0
    } else {
        let i = (k - 1) as nat;
        barycentric_sum(p, evaluations, x, group_gen_inv, i) + inverse_or_zero(
            p,
            pow(group_gen_inv, i) * x - 1,
        ) * evaluations[i as int]
    }
}

/// The barycentric formula: the sum over all evaluations, scaled by `(x^n - 1) / n`.
pub open spec fn barycentric_eval(
    p: int,
    evaluations: Seq<int>,
    x: int,
    n: nat,
    size_inv: int,
    group_gen_inv: int,
) -> int {
    barycentric_sum(p, evaluations, x, group_gen_inv, evaluations.len()) * ((pow(x, n) - 1)
        * size_inv)
}

/// The values of a sequence of field elements.
pub open spec fn values<F: PrimeField>(elements: Seq<F>) -> Seq<int> {
    elements.map_values(|e: F| e.value())
}

/// The positions below `k` of the evaluations that are not zero.
spec fn nonzero_positions(evaluations: Seq<int>, k: nat) -> Seq<int>
    decreases k,
{
    if k == 0 {
        Seq::empty()
    } else {
        let i = (k - 1) as nat;
        let before = nonzero_positions(evaluations, i);
        if evaluations[i as int] == 0 {
            before
        } else {
            before.push(i as int)
        }
    }
}

/// The part of the barycentric sum that belongs to the first `k` of the given positions.
spec fn sum_at(
    p: int,
    evaluations: Seq<int>,
    x: int,
    group_gen_inv: int,
    positions: Seq<int>,
    k: nat,
) -> int
    decreases k,
{
    if k == 0 {
        0
    } else {
        let i = positions[k - 1];
        sum_at(p, evaluations, x, group_gen_inv, positions, (k - 1) as nat) + inverse_or_zero(
            p,
            pow(group_gen_inv, i as nat) * x - 1,
        ) * evaluations[i]
    }
}

proof fn lemma_nonzero_positions_range(evaluations: Seq<int>, k: nat)
    ensures
        forall|j: int|
            0 <= j < nonzero_positions(evaluations, k).len() ==> 0 <= #[trigger] nonzero_positions(
                evaluations,
                k,
            )[j] < k,
    decreases k,
{
    if k > 0 {
        let before = nonzero_positions(evaluations, (k - 1) as nat);
        lemma_nonzero_positions_range(evaluations, (k - 1) as nat);
        assert forall|j: int| 0 <= j < nonzero_positions(evaluations, k).len() implies 0
            <= #[trigger] nonzero_positions(evaluations, k)[j] < k by {
            if j < before.len() {
                assert(nonzero_positions(evaluations, k)[j] == before[j]);
            }
        }
    }
}

/// Every evaluation that is not zero has a position.
proof fn lemma_nonzero_positions_contain(evaluations: Seq<int>, k: nat, i: int)
    requires
        0 <= i < k,
        evaluations[i] != 0,
    ensures
        exists|j: int|
            0 <= j < nonzero_positions(evaluations, k).len() && #[trigger] nonzero_positions(
                evaluations,
                k,
            )[j] == i,
    decreases k,
{
    let m = (k - 1) as nat;
    let before = nonzero_positions(evaluations, m);
    let after = nonzero_positions(evaluations, k);
    if i == m {
        assert(after[before.len() as int] == i);
    } else {
        lemma_nonzero_positions_contain(evaluations, m, i);
        let j = choose|j: int| 0 <= j < before.len() && #[trigger] before[j] == i;
        assert(after[j] == i);
    }
}

proof fn lemma_sum_at_prefix(
    p: int,
    evaluations: Seq<int>,
    x: int,
    group_gen_inv: int,
    positions: Seq<int>,
    extended: Seq<int>,
    k: nat,
)
    requires
        k <= positions.len() <= extended.len(),
        forall|j: int| 0 <= j < k ==> positions[j] == extended[j],
    ensures
        sum_at(p, evaluations, x, group_gen_inv, positions, k) == sum_at(
            p,
            evaluations,
            x,
            group_gen_inv,
            extended,
            k,
        ),
    decreases k,
{
    if k > 0 {
        lemma_sum_at_prefix(
            p,
            evaluations,
            x,
            group_gen_inv,
            positions,
            extended,
            (k - 1) as nat,
        );
    }
}

/// Leaving out the evaluations that are zero does not change the sum.
proof fn lemma_nonzero_sum(p: int, evaluations: Seq<int>, x: int, group_gen_inv: int, k: nat)
    ensures
        sum_at(
            p,
            evaluations,
            x,
            group_gen_inv,
            nonzero_positions(evaluations, k),
            nonzero_positions(evaluations, k).len(),
        ) == barycentric_sum(p, evaluations, x, group_gen_inv, k),
    decreases k,
{
    if k > 0 {
        let i = (k - 1) as nat;
        lemma_nonzero_sum(p, evaluations, x, group_gen_inv, i);
        let before = nonzero_positions(evaluations, i);
        if evaluations[i as int] != 0 {
            lemma_sum_at_prefix(
                p,
                evaluations,
                x,
                group_gen_inv,
                before,
                before.push(i as int),
                before.len(),
            );
        } else {
            assert(inverse_or_zero(p, pow(group_gen_inv, i) * x - 1) * evaluations[i as int] == 0)
                by (nonlinear_arith)
                requires
                    evaluations[i as int] == 0,
            ;
        }
    }
}

/// Evaluates at `point` the polynomial that takes the values `evaluations` on `domain`, by
/// the barycentric formula. The values that are missing count as zero. The formula holds for
/// points outside of the domain only: on a point of the domain, the result is zero.
pub fn compute_barycentric_eval<F: PrimeField>(
    evaluations: &Vec<F>,
    point: F,
    domain: &GeneralEvaluationDomain<F>,
) -> (r: F)
    ensures
        r.value() == reduce(
            F::modulus(),
            barycentric_eval(
                F::modulus(),
                values(evaluations@),
                point.value(),
                domain.size as nat,
                domain.size_inv.value(),
                domain.group_gen_inv.value(),
            ),
        ),
        // Outside of the domain, this is the value of the polynomial of degree below the
        // size of the domain that takes the given values.
        forall|coefficients: Seq<int>|
            domain.wf() && evaluations.len() <= domain.size && coefficients.len() <= domain.size
                && is_outside(
                F::modulus(),
                point.value(),
                domain.group_gen.value(),
                domain.size as nat,
            ) && #[trigger] interpolates(
                F::modulus(),
                coefficients,
                values(evaluations@),
                domain.group_gen.value(),
                domain.size as nat,
            ) ==> r.value() == reduce(F::modulus(), evaluate(coefficients, point.value())),
        congruent(F::modulus(), pow(point.value(), domain.size as nat), 1) ==> r.value() == 0,
        // One can divide by the denominators of the formula.
        forall|i: int|
            #![trigger values(evaluations@)[i]]
            0 <= i < evaluations.len() && values(evaluations@)[i] != 0 && !congruent(
                F::modulus(),
                pow(domain.group_gen_inv.value(), i as nat) * point.value() - 1,
                0,
            ) ==> invertible(
                F::modulus(),
                pow(domain.group_gen_inv.value(), i as nat) * point.value() - 1,
            ),
        domain.wf() && evaluations.len() <= domain.size && is_outside(
            F::modulus(),
            point.value(),
            domain.group_gen.value(),
            domain.size as nat,
        ) ==> has_denominators(
            F::modulus(),
            values(evaluations@),
            point.value(),
            domain.group_gen_inv.value(),
        ),
{
    let ghost p = F::modulus();
    let ghost evals = values(evaluations@);
    let ghost x = point.value();
    let ghost n = domain.size as nat;
    let ghost g = domain.group_gen_inv.value();
    proof {
        F::lemma_value_range(point);
    }
    let vanishing = domain.evaluate_vanishing_polynomial(point);
    let numerator = vanishing.times(domain.size_inv);
    proof {
        lemma_reduce_range(p, pow(x, n) - 1);
        lemma_product_step(
            p,
            numerator.value(),
            vanishing.value(),
            domain.size_inv.value(),
            pow(x, n) - 1,
            domain.size_inv.value(),
        );
    }

    let zero = F::zero();
    let mut non_zero_evaluations: Vec<usize> = Vec::new();
    let mut i: usize = 0;
    while i < evaluations.len()
        invariant
            i <= evaluations.len(),
            evals == values(evaluations@),
            zero.value() == 0,
            non_zero_evaluations@.map_values(|j: usize| j as int) == nonzero_positions(
                evals,
                i as nat,
            ),
        decreases evaluations.len() - i,
    {
        let ghost before = non_zero_evaluations@;
        if !evaluations[i].equals(&zero) {
            non_zero_evaluations.push(i);
            assert(non_zero_evaluations@.map_values(|j: usize| j as int) =~= before.map_values(
                |j: usize| j as int,
            ).push(i as int));
        }
        i = i + 1;
    }
    let ghost positions = nonzero_positions(evals, evals.len());
    proof {
        lemma_nonzero_positions_range(evals, evals.len());
        assert forall|j: int| 0 <= j < non_zero_evaluations@.len() implies (
        #[trigger] non_zero_evaluations@[j]) as int == positions[j]
            && non_zero_evaluations@[j] < evaluations.len() by {
            assert(non_zero_evaluations@.map_values(|j: usize| j as int)[j]
                == non_zero_evaluations@[j] as int);
        }
    }

    // Only the evaluations that are not zero need a denominator.
    let one = F::one();
    let group_gen_inv = domain.group_gen_inv;
    let mut denominators: Vec<F> = Vec::new();
    let mut i: usize = 0;
    while i < non_zero_evaluations.len()
        invariant
            i <= non_zero_evaluations.len(),
            denominators.len() == i,
            p == F::modulus(),
            p > 1,
            g == group_gen_inv.value(),
            x == point.value(),
            one.value() == 1,
            non_zero_evaluations@.len() == positions.len(),
            forall|j: int|
                0 <= j < non_zero_evaluations@.len() ==> (
                #[trigger] non_zero_evaluations@[j]) as int == positions[j],
            forall|j: int|
                0 <= j < i ==> congruent(
                    p,
                    (#[trigger] denominators@[j]).value(),
                    pow(g, positions[j] as nat) * x - 1,
                ),
        decreases non_zero_evaluations.len() - i,
    {
        let index = non_zero_evaluations[i];
        let raised = group_gen_inv.power(index as u64);
        let scaled = raised.times(point);
        let denominator = scaled.minus(one);
        proof {
            lemma_reduce_range(p, pow(g, index as nat));
            lemma_product_step(p, scaled.value(), raised.value(), x, pow(g, index as nat), x);
            lemma_difference_step(
                p,
                denominator.value(),
                scaled.value(),
                1,
                pow(g, index as nat) * x,
                1,
            );
        }
        denominators.push(denominator);
        i = i + 1;
    }
    let ghost plain = denominators@;
    F::batch_inversion(&mut denominators);
    proof {
        assert forall|j: int| 0 <= j < positions.len() implies (
        #[trigger] denominators@[j]).value() == inverse_or_zero(
            p,
            pow(g, positions[j] as nat) * x - 1,
        ) by {
            let d = pow(g, positions[j] as nat) * x - 1;
            assert(congruent(p, plain[j].value(), d));
            F::lemma_value_range(plain[j]);
            lemma_reduce_small(p, 0);
            lemma_reduce_small(p, plain[j].value());
            if plain[j].value() != 0 {
                lemma_inverse_congruent(p, plain[j].value(), d, denominators@[j].value());
                lemma_inverse_is(p, d, denominators@[j].value());
            }
        }
        assert forall|i: int|
            #![trigger evals[i]]
            0 <= i < evals.len() && evals[i] != 0 && !congruent(
                p,
                pow(g, i as nat) * x - 1,
                0,
            ) implies invertible(p, pow(g, i as nat) * x - 1) by {
            let d = pow(g, i as nat) * x - 1;
            lemma_nonzero_positions_contain(evals, evals.len(), i);
            let j = choose|j: int| 0 <= j < positions.len() && #[trigger] positions[j] == i;
            assert(congruent(p, plain[j].value(), d));
            lemma_reduce_small(p, 0);
            assert(plain[j].value() != 0);
            assert(0 <= j < denominators@.len());
            lemma_inverse_congruent(p, plain[j].value(), d, denominators@[j].value());
        }
        if domain.wf() && evaluations.len() <= domain.size && is_outside(
            p,
            x,
            domain.group_gen.value(),
            n,
        ) {
            assert forall|i: int|
                #![trigger evals[i]]
                0 <= i < evals.len() && evals[i] != 0 implies invertible(
                p,
                pow(g, i as nat) * x - 1,
            ) by {
                lemma_outside_denominator(p, x, n, domain.group_gen.value(), g, i as nat);
            }
            assert(has_denominators(p, evals, x, g));
        }
    }

    let mut result = zero;
    let mut i: usize = 0;
    while i < non_zero_evaluations.len()
        invariant
            i <= non_zero_evaluations.len(),
            p == F::modulus(),
            p > 1,
            evals == values(evaluations@),
            non_zero_evaluations@.len() == positions.len(),
            denominators@.len() == positions.len(),
            forall|j: int|
                0 <= j < non_zero_evaluations@.len() ==> (
                #[trigger] non_zero_evaluations@[j]) as int == positions[j]
                    && non_zero_evaluations@[j] < evaluations.len(),
            forall|j: int|
                0 <= j < positions.len() ==> (#[trigger] denominators@[j]).value()
                    == inverse_or_zero(p, pow(g, positions[j] as nat) * x - 1),
            congruent(p, result.value(), sum_at(p, evals, x, g, positions, i as nat)),
        decreases non_zero_evaluations.len() - i,
    {
        let eval_index = non_zero_evaluations[i];
        let eval = evaluations[eval_index];
        let term = denominators[i].times(eval);
        let next = result.plus(term);
        proof {
            let inverse = denominators@[i as int].value();
            assert(evals[eval_index as int] == eval.value());
            lemma_product_step(p, term.value(), inverse, eval.value(), inverse, eval.value());
            lemma_sum_step(
                p,
                next.value(),
                result.value(),
                term.value(),
                sum_at(p, evals, x, g, positions, i as nat),
                inverse * eval.value(),
            );
        }
        result = next;
        i = i + 1;
    }
    let r = result.times(numerator);
    proof {
        lemma_nonzero_sum(p, evals, x, g, evals.len());
        lemma_product_step(
            p,
            r.value(),
            result.value(),
            numerator.value(),
            barycentric_sum(p, evals, x, g, evals.len()),
            (pow(x, n) - 1) * domain.size_inv.value(),
        );
        F::lemma_value_range(r);
        lemma_congruent_is_reduced(
            p,
            r.value(),
            barycentric_eval(p, evals, x, n, domain.size_inv.value(), g),
        );
        if congruent(p, pow(x, n), 1) {
            lemma_congruent_difference(p, pow(x, n), 1, 1, 1);
            lemma_reduce_small(p, 0);
            assert(numerator.value() == 0 * domain.size_inv.value() % p);
            assert(r.value() == result.value() * 0 % p);
        }
        assert forall|coefficients: Seq<int>|
            domain.wf() && evaluations.len() <= domain.size && coefficients.len() <= domain.size
                && is_outside(p, x, domain.group_gen.value(), n) && #[trigger] interpolates(
                p,
                coefficients,
                evals,
                domain.group_gen.value(),
                n,
            ) implies r.value() == reduce(p, evaluate(coefficients, x)) by {
            lemma_barycentric_interpolates(
                p,
                evals,
                coefficients,
                x,
                n,
                domain.size_inv.value(),
                domain.group_gen.value(),
                g,
            );
        }
    }
    r
}

} // verus!
