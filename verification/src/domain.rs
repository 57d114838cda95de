//! Evaluation domains: the multiplicative subgroups over which polynomials are given by
//! their values.
use vstd::arithmetic::power::{
    lemma_pow0, lemma_pow1, lemma_pow_adds, lemma_pow_increases, lemma_pow_multiplies, pow,
};
use vstd::prelude::*;

use crate::arithmetic::{
    lemma_congruent_is_reduced, lemma_difference_step, lemma_reduce_range, reduce,
};
use crate::field::{is_subgroup, PrimeField};

verus! {

/// The constants of a multiplicative subgroup of the field `F`.
pub struct GeneralEvaluationDomain<F> {
    /// The number of elements of the subgroup.
    pub size: u64,
    /// The inverse of `size` in the field.
    pub size_inv: F,
    /// A generator of the subgroup.
    pub group_gen: F,
    /// The inverse of `group_gen`.
    pub group_gen_inv: F,
}

impl<F: PrimeField> GeneralEvaluationDomain<F> {
    /// The constants are those of one subgroup of the field.
    pub open spec fn wf(self) -> bool {
        is_subgroup(
            F::modulus(),
            self.size as nat,
            self.size_inv.value(),
            self.group_gen.value(),
            self.group_gen_inv.value(),
        )
    }

    /// A domain with room for the evaluations of a polynomial that has `num_coeffs`
    /// coefficients, if the field has one.
    pub fn new(num_coeffs: usize) -> (r: Option<Self>)
        requires
            num_coeffs <= usize::MAX / 2 + 1,
        ensures
            r is Some <==> F::domain_size(num_coeffs as nat) is Some,
            r matches Some(d) ==> d.wf() && F::domain_size(num_coeffs as nat) == Some(
                d.size as nat,
            ) && F::domain_generator(num_coeffs as nat) == d.group_gen.value(),
    {
        F::general_domain(num_coeffs)
    }

    /// The value at `tau` of the polynomial `X^n - 1`, which vanishes on the domain.
    pub fn evaluate_vanishing_polynomial(&self, tau: F) -> (r: F)
        ensures
            r.value() == reduce(F::modulus(), pow(tau.value(), self.size as nat) - 1),
    {
        let raised = tau.power(self.size);
        let one = F::one();
        let r = raised.minus(one);
        proof {
            let p = F::modulus();
            F::lemma_value_range(tau);
            F::lemma_value_range(r);
            lemma_reduce_range(p, pow(tau.value(), self.size as nat));
            lemma_difference_step(
                p,
                r.value(),
                raised.value(),
                one.value(),
                pow(tau.value(), self.size as nat),
                1,
            );
            lemma_congruent_is_reduced(p, r.value(), pow(tau.value(), self.size as nat) - 1);
        }
        r
    }

    /// The `i`-th element of the domain: the generator raised to the power `i`.
    pub fn element(&self, i: u64) -> (r: F)
        ensures
            r.value() == reduce(F::modulus(), pow(self.group_gen.value(), i as nat)),
    {
        self.group_gen.power(i)
    }
}

/// The number of zero bits at the lower end of `n`.
pub open spec fn trailing_zero_bits(n: nat) -> nat
    decreases n,
{
    if n == 0 {
        usize::BITS as nat
    } else if n % 2 == 1 {
        0
    } else {
        1 + trailing_zero_bits(n / 2)
    }
}

/// Counts the zero bits at the lower end of `n`.
pub fn trailing_zeros(n: usize) -> (r: u32)
    ensures
        r == trailing_zero_bits(n as nat),
{
    if n == 0 {
        return usize::BITS;
    }
    let mut count: u32 = 0;
    let mut rest: usize = n;
    proof {
        lemma_pow0(2);
    }
    while rest % 2 == 0
        invariant
            rest > 0,
            rest * pow(2, count as nat) == n,
            count + trailing_zero_bits(rest as nat) == trailing_zero_bits(n as nat),
            count < 64,
        decreases rest,
    {
        proof {
            lemma_pow_adds(2, 1, count as nat);
            lemma_pow1(2);
            let half = rest / 2;
            let q = pow(2, count as nat);
            assert(half * (2 * q) == (half * 2) * q) by (nonlinear_arith);
            lemma_count_below_width(half as int, (count + 1) as nat, n);
        }
        rest = rest / 2;
        count = count + 1;
    }
    count
}

/// A number that fits into a word is not divisible by a large power of two.
pub proof fn lemma_count_below_width(m: int, count: nat, n: usize)
    requires
        m > 0,
        m * pow(2, count) == n,
    ensures
        count < 64,
{
    if count >= 64 {
        lemma_pow_increases(2, 64, count);
        assert(pow(2, 64) == 0x1_0000_0000_0000_0000) by {
            lemma_pow_multiplies(2, 16, 4);
            assert(pow(2, 16) == 65536) by {
                reveal_with_fuel(pow, 17);
            }
            assert(pow(65536, 4) == 0x1_0000_0000_0000_0000) by {
                reveal_with_fuel(pow, 5);
            }
        }
        assert(m * pow(2, count) >= pow(2, count)) by (nonlinear_arith)
            requires
                m > 0,
                pow(2, count) >= 0,
        ;
    }
}

} // verus!
