//! Arithmetic of residues: what field elements mean as integers.
//!
//! Specifications in this crate are written over the integers and reduced once, at the end:
//! a field element `r` is described by `r.value() == reduce(p, e)` where `e` is an ordinary
//! integer expression over the values of the inputs.
use vstd::arithmetic::div_mod::{
    lemma_add_mod_noop, lemma_mod_twice, lemma_mul_mod_noop_general, lemma_small_mod,
    lemma_sub_mod_noop,
};
use vstd::arithmetic::power::{lemma_pow_mod_noop, pow};
use vstd::prelude::*;

verus! {

/// The representative of `x` modulo `p` that lies in `0..p`.
pub open spec fn reduce(p: int, x: int) -> int {
    x % p
}

/// `x` and `y` are equal modulo `p`.
pub open spec fn congruent(p: int, x: int, y: int) -> bool {
    x % p == y % p
}

/// `w` is an inverse of `a` modulo `p`.
pub open spec fn is_inverse(p: int, a: int, w: int) -> bool {
    0 <= w < p && congruent(p, a * w, 1)
}

/// `a` has an inverse modulo `p`.
pub open spec fn invertible(p: int, a: int) -> bool {
    exists|w: int| is_inverse(p, a, w)
}

/// The inverse of `a` modulo `p`, where there is one.
pub open spec fn inverse_of(p: int, a: int) -> int {
    choose|w: int| is_inverse(p, a, w)
}

/// The inverse of `a` modulo `p`, and zero where `a` is zero modulo `p`.
pub open spec fn inverse_or_zero(p: int, a: int) -> int {
    if congruent(p, a, 0) {
        0
    } else {
        inverse_of(p, a)
    }
}

pub proof fn lemma_reduce_range(p: int, x: int)
    requires
        p > 0,
    ensures
        0 <= reduce(p, x) < p,
        congruent(p, reduce(p, x), x),
{
    lemma_mod_twice(x, p);
}

pub proof fn lemma_reduce_small(p: int, x: int)
    requires
        0 <= x < p,
    ensures
        reduce(p, x) == x,
{
    lemma_small_mod(x as nat, p as nat);
}

pub proof fn lemma_congruent_sum(p: int, a: int, b: int, x: int, y: int)
    requires
        p > 0,
        congruent(p, a, x),
        congruent(p, b, y),
    ensures
        congruent(p, a + b, x + y),
{
    lemma_add_mod_noop(a, b, p);
    lemma_add_mod_noop(x, y, p);
}

pub proof fn lemma_congruent_difference(p: int, a: int, b: int, x: int, y: int)
    requires
        p > 0,
        congruent(p, a, x),
        congruent(p, b, y),
    ensures
        congruent(p, a - b, x - y),
{
    lemma_sub_mod_noop(a, b, p);
    lemma_sub_mod_noop(x, y, p);
}

pub proof fn lemma_congruent_product(p: int, a: int, b: int, x: int, y: int)
    requires
        p > 0,
        congruent(p, a, x),
        congruent(p, b, y),
    ensures
        congruent(p, a * b, x * y),
{
    lemma_mul_mod_noop_general(a, b, p);
    lemma_mul_mod_noop_general(x, y, p);
}

pub proof fn lemma_congruent_power(p: int, a: int, x: int, e: nat)
    requires
        p > 0,
        congruent(p, a, x),
    ensures
        congruent(p, pow(a, e), pow(x, e)),
{
    lemma_pow_mod_noop(a, e, p);
    lemma_pow_mod_noop(x, e, p);
}

/// Steps of a computation with residues: each takes what is known of the operands over to
/// the result.
pub proof fn lemma_sum_step(p: int, r: int, a: int, b: int, x: int, y: int)
    requires
        p > 0,
        r == reduce(p, a + b),
        congruent(p, a, x),
        congruent(p, b, y),
    ensures
        congruent(p, r, x + y),
{
    lemma_reduce_range(p, a + b);
    lemma_congruent_sum(p, a, b, x, y);
}

pub proof fn lemma_difference_step(p: int, r: int, a: int, b: int, x: int, y: int)
    requires
        p > 0,
        r == reduce(p, a - b),
        congruent(p, a, x),
        congruent(p, b, y),
    ensures
        congruent(p, r, x - y),
{
    lemma_reduce_range(p, a - b);
    lemma_congruent_difference(p, a, b, x, y);
}

pub proof fn lemma_product_step(p: int, r: int, a: int, b: int, x: int, y: int)
    requires
        p > 0,
        r == reduce(p, a * b),
        congruent(p, a, x),
        congruent(p, b, y),
    ensures
        congruent(p, r, x * y),
{
    lemma_reduce_range(p, a * b);
    lemma_congruent_product(p, a, b, x, y);
}

/// A residue below `p` that is congruent to `x` is the reduction of `x`.
pub proof fn lemma_congruent_is_reduced(p: int, r: int, x: int)
    requires
        0 <= r < p,
        congruent(p, r, x),
    ensures
        r == reduce(p, x),
{
    lemma_small_mod(r as nat, p as nat);
}

/// Two inverses of one residue are equal.
pub proof fn lemma_inverse_unique(p: int, a: int, v: int, w: int)
    requires
        is_inverse(p, a, v),
        is_inverse(p, a, w),
    ensures
        v == w,
{
    // v = v * (a * w) = (a * v) * w = w
    lemma_congruent_product(p, v, a * w, v, 1);
    lemma_congruent_product(p, a * v, w, 1, w);
    assert(v * (a * w) == (a * v) * w) by (nonlinear_arith);
    assert(v * 1 == v);
    assert(1 * w == w);
    lemma_small_mod(v as nat, p as nat);
    lemma_small_mod(w as nat, p as nat);
}

/// Whatever inverts `a` is the inverse of `a`.
pub proof fn lemma_inverse_is(p: int, a: int, w: int)
    requires
        is_inverse(p, a, w),
    ensures
        inverse_of(p, a) == w,
{
    lemma_inverse_unique(p, a, inverse_of(p, a), w);
}

/// The inverse depends on the residue alone.
pub proof fn lemma_inverse_congruent(p: int, a: int, b: int, w: int)
    requires
        p > 0,
        congruent(p, a, b),
        is_inverse(p, a, w),
    ensures
        is_inverse(p, b, w),
{
    lemma_congruent_product(p, a, w, b, w);
}

/// A residue with an inverse is not zero.
pub proof fn lemma_invertible_is_nonzero(p: int, a: int, w: int)
    requires
        p > 1,
        is_inverse(p, a, w),
    ensures
        !congruent(p, a, 0),
{
    if congruent(p, a, 0) {
        lemma_congruent_product(p, a, w, 0, w);
        lemma_small_mod(0 as nat, p as nat);
        lemma_small_mod(1 as nat, p as nat);
    }
}

/// What two factors with an inverse share: an invertible factor can be cancelled.
pub proof fn lemma_cancel(p: int, c: int, x: int, y: int)
    requires
        p > 0,
        invertible(p, c),
        congruent(p, c * x, c * y),
    ensures
        congruent(p, x, y),
{
    let w = choose|w: int| is_inverse(p, c, w);
    lemma_congruent_product(p, w, c * x, w, c * y);
    lemma_congruent_product(p, c * w, x, 1, x);
    lemma_congruent_product(p, c * w, y, 1, y);
    assert(w * (c * x) == (c * w) * x) by (nonlinear_arith);
    assert(w * (c * y) == (c * w) * y) by (nonlinear_arith);
}

/// A factor of an invertible residue is invertible.
pub proof fn lemma_factor_invertible(p: int, a: int, b: int, c: int)
    requires
        p > 0,
        congruent(p, a * b, c),
        invertible(p, c),
    ensures
        invertible(p, a),
{
    let w = choose|w: int| is_inverse(p, c, w);
    let v = reduce(p, b * w);
    lemma_reduce_range(p, b * w);
    lemma_congruent_product(p, a, v, a, b * w);
    lemma_congruent_product(p, a * b, w, c, w);
    assert(a * (b * w) == (a * b) * w) by (nonlinear_arith);
    assert(is_inverse(p, a, v));
}

} // verus!
