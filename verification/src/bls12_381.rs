//! The scalar field of BLS12-381.
use ark_bls12_381::Fr as ArkFr;
use ark_ff::{batch_inversion, BigInteger256, Field, PrimeField as ArkPrimeField, ToBytes};
use ark_poly::{EvaluationDomain, GeneralEvaluationDomain as ArkDomain};
use vstd::arithmetic::power::{lemma_pow0, lemma_pow1, lemma_pow_adds, lemma_pow_multiplies, pow};
use vstd::prelude::*;

use crate::arithmetic::{
    congruent, invertible, is_inverse, lemma_congruent_difference, lemma_congruent_power,
    lemma_congruent_product, lemma_factor_invertible, lemma_reduce_range, lemma_reduce_small,
    reduce,
};
use crate::domain::GeneralEvaluationDomain;
use crate::field::{is_primitive_root, le_bytes, PrimeField};
use crate::polynomial::{geometric, lemma_geometric};

verus! {

/// The order of the prime-order subgroups of BLS12-381.
pub open spec fn fr_modulus() -> int {
    0x73eda753299d7d483339d80809a1d80553bda402fffe5bfeffffffff00000001int
}

/// A primitive root of unity of order `2^32`.
pub open spec fn fr_root_of_unity() -> int {
    0x16a2a19edfe81f20d09b681922c813b4b63683508c2280b93829971f439f0d2bint
}

/// The smallest power of two that is not below `n`.
pub open spec fn next_power_of_two(n: nat) -> nat
    decreases n,
{
    if n <= 1 {
        1
    } else {
        2 * next_power_of_two((n + 1) / 2)
    }
}

/// The size of the domain for `num_coeffs` coefficients: the next power of two, as far as the
/// field has a subgroup of that size.
pub open spec fn fr_domain_size(num_coeffs: nat) -> Option<nat> {
    if next_power_of_two(num_coeffs) <= 0x1_0000_0000 {
        Some(next_power_of_two(num_coeffs))
    } else {
        None
    }
}

/// The generator of the domain of the given size, which divides `2^32`.
pub open spec fn fr_domain_generator(size: nat) -> int {
    reduce(fr_modulus(), pow(fr_root_of_unity(), 0x1_0000_0000nat / size))
}

/// The integer with the given little-endian limbs.
pub open spec fn limbs_value(limbs: [u64; 4]) -> int {
    limbs[0] + limbs[1] * 0x1_0000_0000_0000_0000int + limbs[2]
        * 0x1_0000_0000_0000_0000_0000_0000_0000_0000int + limbs[3]
        * 0x1_0000_0000_0000_0000_0000_0000_0000_0000_0000_0000_0000_0000int
}

/// An element of the scalar field of BLS12-381, held as the limbs of the integer in
/// `0..fr_modulus()` that it stands for.
#[derive(Clone, Copy, Debug)]
pub struct Fr {
    pub(crate) limbs: [u64; 4],
}

impl Fr {
    /// The limbs are those of a reduced integer.
    #[verifier::type_invariant]
    spec fn reduced(self) -> bool {
        limbs_value(self.limbs) < fr_modulus()
    }

    /// The integer that the element stands for.
    pub closed spec fn int_value(self) -> int {
        reduce(fr_modulus(), limbs_value(self.limbs))
    }

    /// The element that stands for the integer with the given little-endian limbs, if that
    /// is reduced.
    pub fn from_limbs(limbs: [u64; 4]) -> (r: Option<Fr>)
        ensures
            r is Some <==> limbs_value(limbs) < fr_modulus(),
            r matches Some(x) ==> x.int_value() == limbs_value(limbs),
    {
        let below = limbs[3] < 0x73eda753299d7d48 || (limbs[3] == 0x73eda753299d7d48 && (limbs[2]
            < 0x3339d80809a1d805 || (limbs[2] == 0x3339d80809a1d805 && (limbs[1]
            < 0x53bda402fffe5bfe || (limbs[1] == 0x53bda402fffe5bfe && limbs[0]
            < 0xffffffff00000001)))));
        if below {
            proof {
                lemma_reduce_small(fr_modulus(), limbs_value(limbs));
            }
            Some(Fr { limbs })
        } else {
            None
        }
    }

    /// The little-endian limbs of the integer that the element stands for.
    pub fn to_limbs(&self) -> (r: [u64; 4])
        ensures
            limbs_value(r) == self.int_value(),
    {
        proof {
            use_type_invariant(self);
            lemma_reduce_small(fr_modulus(), limbs_value(self.limbs));
        }
        self.limbs
    }
}

/// The lowest limb and the rest of an integer are determined by it.
proof fn lemma_lowest_limb(x: u64, y: u64, u: int, v: int)
    requires
        x + 0x1_0000_0000_0000_0000int * u == y + 0x1_0000_0000_0000_0000int * v,
    ensures
        x == y,
        u == v,
{
}

/// Different limbs give different integers.
#[verifier::spinoff_prover]
proof fn lemma_limbs_injective(a: [u64; 4], b: [u64; 4])
    requires
        limbs_value(a) == limbs_value(b),
    ensures
        forall|i: int| 0 <= i < 4 ==> a[i] == b[i],
{
    let w = 0x1_0000_0000_0000_0000int;
    let a2 = a[2] + w * a[3];
    let b2 = b[2] + w * b[3];
    let a1 = a[1] + w * a2;
    let b1 = b[1] + w * b2;
    lemma_lowest_limb(a[0], b[0], a1, b1);
    lemma_lowest_limb(a[1], b[1], a2, b2);
    lemma_lowest_limb(a[2], b[2], a[3] as int, b[3] as int);
}

/// Wraps `+` of `ark_bls12_381::Fr`: the sum modulo the order of the field.
#[verifier::external_body]
fn ark_sum(a: Fr, b: Fr) -> (r: Fr)
    ensures
        r.int_value() == reduce(fr_modulus(), a.int_value() + b.int_value()),
{
    let x = ArkFr::from_repr(BigInteger256(a.limbs)).unwrap();
    let y = ArkFr::from_repr(BigInteger256(b.limbs)).unwrap();
    Fr { limbs: (x + y).into_repr().0 }
}

/// Wraps `-` of `ark_bls12_381::Fr`: the difference modulo the order of the field.
#[verifier::external_body]
fn ark_difference(a: Fr, b: Fr) -> (r: Fr)
    ensures
        r.int_value() == reduce(fr_modulus(), a.int_value() - b.int_value()),
{
    let x = ArkFr::from_repr(BigInteger256(a.limbs)).unwrap();
    let y = ArkFr::from_repr(BigInteger256(b.limbs)).unwrap();
    Fr { limbs: (x - y).into_repr().0 }
}

/// Wraps `*` of `ark_bls12_381::Fr`: the product modulo the order of the field.
#[verifier::external_body]
fn ark_product(a: Fr, b: Fr) -> (r: Fr)
    ensures
        r.int_value() == reduce(fr_modulus(), a.int_value() * b.int_value()),
{
    let x = ArkFr::from_repr(BigInteger256(a.limbs)).unwrap();
    let y = ArkFr::from_repr(BigInteger256(b.limbs)).unwrap();
    Fr { limbs: (x * y).into_repr().0 }
}

/// Wraps the unary `-` of `ark_bls12_381::Fr`: the additive inverse.
#[verifier::external_body]
fn ark_negation(a: Fr) -> (r: Fr)
    ensures
        r.int_value() == reduce(fr_modulus(), -a.int_value()),
{
    let x = ArkFr::from_repr(BigInteger256(a.limbs)).unwrap();
    Fr { limbs: (-x).into_repr().0 }
}

/// Wraps `Field::inverse` of `ark_bls12_381::Fr`: the multiplicative inverse, which all
/// elements but zero have.
#[verifier::external_body]
fn ark_inverse(a: Fr) -> (r: Option<Fr>)
    ensures
        r is None <==> a.int_value() == 0,
        r matches Some(w) ==> is_inverse(fr_modulus(), a.int_value(), w.int_value()),
{
    let x = ArkFr::from_repr(BigInteger256(a.limbs)).unwrap();
    x.inverse().map(|w| Fr { limbs: w.into_repr().0 })
}

/// Wraps `Field::pow` of `ark_bls12_381::Fr`: the power with the given exponent.
#[verifier::external_body]
fn ark_power(a: Fr, exponent: u64) -> (r: Fr)
    ensures
        r.int_value() == reduce(fr_modulus(), pow(a.int_value(), exponent as nat)),
{
    let x = ArkFr::from_repr(BigInteger256(a.limbs)).unwrap();
    Fr { limbs: x.pow(&[exponent]).into_repr().0 }
}

/// Wraps `ark_ff::batch_inversion`: every element but the zeros is replaced by its inverse.
#[verifier::external_body]
fn ark_batch_inversion(elements: &mut Vec<Fr>)
    ensures
        final(elements)@.len() == old(elements)@.len(),
        forall|i: int|
            #![trigger final(elements)@[i]]
            0 <= i < old(elements)@.len() ==> if old(elements)@[i].int_value() == 0 {
                final(elements)@[i].int_value() == 0
            } else {
                is_inverse(
                    fr_modulus(),
                    old(elements)@[i].int_value(),
                    final(elements)@[i].int_value(),
                )
            },
{
    let mut inverted: Vec<ArkFr> = elements
        .iter()
        .map(|x| ArkFr::from_repr(BigInteger256(x.limbs)).unwrap())
        .collect();
    batch_inversion(&mut inverted);
    *elements = inverted.iter().map(|x| Fr { limbs: x.into_repr().0 }).collect();
}

/// Wraps `ToBytes::write` of `ark_bls12_381::Fr`: the 32 little-endian bytes of the integer
/// that the element stands for.
#[verifier::external_body]
fn ark_write(a: &Fr) -> (r: Vec<u8>)
    ensures
        r@ == le_bytes(a.int_value(), 32),
{
    let x = ArkFr::from_repr(BigInteger256(a.limbs)).unwrap();
    let mut bytes = Vec::new();
    x.write(&mut bytes).unwrap();
    bytes
}

/// Wraps `ark_poly::GeneralEvaluationDomain::new` over `ark_bls12_381::Fr`: the size is the
/// next power of two, there is a domain as far as the size is at most `2^32`, and the
/// generator is the power of the root of unity of order `2^32` that has the size as its
/// order. `new` overflows where `num_coeffs` has no next power of two.
#[verifier::external_body]
fn ark_general_domain(num_coeffs: usize) -> (r: Option<GeneralEvaluationDomain<Fr>>)
    requires
        num_coeffs <= usize::MAX / 2 + 1,
    ensures
        r is Some <==> fr_domain_size(num_coeffs as nat) is Some,
        r matches Some(d) ==> {
            &&& fr_domain_size(num_coeffs as nat) == Some(d.size as nat)
            &&& d.group_gen.int_value() == fr_domain_generator(d.size as nat)
            &&& is_inverse(fr_modulus(), d.size as int, d.size_inv.int_value())
            &&& is_inverse(
                fr_modulus(),
                d.group_gen.int_value(),
                d.group_gen_inv.int_value(),
            )
        },
{
    let (size, size_inv, gen, gen_inv) = match ArkDomain::<ArkFr>::new(num_coeffs)? {
        ArkDomain::Radix2(d) => (d.size, d.size_inv, d.group_gen, d.group_gen_inv),
        ArkDomain::MixedRadix(d) => (d.size, d.size_inv, d.group_gen, d.group_gen_inv),
    };
    Some(GeneralEvaluationDomain {
        size,
        size_inv: Fr { limbs: size_inv.into_repr().0 },
        group_gen: Fr { limbs: gen.into_repr().0 },
        group_gen_inv: Fr { limbs: gen_inv.into_repr().0 },
    })
}

/// Squaring doubles the exponent.
proof fn lemma_square_step(p: int, x: int, e: nat, a: int, b: int)
    requires
        p > 0,
        congruent(p, pow(x, e), a),
        congruent(p, a * a, b),
    ensures
        congruent(p, pow(x, 2 * e), b),
{
    lemma_pow_adds(x, e, e);
    lemma_congruent_product(p, pow(x, e), pow(x, e), a, a);
}

/// The root of unity raised to the power `2^31` is minus one.
proof fn lemma_root_of_unity()
    ensures
        congruent(fr_modulus(), pow(fr_root_of_unity(), 0x8000_0000), -1),
{
    let p = fr_modulus();
    let root = fr_root_of_unity();
    lemma_pow1(root);
    lemma_square_step(
        p,
        root,
        1,
        root,
        0x4b5371495990693fad1715b02e5713b5f070bb00e28a193d63e7cb4906ffc93fint,
    );
    lemma_square_step(
        p,
        root,
        2,
        0x4b5371495990693fad1715b02e5713b5f070bb00e28a193d63e7cb4906ffc93fint,
        0x2c6d4e4511657e1e1339a815da8b398fed3a181fabb30adc694341f608c9dd56int,
    );
    lemma_square_step(
        p,
        root,
        4,
        0x2c6d4e4511657e1e1339a815da8b398fed3a181fabb30adc694341f608c9dd56int,
        0xc83ea7744bf1bee8da40c1ef2bb459884d37b826214abc6474650359d8e211bint,
    );
    lemma_square_step(
        p,
        root,
        8,
        0xc83ea7744bf1bee8da40c1ef2bb459884d37b826214abc6474650359d8e211bint,
        0x52dd465e2f09425699e276b571905a7d6558e9e3f6ac7b41d7b688830a4f2089int,
    );
    lemma_square_step(
        p,
        root,
        16,
        0x52dd465e2f09425699e276b571905a7d6558e9e3f6ac7b41d7b688830a4f2089int,
        0x23397a9300f8f98bece8ea224f31d25db94f1101b1d7a628e2d0a7869f0319edint,
    );
    lemma_square_step(
        p,
        root,
        32,
        0x23397a9300f8f98bece8ea224f31d25db94f1101b1d7a628e2d0a7869f0319edint,
        0xa0a77a3b1980c0d116168bffbedc11d02c8118402867ddc531a11a0d2d75182int,
    );
    lemma_square_step(
        p,
        root,
        64,
        0xa0a77a3b1980c0d116168bffbedc11d02c8118402867ddc531a11a0d2d75182int,
        0x19fe632fd3287390454dc1edc61a1a3c0ba12bb3da64ca5ce32ef844e11a51eint,
    );
    lemma_square_step(
        p,
        root,
        128,
        0x19fe632fd3287390454dc1edc61a1a3c0ba12bb3da64ca5ce32ef844e11a51eint,
        0x291cf6d68823e6876e0bcd91ee76273072cf6a8029b7d7bc92cf4deb77bd779cint,
    );
    lemma_square_step(
        p,
        root,
        256,
        0x291cf6d68823e6876e0bcd91ee76273072cf6a8029b7d7bc92cf4deb77bd779cint,
        0x73560252aa0655b25121af06a3b51e3cc631ffb2585a72db5616c57de0ec9eaeint,
    );
    lemma_square_step(
        p,
        root,
        512,
        0x73560252aa0655b25121af06a3b51e3cc631ffb2585a72db5616c57de0ec9eaeint,
        0xabe6a5e5abcaa32f2d38f10fbb8d1bbe08fec7c86389beec6e7a6ffb08e3363int,
    );
    lemma_square_step(
        p,
        root,
        1024,
        0xabe6a5e5abcaa32f2d38f10fbb8d1bbe08fec7c86389beec6e7a6ffb08e3363int,
        0x47c8b5817018af4fc70d0874b0691d4e46b3105f04db5844cd3979122d3ea03aint,
    );
    lemma_square_step(
        p,
        root,
        2048,
        0x47c8b5817018af4fc70d0874b0691d4e46b3105f04db5844cd3979122d3ea03aint,
        0x3e1c54bcb947035a57a6e07cb98de4a2f69e02d265e09d9fece7e0e39898d4bint,
    );
    lemma_square_step(
        p,
        root,
        4096,
        0x3e1c54bcb947035a57a6e07cb98de4a2f69e02d265e09d9fece7e0e39898d4bint,
        0x520e587a724a6955df625e80d0adef90ad8e16e84419c750194e8c62ecb38d9dint,
    );
    lemma_square_step(
        p,
        root,
        8192,
        0x520e587a724a6955df625e80d0adef90ad8e16e84419c750194e8c62ecb38d9dint,
        0x2d3056a530794f01652f717ae1c34bb0bb97a3bf30ce40fd6f421a7d8ef674fbint,
    );
    lemma_square_step(
        p,
        root,
        16384,
        0x2d3056a530794f01652f717ae1c34bb0bb97a3bf30ce40fd6f421a7d8ef674fbint,
        0x224262332d8acbf4473a2eef772c33d6cd7f2bd6d0711b7d08692405f3b70f10int,
    );
    lemma_square_step(
        p,
        root,
        32768,
        0x224262332d8acbf4473a2eef772c33d6cd7f2bd6d0711b7d08692405f3b70f10int,
        0x2155379d12180caa88f39a78f1aeb57867a665ae1fcadc91d7118f85cd96b8adint,
    );
    lemma_square_step(
        p,
        root,
        65536,
        0x2155379d12180caa88f39a78f1aeb57867a665ae1fcadc91d7118f85cd96b8adint,
        0x3291357ee558b50d483405417a0cbe39c8d5f51db3f32699fbd047e11279bb6eint,
    );
    lemma_square_step(
        p,
        root,
        131072,
        0x3291357ee558b50d483405417a0cbe39c8d5f51db3f32699fbd047e11279bb6eint,
        0x56624634b500a166dc86b01c0d477fa6ae4622f6a9152435034d2ff22a5ad9e1int,
    );
    lemma_square_step(
        p,
        root,
        262144,
        0x56624634b500a166dc86b01c0d477fa6ae4622f6a9152435034d2ff22a5ad9e1int,
        0x485d512737b1da3d2ccddea2972e89ed146b58bc434906ac6fdd00bfc78c8967int,
    );
    lemma_square_step(
        p,
        root,
        524288,
        0x485d512737b1da3d2ccddea2972e89ed146b58bc434906ac6fdd00bfc78c8967int,
        0x564c0a11a0f704f4fc3e8acfe0f8245f0ad1347b378fbf96e206da11a5d36306int,
    );
    lemma_square_step(
        p,
        root,
        1048576,
        0x564c0a11a0f704f4fc3e8acfe0f8245f0ad1347b378fbf96e206da11a5d36306int,
        0x6d031f1b5c49c83409f1ca610a08f16655ea6811be9c622d4a838b5d59cd79e5int,
    );
    lemma_square_step(
        p,
        root,
        2097152,
        0x6d031f1b5c49c83409f1ca610a08f16655ea6811be9c622d4a838b5d59cd79e5int,
        0x325db5c3debf77a18f4de02c0f776af3ea437f9626fc085e3c28d666a5c2d854int,
    );
    lemma_square_step(
        p,
        root,
        4194304,
        0x325db5c3debf77a18f4de02c0f776af3ea437f9626fc085e3c28d666a5c2d854int,
        0x95166525526a65439feec240d80689fd697168a3a6000fe4541b8ff2ee0434eint,
    );
    lemma_square_step(
        p,
        root,
        8388608,
        0x95166525526a65439feec240d80689fd697168a3a6000fe4541b8ff2ee0434eint,
        0x4f9b4098e2e9f12e6b368121ac0cf4ad0a0865a899e8deff4935bd2f817f694bint,
    );
    lemma_square_step(
        p,
        root,
        16777216,
        0x4f9b4098e2e9f12e6b368121ac0cf4ad0a0865a899e8deff4935bd2f817f694bint,
        0x6898111413588742b7c68b4d7fdd60d098d0caac87f5713c5130c2c1660125beint,
    );
    lemma_square_step(
        p,
        root,
        33554432,
        0x6898111413588742b7c68b4d7fdd60d098d0caac87f5713c5130c2c1660125beint,
        0x45af6345ec055e4d14a1e27164d8fdbd2d967f4be2f951558140d032f0a9ee53int,
    );
    lemma_square_step(
        p,
        root,
        67108864,
        0x45af6345ec055e4d14a1e27164d8fdbd2d967f4be2f951558140d032f0a9ee53int,
        0x50e0903a157988bab4bcd40e22f55448bf6e88fb4c38fb8a360c60997369df4eint,
    );
    lemma_square_step(
        p,
        root,
        134217728,
        0x50e0903a157988bab4bcd40e22f55448bf6e88fb4c38fb8a360c60997369df4eint,
        0x20b1ce9140267af9dd1c0af834cec32c17beb312f20b6f7653ea61d87742bcceint,
    );
    lemma_square_step(
        p,
        root,
        268435456,
        0x20b1ce9140267af9dd1c0af834cec32c17beb312f20b6f7653ea61d87742bcceint,
        0x345766f603fa66e78c0625cd70d77ce2b38b21c28713b7007228fd3397743f7aint,
    );
    lemma_square_step(
        p,
        root,
        536870912,
        0x345766f603fa66e78c0625cd70d77ce2b38b21c28713b7007228fd3397743f7aint,
        0x8d51ccce760304d0ec030002760300000001000000000000int,
    );
    lemma_square_step(
        p,
        root,
        1073741824,
        0x8d51ccce760304d0ec030002760300000001000000000000int,
        0x73eda753299d7d483339d80809a1d80553bda402fffe5bfeffffffff00000000int,
    );
}

/// Where half the order of an element gives minus one, every smaller power of it differs
/// from one by something one can divide by.
proof fn lemma_powers_below_order(p: int, g: int, k: nat, m: nat)
    requires
        p > 1,
        p % 2 == 1,
        k > 0,
        congruent(p, pow(g, pow(2, (k - 1) as nat) as nat), -1),
        0 < m < pow(2, k),
    ensures
        invertible(p, pow(g, m) - 1),
    decreases k,
{
    lemma_pow1(2);
    lemma_pow_adds(2, 1, (k - 1) as nat);
    let half = pow(2, (k - 1) as nat) as nat;
    vstd::arithmetic::power::lemma_pow_positive(2, (k - 1) as nat);
    if m % 2 == 1 {
        // (g^m)^half = (g^half)^m = (-1)^m = -1
        let y = pow(g, m);
        lemma_pow_multiplies(g, m, half);
        lemma_pow_multiplies(g, half, m);
        assert(m * half == half * m) by (nonlinear_arith);
        lemma_congruent_power(p, pow(g, half), -1, m);
        lemma_odd_power_of_minus_one(m);
        assert(congruent(p, pow(y, half), -1));
        // y - 1 divides y^half - 1 = -2
        lemma_geometric(y, half);
        lemma_congruent_difference(p, pow(y, half), 1, -1, 1);
        let w = (p - 1) / 2;
        assert(-2 * w == 1 - p);
        vstd::arithmetic::div_mod::lemma_mod_multiples_vanish(-1, 1, p);
        assert(is_inverse(p, -2, w));
        lemma_factor_invertible(p, y - 1, geometric(y, half), -2);
    } else {
        // g^m = (g^2)^(m / 2)
        let h = pow(g, 2);
        let quarter = pow(2, (k - 2) as nat) as nat;
        lemma_pow0(2);
        assert(k > 1);
        lemma_pow_adds(2, 1, (k - 2) as nat);
        lemma_pow_multiplies(g, 2, quarter);
        lemma_powers_below_order(p, h, (k - 1) as nat, m / 2);
        lemma_pow_multiplies(g, 2, m / 2);
    }
}

proof fn lemma_odd_power_of_minus_one(m: nat)
    requires
        m % 2 == 1,
    ensures
        pow(-1, m) == -1,
    decreases m,
{
    lemma_pow1(-1);
    if m > 1 {
        lemma_odd_power_of_minus_one((m - 2) as nat);
        lemma_pow_adds(-1, 1, 1);
        lemma_pow_adds(-1, 2, (m - 2) as nat);
    }
}

proof fn lemma_pow_2_32()
    ensures
        pow(2, 32) == 0x1_0000_0000,
{
    lemma_pow_multiplies(2, 16, 2);
    assert(pow(2, 16) == 65536) by {
        reveal_with_fuel(pow, 17);
    }
    assert(pow(65536, 2) == 0x1_0000_0000) by {
        reveal_with_fuel(pow, 3);
    }
}

/// The next power of two is a power of two.
pub proof fn lemma_next_power_of_two(n: nat) -> (k: nat)
    ensures
        next_power_of_two(n) == pow(2, k),
    decreases n,
{
    lemma_pow0(2);
    if n <= 1 {
        0
    } else {
        let j = lemma_next_power_of_two((n + 1) / 2);
        lemma_pow1(2);
        lemma_pow_adds(2, 1, j);
        (j + 1) as nat
    }
}

/// The generator of a domain has the size of the domain as its order.
proof fn lemma_domain_generator(num_coeffs: nat)
    requires
        fr_domain_size(num_coeffs) is Some,
    ensures
        is_primitive_root(
            fr_modulus(),
            fr_domain_generator(next_power_of_two(num_coeffs)),
            next_power_of_two(num_coeffs),
        ),
{
    let p = fr_modulus();
    let root = fr_root_of_unity();
    let size = next_power_of_two(num_coeffs);
    let k = lemma_next_power_of_two(num_coeffs);
    let g = fr_domain_generator(size);
    let cofactor = 0x1_0000_0000nat / size;
    lemma_pow_2_32();
    if k > 32 {
        vstd::arithmetic::power::lemma_pow_strictly_increases(2, 32, k);
    }
    lemma_pow_adds(2, k, (32 - k) as nat);
    vstd::arithmetic::power::lemma_pow_positive(2, k);
    vstd::arithmetic::power::lemma_pow_positive(2, (32 - k) as nat);
    assert(cofactor == pow(2, (32 - k) as nat)) by {
        vstd::arithmetic::div_mod::lemma_div_multiples_vanish(
            pow(2, (32 - k) as nat),
            size as int,
        );
    }
    lemma_reduce_range(p, pow(root, cofactor));
    lemma_root_of_unity();
    lemma_pow0(2);
    lemma_pow1(2);
    if k == 0 {
        // root^(2^32) = (-1)^2 = 1
        lemma_pow_adds(root, 0x8000_0000, 0x8000_0000);
        lemma_congruent_product(
            p,
            pow(root, 0x8000_0000),
            pow(root, 0x8000_0000),
            -1,
            -1,
        );
        lemma_pow1(g);
        assert(cofactor == 0x1_0000_0000);
        assert(congruent(p, pow(g, size), 1));
    } else {
        let half = pow(2, (k - 1) as nat) as nat;
        vstd::arithmetic::power::lemma_pow_positive(2, (k - 1) as nat);
        lemma_pow_adds(2, 1, (k - 1) as nat);
        lemma_congruent_power(p, g, pow(root, cofactor), half);
        lemma_pow_multiplies(root, cofactor, half);
        assert(cofactor * half == 0x8000_0000) by {
            lemma_pow_adds(2, (32 - k) as nat, (k - 1) as nat);
            assert(pow(2, 31) == 0x8000_0000) by {
                lemma_pow_adds(2, 1, 31);
            }
        }
        assert(congruent(p, pow(g, half), -1));
        lemma_pow_adds(g, half, half);
        lemma_congruent_product(p, pow(g, half), pow(g, half), -1, -1);
        assert(congruent(p, pow(g, size), 1));
        assert forall|m: nat| 0 < m < size implies invertible(p, #[trigger] pow(g, m) - 1) by {
            lemma_powers_below_order(p, g, k, m);
        }
    }
}

impl PrimeField for Fr {
    open spec fn modulus() -> int {
        fr_modulus()
    }

    open spec fn value(self) -> int {
        self.int_value()
    }

    open spec fn byte_len() -> nat {
        32
    }

    open spec fn adicity() -> nat {
        32
    }

    open spec fn domain_size(num_coeffs: nat) -> Option<nat> {
        fr_domain_size(num_coeffs)
    }

    open spec fn domain_generator(num_coeffs: nat) -> int {
        fr_domain_generator(next_power_of_two(num_coeffs))
    }

    proof fn lemma_value_range(x: Self) {
        lemma_reduce_range(fr_modulus(), limbs_value(x.limbs));
    }

    proof fn lemma_byte_len() {
        assert(pow(256, 8) == 0x1_0000_0000_0000_0000) by {
            reveal_with_fuel(pow, 9);
        }
        lemma_pow_multiplies(256, 8, 4);
        assert(fr_modulus() <= pow(0x1_0000_0000_0000_0000, 4)) by {
            reveal_with_fuel(pow, 5);
        }
    }

    fn zero() -> (r: Self) {
        Self::from_u64(0)
    }

    fn one() -> (r: Self) {
        proof {
            lemma_reduce_small(fr_modulus(), 1);
        }
        Self::from_u64(1)
    }

    fn from_u64(x: u64) -> (r: Self) {
        Fr { limbs: [x, 0, 0, 0] }
    }

    fn equals(&self, other: &Self) -> (r: bool) {
        let a = self.to_limbs();
        let b = other.to_limbs();
        let r = a[0] == b[0] && a[1] == b[1] && a[2] == b[2] && a[3] == b[3];
        proof {
            if self.int_value() == other.int_value() {
                lemma_limbs_injective(a, b);
            }
        }
        r
    }

    fn plus(self, other: Self) -> (r: Self) {
        ark_sum(self, other)
    }

    fn minus(self, other: Self) -> (r: Self) {
        ark_difference(self, other)
    }

    fn times(self, other: Self) -> (r: Self) {
        ark_product(self, other)
    }

    fn negate(self) -> (r: Self) {
        ark_negation(self)
    }

    fn inverse(self) -> (r: Option<Self>) {
        ark_inverse(self)
    }

    fn power(self, exponent: u64) -> (r: Self) {
        ark_power(self, exponent)
    }

    fn batch_inversion(elements: &mut Vec<Self>) {
        ark_batch_inversion(elements);
    }

    fn to_bytes(&self) -> (r: Vec<u8>) {
        ark_write(self)
    }

    fn two_adicity() -> (r: u32) {
        32
    }

    fn general_domain(num_coeffs: usize) -> (r: Option<GeneralEvaluationDomain<Self>>) {
        let r = ark_general_domain(num_coeffs);
        proof {
            if r is Some {
                lemma_domain_generator(num_coeffs as nat);
            }
        }
        r
    }
}

/// The domain for `num_coeffs` coefficients has room for them and, where there is more than
/// one, for less than twice as many. There is one for up to `2^32` coefficients.
pub proof fn lemma_domain_has_room(num_coeffs: nat)
    ensures
        fr_domain_size(num_coeffs) is Some <==> num_coeffs <= 0x1_0000_0000,
        fr_domain_size(num_coeffs) matches Some(size) ==> num_coeffs <= size && (num_coeffs > 1
            ==> size < 2 * num_coeffs),
{
    lemma_next_power_of_two_bounds(num_coeffs);
    if num_coeffs <= 0x1_0000_0000 {
        lemma_pow_2_32();
        lemma_next_power_of_two_below(num_coeffs, 32);
    }
}

proof fn lemma_next_power_of_two_bounds(n: nat)
    ensures
        n <= next_power_of_two(n),
        n > 1 ==> next_power_of_two(n) < 2 * n,
    decreases n,
{
    if n > 1 {
        lemma_next_power_of_two_bounds((n + 1) / 2);
    }
}

proof fn lemma_next_power_of_two_below(n: nat, k: nat)
    requires
        n <= pow(2, k),
    ensures
        next_power_of_two(n) <= pow(2, k),
    decreases n,
{
    lemma_pow0(2);
    vstd::arithmetic::power::lemma_pow_positive(2, k);
    if n > 1 {
        assert(k > 0);
        lemma_pow1(2);
        lemma_pow_adds(2, 1, (k - 1) as nat);
        lemma_next_power_of_two_below((n + 1) / 2, (k - 1) as nat);
    }
}

} // verus!
