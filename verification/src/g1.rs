//! The group of BLS12-381 that commitments are elements of.
use ark_bls12_381::{Fq as ArkFq, G1Affine};
use ark_ec::msm::VariableBaseMSM;
use ark_ec::AffineCurve;
use ark_ff::{BigInteger256, BigInteger384, PrimeField as ArkPrimeField, ToBytes};
use ark_serialize::{
    CanonicalDeserialize, CanonicalSerialize, SerializationError as ArkSerializationError,
};
use vstd::arithmetic::power::pow;
use vstd::prelude::*;

use crate::arithmetic::{congruent, reduce};
use crate::bls12_381::{fr_modulus, Fr};
use crate::encoding::{le_value, IoErrorKind, SerializationError};
use crate::field::le_bytes;
use crate::polynomial::sum;

verus! {

/// The coordinates of a point, and whether it is the point at infinity.
pub type Coordinates = (int, int, bool);

/// The order of the field that the coordinates of points are elements of.
pub open spec fn fq_modulus() -> int {
    0x1a0111ea397fe69a4b1ba7b6434bacd764774b84f38512bf6730d2a0f6b0f6241eabfffeb153ffffb9feffffffffaaabint
}

/// The integer with the given little-endian limbs.
pub open spec fn wide_limbs_value(limbs: [u64; 6]) -> int {
    let w = 0x1_0000_0000_0000_0000int;
    limbs[0] + w * (limbs[1] + w * (limbs[2] + w * (limbs[3] + w * (limbs[4] + w * limbs[5]))))
}

/// The compressed encoding of a point: the first coordinate as 48 little-endian bytes, whose
/// two highest bits say whether the second coordinate is the larger of the two possible ones,
/// and whether the point is the one at infinity.
pub open spec fn g1_encoding(point: Coordinates) -> Seq<u8> {
    if point.2 {
        le_bytes(pow(2, 382), 48)
    } else if 2 * point.1 > fq_modulus() {
        le_bytes(point.0 + pow(2, 383), 48)
    } else {
        le_bytes(point.0, 48)
    }
}

/// The coordinates of `k` times the generator of the group: what `AffineCurve::mul` computes
/// from `G1Affine::prime_subgroup_generator` and `k`.
pub uninterp spec fn g1_multiple(k: int) -> (int, int, bool);

/// The multiple of the generator that the point is, as a number below the order of the group.
pub open spec fn g1_exponent(point: Coordinates) -> int {
    choose|k: int| 0 <= k < fr_modulus() && #[trigger] g1_multiple(k) == point
}

/// The exponent of the sum of points with the given exponents, each multiplied by the scalar
/// at the same place. Points without a scalar, and scalars without a point, do not count.
pub open spec fn combined_exponent(exponents: Seq<int>, scalars: Seq<int>) -> int {
    let count = if exponents.len() <= scalars.len() {
        exponents.len()
    } else {
        scalars.len()
    };
    reduce(fr_modulus(), sum(count, |i: int| scalars[i] * exponents[i]))
}

/// The coordinates are those of a point of the curve `y^2 = x^3 + 4`, or of the point at
/// infinity.
pub open spec fn is_on_curve(point: Coordinates) -> bool {
    let (x, y, infinity) = point;
    if infinity {
        x == 0 && y == 1
    } else {
        congruent(fq_modulus(), y * y, x * x * x + 4)
    }
}

/// The coordinates are reduced, and those of a point of the curve that is a multiple of the
/// generator.
pub open spec fn is_in_subgroup(point: Coordinates) -> bool {
    &&& 0 <= point.0 < fq_modulus()
    &&& 0 <= point.1 < fq_modulus()
    &&& is_on_curve(point)
    &&& 0 <= g1_exponent(point) < fr_modulus()
    &&& g1_multiple(g1_exponent(point)) == point
}

/// The first coordinate in a compressed encoding: the integer without the two highest bits.
pub open spec fn encoded_abscissa(bytes: Seq<u8>) -> int {
    le_value(bytes) % pow(2, 382)
}

/// What is read where 48 bytes are expected to be the compressed encoding of a point. The two
/// highest bits are not both set in any encoding, and the first coordinate has to be reduced.
/// Nothing else counts where the flag says that it is the point at infinity.
pub open spec fn g1_decoding(bytes: Seq<u8>) -> Result<Coordinates, SerializationError> {
    if bytes[47] >= 0xc0 {
        Err(SerializationError::UnexpectedFlags)
    } else if encoded_abscissa(bytes) >= fq_modulus() {
        Err(SerializationError::IoError(IoErrorKind::Other))
    } else if 0x40 <= bytes[47] < 0x80 {
        Ok((0, 1, true))
    } else if exists|point: Coordinates| #[trigger]
        is_in_subgroup(point) && g1_encoding(point) == bytes {
        Ok(choose|point: Coordinates| #[trigger]
            is_in_subgroup(point) && g1_encoding(point) == bytes)
    } else {
        Err(SerializationError::InvalidData)
    }
}

/// The coordinates are those of a point of the group: one of the subgroup, which is read from
/// its encoding again.
pub open spec fn is_group_element(point: Coordinates) -> bool {
    is_in_subgroup(point) && g1_decoding(g1_encoding(point)) == Ok::<_, SerializationError>(point)
}

/// A point of the subgroup of prime order of BLS12-381, in affine coordinates.
#[derive(Clone, Copy, Debug)]
pub struct G1 {
    pub(crate) x: [u64; 6],
    pub(crate) y: [u64; 6],
    pub(crate) infinity: bool,
}

/// Wraps `CanonicalSerialize::serialize` of `ark_bls12_381::G1Affine`: the compressed
/// encoding.
#[verifier::external_body]
fn ark_encode(x: [u64; 6], y: [u64; 6], infinity: bool) -> (r: Vec<u8>)
    requires
        wide_limbs_value(x) < fq_modulus(),
        wide_limbs_value(y) < fq_modulus(),
    ensures
        r@ == g1_encoding((wide_limbs_value(x), wide_limbs_value(y), infinity)),
{
    let x = ArkFq::from_repr(BigInteger384(x)).unwrap();
    let y = ArkFq::from_repr(BigInteger384(y)).unwrap();
    let mut bytes = Vec::new();
    G1Affine::new(x, y, infinity).serialize(&mut bytes).unwrap();
    bytes
}

/// Wraps `CanonicalDeserialize::deserialize` of `ark_bls12_381::G1Affine`: the point of the
/// subgroup with the given compressed encoding, if there is one, and the point at infinity
/// where the flag says so and the first coordinate is reduced. It is read again from its own
/// encoding. Otherwise the error is that of unexpected flags where both are set, an I/O error
/// of the kind `Other` where the coordinate is not reduced, and that of invalid data where
/// there is no such point.
#[verifier::external_body]
fn ark_decode(bytes: &Vec<u8>) -> (r: Result<([u64; 6], [u64; 6], bool), SerializationError>)
    requires
        bytes@.len() == 48,
    ensures
        match g1_decoding(bytes@) {
            Ok(point) => r matches Ok(p) && point == (
                wide_limbs_value(p.0),
                wide_limbs_value(p.1),
                p.2,
            ) && is_group_element((wide_limbs_value(p.0), wide_limbs_value(p.1), p.2)),
            Err(e) => r matches Err(f) && f == e,
        },
{
    match G1Affine::deserialize(bytes.as_slice()) {
        Ok(p) => Ok((p.x.into_repr().0, p.y.into_repr().0, p.infinity)),
        Err(ArkSerializationError::NotEnoughSpace) => Err(SerializationError::NotEnoughSpace),
        Err(ArkSerializationError::InvalidData) => Err(SerializationError::InvalidData),
        Err(ArkSerializationError::UnexpectedFlags) => Err(SerializationError::UnexpectedFlags),
        Err(ArkSerializationError::IoError(e)) => Err(SerializationError::IoError(match e.kind() {
            std::io::ErrorKind::UnexpectedEof => IoErrorKind::UnexpectedEof,
            _ => IoErrorKind::Other,
        })),
    }
}

/// Wraps `ToBytes::write` of `ark_bls12_381::G1Affine`: both coordinates as 48 little-endian
/// bytes, and one byte for the point at infinity.
#[verifier::external_body]
fn ark_write_point(point: &G1) -> (r: Vec<u8>)
    ensures
        r@ == g1_bytes(point.coordinates()),
{
    let x = ArkFq::from_repr(BigInteger384(point.x)).unwrap();
    let y = ArkFq::from_repr(BigInteger384(point.y)).unwrap();
    let mut bytes = Vec::new();
    G1Affine::new(x, y, point.infinity).write(&mut bytes).unwrap();
    bytes
}

/// Wraps `AffineCurve::mul` on `G1Affine::prime_subgroup_generator`: the named multiple. The
/// generator has the order of the scalar field, so that no smaller number gives this point.
#[verifier::external_body]
fn ark_generator_multiple(k: Fr) -> (r: G1)
    ensures
        r.coordinates() == g1_multiple(k.int_value()),
        r.exponent() == k.int_value(),
{
    let k = BigInteger256(k.limbs);
    let point: G1Affine = G1Affine::prime_subgroup_generator().mul(k).into();
    G1 { x: point.x.into_repr().0, y: point.y.into_repr().0, infinity: point.infinity }
}

/// Wraps `VariableBaseMSM::multi_scalar_mul` over `ark_bls12_381::G1Affine`: the sum of the
/// points, each multiplied by the scalar at the same place, in affine coordinates. As a
/// multiple of the generator, it is the linear combination of what the points are.
#[verifier::external_body]
fn ark_multi_scalar_mul(points: &Vec<G1>, scalars: &Vec<Fr>) -> (r: G1)
    ensures
        r.exponent() == combined_exponent(
            points@.map_values(|p: G1| p.exponent()),
            scalars@.map_values(|s: Fr| s.int_value()),
        ),
        r.coordinates() == g1_multiple(r.exponent()),
{
    let read = |limbs| ArkFq::from_repr(BigInteger384(limbs)).unwrap();
    let bases: Vec<G1Affine> = points
        .iter()
        .map(|p| G1Affine::new(read(p.x), read(p.y), p.infinity))
        .collect();
    let factors: Vec<BigInteger256> = scalars.iter().map(|s| BigInteger256(s.limbs)).collect();
    let sum: G1Affine = VariableBaseMSM::multi_scalar_mul(&bases, &factors).into();
    G1 { x: sum.x.into_repr().0, y: sum.y.into_repr().0, infinity: sum.infinity }
}

impl G1 {
    /// The coordinates are those of a point of the group.
    #[verifier::type_invariant]
    spec fn inv(self) -> bool {
        is_group_element(self.coordinates())
    }

    /// The coordinates of the point.
    pub closed spec fn coordinates(self) -> Coordinates {
        (wide_limbs_value(self.x), wide_limbs_value(self.y), self.infinity)
    }

    /// The multiple of the generator that the point is.
    pub open spec fn exponent(self) -> int {
        g1_exponent(self.coordinates())
    }

    /// `k` times the generator of the group.
    pub fn generator_multiple(k: Fr) -> (r: G1)
        ensures
            r.coordinates() == g1_multiple(k.int_value()),
            r.exponent() == k.int_value(),
    {
        ark_generator_multiple(k)
    }

    /// The point with the given encoding, if there is one.
    pub fn decode(bytes: &Vec<u8>) -> (r: Result<G1, SerializationError>)
        requires
            bytes@.len() == 48,
        ensures
            match g1_decoding(bytes@) {
                Ok(point) => r matches Ok(p) && p.coordinates() == point && is_group_element(point),
                Err(e) => r matches Err(f) && f == e,
            },
    {
        match ark_decode(bytes) {
            Ok((x, y, infinity)) => Ok(G1 { x, y, infinity }),
            Err(e) => Err(e),
        }
    }

    /// The compressed encoding of the point.
    pub fn encode(&self) -> (r: Vec<u8>)
        ensures
            r@ == g1_encoding(self.coordinates()),
            is_group_element(self.coordinates()),
    {
        proof {
            use_type_invariant(self);
        }
        ark_encode(self.x, self.y, self.infinity)
    }

    /// The bytes that stand for the point in a transcript.
    pub fn to_bytes(&self) -> (r: Vec<u8>)
        ensures
            r@ == g1_bytes(self.coordinates()),
            is_group_element(self.coordinates()),
    {
        proof {
            use_type_invariant(self);
        }
        ark_write_point(self)
    }

    /// The sum of the points, each multiplied by the scalar at the same place.
    pub fn multi_scalar_mul(points: &Vec<G1>, scalars: &Vec<Fr>) -> (r: G1)
        ensures
            r.exponent() == combined_exponent(
                points@.map_values(|p: G1| p.exponent()),
                scalars@.map_values(|s: Fr| s.int_value()),
            ),
            r.coordinates() == g1_multiple(r.exponent()),
    {
        ark_multi_scalar_mul(points, scalars)
    }
}

/// The bytes that stand for a point in a transcript.
pub open spec fn g1_bytes(point: Coordinates) -> Seq<u8> {
    le_bytes(point.0, 48) + le_bytes(point.1, 48) + seq![if point.2 { 1u8 } else { 0u8 }]
}

} // verus!
