//! The canonical encoding of values as bytes.
use ark_bls12_381::Fr as ArkFr;
use ark_ff::PrimeField as ArkPrimeField;
use ark_serialize::{CanonicalDeserialize, SerializationError as ArkSerializationError};
use vstd::arithmetic::div_mod::lemma_div_denominator;
use vstd::arithmetic::power::{lemma_pow0, lemma_pow1, lemma_pow_adds, lemma_pow_positive, pow};
use vstd::prelude::*;
use vstd::string::*;
use vstd::utf8::{
    decode_utf8, decode_utf8_encode_utf8, encode_utf8, encode_utf8_decode_utf8,
    encode_utf8_valid_utf8, valid_utf8,
};

use crate::bls12_381::{fr_modulus, Fr};
use crate::field::{le_bytes, PrimeField};
use crate::g1::{g1_decoding, g1_encoding, is_group_element, Coordinates, G1};
use crate::kzg::Opening;

verus! {

/// What went wrong when a part of a value was taken from its bytes.
#[derive(Debug, PartialEq, Eq, Structural, Clone, Copy)]
pub enum IoErrorKind {
    /// There are too few bytes.
    UnexpectedEof,
    /// The bytes stand for an integer that is not reduced.
    Other,
}

/// Why bytes could not be decoded.
#[derive(Debug, PartialEq, Eq, Structural, Clone, Copy)]
pub enum SerializationError {
    /// There is no room for the flags of a value. None of the encodings in this library has
    /// so many flags.
    NotEnoughSpace,
    /// A tag, the text of a string or a point is not one that a value can have.
    InvalidData,
    /// The highest bits are flags that the value cannot have.
    UnexpectedFlags,
    /// The bytes of a part of the value could not be taken.
    IoError(IoErrorKind),
}

/// What is read from the front of some bytes: a value, and how many bytes it took.
pub type Decoded<M> = Result<(M, nat), SerializationError>;

/// Values with a canonical encoding.
pub trait Canonical: Sized {
    /// What the value is to specifications.
    type Model;

    /// What the value is to specifications.
    spec fn model(self) -> Self::Model;

    /// The model is that of a value.
    spec fn is_valid(m: Self::Model) -> bool;

    /// The bytes that are written for a value.
    spec fn encoding(m: Self::Model) -> Seq<u8>;

    /// What is read from the front of the given bytes. Bytes that follow are ignored.
    spec fn decoding(bytes: Seq<u8>) -> Decoded<Self::Model>;

    /// What was written is read again, whatever follows it.
    proof fn lemma_round_trip(m: Self::Model, rest: Seq<u8>)
        requires
            Self::is_valid(m),
        ensures
            Self::decoding(Self::encoding(m) + rest) == Decoded::Ok((m, Self::encoding(m).len())),
    ;

    /// No more bytes are read than there are.
    proof fn lemma_decoded_length(bytes: Seq<u8>)
        ensures
            Self::decoding(bytes) matches Ok(d) ==> d.1 <= bytes.len(),
    ;

    /// Writes the value at the end of `out`.
    fn serialize(&self, out: &mut Vec<u8>)
        ensures
            final(out)@ == old(out)@ + Self::encoding(self.model()),
            Self::is_valid(self.model()),
    ;

    /// Reads a value from the bytes from `start` on, and returns it with the place where it
    /// ends.
    fn deserialize(bytes: &Vec<u8>, start: usize) -> (r: Result<(Self, usize), SerializationError>)
        requires
            start <= bytes.len(),
        ensures
            match Self::decoding(bytes@.skip(start as int)) {
                Ok((m, len)) => r matches Ok((v, end)) && v.model() == m && end == start + len
                    && end <= bytes.len(),
                Err(e) => r matches Err(f) && f == e,
            },
            r matches Ok(read) ==> Self::is_valid(read.0.model()),
    ;
}

/// The integer with the given little-endian bytes.
pub open spec fn le_value(bytes: Seq<u8>) -> int
    decreases bytes.len(),
{
    if bytes.len() == 0 {
        0
    } else {
        bytes[0] + 256 * le_value(bytes.drop_first())
    }
}

/// The bytes of an integer have its value.
pub proof fn lemma_le_bytes_value(value: int, len: nat)
    requires
        0 <= value < pow(256, len),
    ensures
        le_value(le_bytes(value, len)) == value,
    decreases len,
{
    lemma_pow0(256);
    if len > 0 {
        let m = (len - 1) as nat;
        lemma_pow_adds(256, 1, m);
        lemma_pow1(256);
        let rest = value / 256;
        assert(le_bytes(value, len).drop_first() =~= le_bytes(rest, m)) by {
            assert forall|i: int| 0 <= i < m implies #[trigger] le_bytes(rest, m)[i] == le_bytes(
                value,
                len,
            )[i + 1] by {
                lemma_pow_positive(256, i as nat);
                lemma_pow_adds(256, 1, i as nat);
                lemma_div_denominator(value, 256, pow(256, i as nat));
            }
        }
        lemma_le_bytes_value(rest, m);
        assert(value / 1 == value);
        assert(le_bytes(value, len)[0] == value % 256);
    }
}

/// Bytes stand for an integer that fits into them.
pub proof fn lemma_le_value_range(bytes: Seq<u8>)
    ensures
        0 <= le_value(bytes) < pow(256, bytes.len()),
    decreases bytes.len(),
{
    lemma_pow0(256);
    if bytes.len() > 0 {
        lemma_le_value_range(bytes.drop_first());
        lemma_pow_adds(256, 1, (bytes.len() - 1) as nat);
        lemma_pow1(256);
    }
}

/// The number of values of 64 bits.
proof fn lemma_pow_256_8()
    ensures
        pow(256, 8) == 0x1_0000_0000_0000_0000,
{
    reveal_with_fuel(pow, 9);
}

/// Copies `len` bytes from `start` on, if there are as many.
fn take_bytes(bytes: &Vec<u8>, start: usize, len: usize) -> (r: Result<
    Vec<u8>,
    SerializationError,
>)
    requires
        start <= bytes.len(),
    ensures
        if start + len <= bytes.len() {
            r matches Ok(v) && v@ == bytes@.skip(start as int).take(len as int)
        } else {
            r matches Err(e) && e == SerializationError::IoError(IoErrorKind::UnexpectedEof)
        },
{
    if len > bytes.len() - start {
        return Err(SerializationError::IoError(IoErrorKind::UnexpectedEof));
    }
    let mut taken: Vec<u8> = Vec::new();
    let mut i: usize = 0;
    while i < len
        invariant
            i <= len,
            start + len <= bytes.len(),
            taken@ == bytes@.skip(start as int).take(i as int),
        decreases len - i,
    {
        taken.push(bytes[start + i]);
        i = i + 1;
        assert(taken@ =~= bytes@.skip(start as int).take(i as int));
    }
    Ok(taken)
}

/// Writes `value` as eight little-endian bytes.
fn write_u64(out: &mut Vec<u8>, value: u64)
    ensures
        final(out)@ == old(out)@ + le_bytes(value as int, 8),
{
    let ghost before = out@;
    let mut rest: u64 = value;
    let mut i: usize = 0;
    proof {
        lemma_pow0(256);
    }
    assert(value as int / 1 == value);
    while i < 8
        invariant
            i <= 8,
            rest as int == value as int / pow(256, i as nat),
            out@ == before + le_bytes(value as int, 8).take(i as int),
        decreases 8 - i,
    {
        let byte: u8 = (rest % 256) as u8;
        out.push(byte);
        proof {
            lemma_pow_positive(256, i as nat);
            lemma_pow_adds(256, i as nat, 1);
            lemma_pow1(256);
            lemma_div_denominator(value as int, pow(256, i as nat), 256);
        }
        rest = rest / 256;
        i = i + 1;
        assert(out@ =~= before + le_bytes(value as int, 8).take(i as int));
    }
    assert(le_bytes(value as int, 8).take(8) =~= le_bytes(value as int, 8));
}

/// What is read where a 64-bit integer is expected.
pub open spec fn decode_u64(bytes: Seq<u8>) -> Decoded<int> {
    if bytes.len() < 8 {
        Err(SerializationError::IoError(IoErrorKind::UnexpectedEof))
    } else {
        Ok((le_value(bytes.take(8)), 8))
    }
}

/// Reads eight little-endian bytes.
fn read_u64(bytes: &Vec<u8>, start: usize) -> (r: Result<u64, SerializationError>)
    requires
        start <= bytes.len(),
    ensures
        match decode_u64(bytes@.skip(start as int)) {
            Ok((n, len)) => r matches Ok(v) && v == n && len == 8 && start + 8 <= bytes.len(),
            Err(e) => r matches Err(f) && f == e,
        },
{
    let taken = match take_bytes(bytes, start, 8) {
        Ok(taken) => taken,
        Err(e) => {
            return Err(e);
        },
    };
    let mut value: u64 = 0;
    let mut i: usize = 8;
    proof {
        lemma_pow_256_8();
        lemma_le_value_range(taken@);
        assert(taken@.skip(8) =~= Seq::<u8>::empty());
        lemma_pow0(256);
    }
    while i > 0
        invariant
            i <= 8,
            taken@.len() == 8,
            value as int == le_value(taken@.skip(i as int)),
            pow(256, 8) == 0x1_0000_0000_0000_0000,
        decreases i,
    {
        proof {
            let from = taken@.skip(i - 1);
            assert(from.drop_first() =~= taken@.skip(i as int));
            assert(from[0] == taken@[i - 1]);
            lemma_le_value_range(from);
            vstd::arithmetic::power::lemma_pow_increases(256, (8 - (i - 1)) as nat, 8);
        }
        i = i - 1;
        value = taken[i] as u64 + 256 * value;
    }
    assert(taken@.skip(0) =~= taken@);
    Ok(value)
}

proof fn lemma_u64_round_trip(n: int, rest: Seq<u8>)
    requires
        0 <= n < 0x1_0000_0000_0000_0000,
    ensures
        decode_u64(le_bytes(n, 8) + rest) == Decoded::Ok((n, 8nat)),
{
    lemma_pow_256_8();
    lemma_le_bytes_value(n, 8);
    assert((le_bytes(n, 8) + rest).take(8) =~= le_bytes(n, 8));
}

/// The encodings of several values, one after another.
pub open spec fn all_encodings<T: Canonical>(ms: Seq<T::Model>) -> Seq<u8>
    decreases ms.len(),
{
    if ms.len() == 0 {
        Seq::empty()
    } else {
        T::encoding(ms[0]) + all_encodings::<T>(ms.drop_first())
    }
}

/// What is read where `count` values are expected, one after another.
pub open spec fn decode_all<T: Canonical>(bytes: Seq<u8>, count: nat) -> Decoded<Seq<T::Model>>
    decreases count,
{
    if count == 0 {
        Ok((Seq::empty(), 0))
    } else {
        match T::decoding(bytes) {
            Ok((m, len)) => after_prefix(
                seq![m],
                len,
                decode_all::<T>(bytes.skip(len as int), (count - 1) as nat),
            ),
            Err(e) => Err(e),
        }
    }
}

/// What was read before, with what is read after it.
pub open spec fn after_prefix<M>(ms: Seq<M>, len: nat, rest: Decoded<Seq<M>>) -> Decoded<Seq<M>> {
    match rest {
        Ok((more, k)) => Ok((ms + more, len + k)),
        Err(e) => Err(e),
    }
}

/// Several values that were written one after another are read again.
pub proof fn lemma_all_round_trip<T: Canonical>(ms: Seq<T::Model>, rest: Seq<u8>)
    requires
        forall|i: int| 0 <= i < ms.len() ==> T::is_valid(#[trigger] ms[i]),
    ensures
        decode_all::<T>(all_encodings::<T>(ms) + rest, ms.len()) == Decoded::Ok(
            (ms, all_encodings::<T>(ms).len()),
        ),
    decreases ms.len(),
{
    if ms.len() == 0 {
        assert(ms =~= Seq::<T::Model>::empty());
    } else {
        let first = T::encoding(ms[0]);
        let others = all_encodings::<T>(ms.drop_first());
        T::lemma_round_trip(ms[0], others + rest);
        assert(all_encodings::<T>(ms) + rest =~= first + (others + rest));
        assert((first + (others + rest)).skip(first.len() as int) =~= others + rest);
        assert forall|i: int| 0 <= i < ms.drop_first().len() implies T::is_valid(
            #[trigger] ms.drop_first()[i],
        ) by {
            assert(ms.drop_first()[i] == ms[i + 1]);
        }
        lemma_all_round_trip::<T>(ms.drop_first(), rest);
        assert(seq![ms[0]] + ms.drop_first() =~= ms);
    }
}

/// No more bytes are read than there are.
pub proof fn lemma_all_length<T: Canonical>(bytes: Seq<u8>, count: nat)
    ensures
        decode_all::<T>(bytes, count) matches Ok(d) ==> d.1 <= bytes.len() && d.0.len() == count,
    decreases count,
{
    if count > 0 {
        T::lemma_decoded_length(bytes);
        if let Ok((m, len)) = T::decoding(bytes) {
            lemma_all_length::<T>(bytes.skip(len as int), (count - 1) as nat);
        }
    }
}

/// The models of several values.
pub open spec fn models<T: Canonical>(vs: Seq<T>) -> Seq<T::Model> {
    vs.map_values(|v: T| v.model())
}

/// Appending a value appends its encoding.
pub proof fn lemma_all_encodings_push<T: Canonical>(ms: Seq<T::Model>, m: T::Model)
    ensures
        all_encodings::<T>(ms.push(m)) == all_encodings::<T>(ms) + T::encoding(m),
    decreases ms.len(),
{
    if ms.len() == 0 {
        assert(ms.push(m).drop_first() =~= Seq::<T::Model>::empty());
        assert(all_encodings::<T>(ms.push(m).drop_first()) =~= Seq::<u8>::empty());
        assert(all_encodings::<T>(ms.push(m)) =~= all_encodings::<T>(ms) + T::encoding(m));
    } else {
        lemma_all_encodings_push::<T>(ms.drop_first(), m);
        assert(ms.push(m).drop_first() =~= ms.drop_first().push(m));
        assert(all_encodings::<T>(ms.push(m)) =~= all_encodings::<T>(ms) + T::encoding(m));
    }
}

/// Writes several values, one after another.
pub fn serialize_all<T: Canonical>(values: &Vec<T>, out: &mut Vec<u8>)
    ensures
        final(out)@ == old(out)@ + all_encodings::<T>(models(values@)),
        forall|i: int| 0 <= i < values@.len() ==> T::is_valid((#[trigger] models(values@)[i])),
{
    let ghost before = out@;
    let ghost all = models(values@);
    let mut i: usize = 0;
    assert(all.take(0) =~= Seq::<T::Model>::empty());
    assert(before + all_encodings::<T>(all.take(0)) =~= before);
    while i < values.len()
        invariant
            i <= values.len(),
            all == models(values@),
            out@ == before + all_encodings::<T>(all.take(i as int)),
            forall|j: int| 0 <= j < i ==> T::is_valid(#[trigger] all[j]),
        decreases values.len() - i,
    {
        values[i].serialize(out);
        i = i + 1;
        proof {
            lemma_all_encodings_push::<T>(all.take(i - 1), all[i - 1]);
            assert(all.take(i as int) =~= all.take(i - 1).push(all[i - 1]));
            assert(out@ =~= before + all_encodings::<T>(all.take(i as int)));
        }
    }
    assert(all.take(i as int) =~= all);
}

/// Reads `count` values, one after another.
pub fn deserialize_all<T: Canonical>(bytes: &Vec<u8>, start: usize, count: u64) -> (r: Result<
    (Vec<T>, usize),
    SerializationError,
>)
    requires
        start <= bytes.len(),
    ensures
        match decode_all::<T>(bytes@.skip(start as int), count as nat) {
            Ok((ms, len)) => r matches Ok((vs, end)) && models(vs@) == ms && end == start + len
                && end <= bytes.len(),
            Err(e) => r matches Err(f) && f == e,
        },
        r matches Ok(read) ==> forall|i: int|
            0 <= i < read.0@.len() ==> T::is_valid(#[trigger] models(read.0@)[i]),
{
    let mut values: Vec<T> = Vec::new();
    let mut end: usize = start;
    let mut i: u64 = 0;
    let ghost whole = decode_all::<T>(bytes@.skip(start as int), count as nat);
    proof {
        assert(models(values@) =~= Seq::<T::Model>::empty());
        if let Ok((ms, len)) = whole {
            assert(Seq::<T::Model>::empty() + ms =~= ms);
        }
    }
    while i < count
        invariant
            i <= count,
            start <= end <= bytes.len(),
            whole == after_prefix(
                models(values@),
                (end - start) as nat,
                decode_all::<T>(bytes@.skip(end as int), (count - i) as nat),
            ),
            whole == decode_all::<T>(bytes@.skip(start as int), count as nat),
            forall|j: int| 0 <= j < values@.len() ==> T::is_valid(#[trigger] models(values@)[j]),
        decreases count - i,
    {
        let ghost front = bytes@.skip(end as int);
        let ghost before = values@;
        let ghost old_end = end as int;
        match T::deserialize(bytes, end) {
            Ok((value, next)) => {
                proof {
                    let len = (next - end) as nat;
                    assert(front.skip(len as int) =~= bytes@.skip(next as int));
                }
                values.push(value);
                end = next;
                i = i + 1;
                proof {
                    assert(models(values@) =~= models(before).push(value.model()));
                    let rest = decode_all::<T>(bytes@.skip(end as int), (count - i) as nat);
                    if let Ok((more, k)) = rest {
                        assert(models(before) + (seq![value.model()] + more) =~= models(values@)
                            + more);
                    }
                }
            },
            Err(e) => {
                return Err(e);
            },
        }
    }
    proof {
        assert(models(values@) + Seq::<T::Model>::empty() =~= models(values@));
    }
    Ok((values, end))
}

impl<T: Canonical> Canonical for Vec<T> {
    type Model = Seq<T::Model>;

    open spec fn model(self) -> Seq<T::Model> {
        models(self@)
    }

    open spec fn is_valid(m: Seq<T::Model>) -> bool {
        m.len() < 0x1_0000_0000_0000_0000 && forall|i: int|
            0 <= i < m.len() ==> T::is_valid(#[trigger] m[i])
    }

    /// The length as eight bytes, then the values.
    open spec fn encoding(m: Seq<T::Model>) -> Seq<u8> {
        le_bytes(m.len() as int, 8) + all_encodings::<T>(m)
    }

    open spec fn decoding(bytes: Seq<u8>) -> Decoded<Seq<T::Model>> {
        match decode_u64(bytes) {
            Ok((count, len)) => after_prefix(
                Seq::empty(),
                len,
                decode_all::<T>(bytes.skip(len as int), count as nat),
            ),
            Err(e) => Err(e),
        }
    }

    proof fn lemma_round_trip(m: Seq<T::Model>, rest: Seq<u8>) {
        let count = le_bytes(m.len() as int, 8);
        let items = all_encodings::<T>(m);
        lemma_u64_round_trip(m.len() as int, items + rest);
        assert(Self::encoding(m) + rest =~= count + (items + rest));
        assert((count + (items + rest)).skip(8) =~= items + rest);
        lemma_all_round_trip::<T>(m, rest);
        assert(Seq::<T::Model>::empty() + m =~= m);
    }

    proof fn lemma_decoded_length(bytes: Seq<u8>) {
        if let Ok((count, len)) = decode_u64(bytes) {
            lemma_all_length::<T>(bytes.skip(len as int), count as nat);
        }
    }

    fn serialize(&self, out: &mut Vec<u8>) {
        let ghost before = out@;
        write_u64(out, self.len() as u64);
        serialize_all(self, out);
        proof {
            assert(out@ =~= before + Self::encoding(self.model()));
        }
    }

    fn deserialize(bytes: &Vec<u8>, start: usize) -> (r: Result<
        (Self, usize),
        SerializationError,
    >) {
        let count = match read_u64(bytes, start) {
            Ok(count) => count,
            Err(e) => {
                return Err(e);
            },
        };
        proof {
            assert(bytes@.skip(start as int).skip(8) =~= bytes@.skip(start + 8));
            lemma_all_length::<T>(bytes@.skip(start + 8), count as nat);
            if let Ok((ms, len)) = decode_all::<T>(bytes@.skip(start + 8), count as nat) {
                assert(Seq::<T::Model>::empty() + ms =~= ms);
            }
        }
        deserialize_all::<T>(bytes, start + 8, count)
    }
}

/// Wraps `String::from_utf8`: the string with the given encoding, if there is one.
#[verifier::external_body]
fn string_from_utf8(bytes: Vec<u8>) -> (r: Option<String>)
    ensures
        r is Some <==> valid_utf8(bytes@),
        r matches Some(s) ==> s@ == decode_utf8(bytes@),
{
    String::from_utf8(bytes).ok()
}

impl Canonical for String {
    type Model = Seq<char>;

    open spec fn model(self) -> Seq<char> {
        self@
    }

    open spec fn is_valid(m: Seq<char>) -> bool {
        encode_utf8(m).len() < 0x1_0000_0000_0000_0000
    }

    /// The number of bytes as eight bytes, then the characters in UTF-8.
    open spec fn encoding(m: Seq<char>) -> Seq<u8> {
        le_bytes(encode_utf8(m).len() as int, 8) + encode_utf8(m)
    }

    open spec fn decoding(bytes: Seq<u8>) -> Decoded<Seq<char>> {
        match decode_u64(bytes) {
            Ok((n, len)) => {
                let rest = bytes.skip(len as int);
                if rest.len() < n {
                    Err(SerializationError::IoError(IoErrorKind::UnexpectedEof))
                } else if valid_utf8(rest.take(n)) {
                    Ok((decode_utf8(rest.take(n)), len + n as nat))
                } else {
                    Err(SerializationError::InvalidData)
                }
            },
            Err(e) => Err(e),
        }
    }

    proof fn lemma_round_trip(m: Seq<char>, rest: Seq<u8>) {
        let text = encode_utf8(m);
        let count = le_bytes(text.len() as int, 8);
        lemma_u64_round_trip(text.len() as int, text + rest);
        assert(Self::encoding(m) + rest =~= count + (text + rest));
        assert((count + (text + rest)).skip(8) =~= text + rest);
        assert((text + rest).take(text.len() as int) =~= text);
        encode_utf8_valid_utf8(m);
        encode_utf8_decode_utf8(m);
    }

    proof fn lemma_decoded_length(bytes: Seq<u8>) {
        if bytes.len() >= 8 {
            lemma_le_value_range(bytes.take(8));
        }
    }

    fn serialize(&self, out: &mut Vec<u8>) {
        let ghost before = out@;
        let mut text = self.as_str().as_bytes_vec();
        write_u64(out, text.len() as u64);
        out.append(&mut text);
        proof {
            assert(out@ =~= before + Self::encoding(self.model()));
        }
    }

    fn deserialize(bytes: &Vec<u8>, start: usize) -> (r: Result<
        (Self, usize),
        SerializationError,
    >) {
        let count = match read_u64(bytes, start) {
            Ok(count) => count,
            Err(e) => {
                return Err(e);
            },
        };
        let from: usize = start + 8;
        proof {
            assert(bytes@.skip(start as int).skip(8) =~= bytes@.skip(from as int));
        }
        if count > (bytes.len() - from) as u64 {
            return Err(SerializationError::IoError(IoErrorKind::UnexpectedEof));
        }
        let len: usize = count as usize;
        match take_bytes(bytes, from, len) {
            Ok(text) => match string_from_utf8(text) {
                Some(string) => {
                    proof {
                        decode_utf8_encode_utf8(text@);
                    }
                    Ok((string, from + len))
                },
                None => Err(SerializationError::InvalidData),
            },
            Err(e) => Err(e),
        }
    }
}

impl<A: Canonical, B: Canonical> Canonical for (A, B) {
    type Model = (A::Model, B::Model);

    open spec fn model(self) -> (A::Model, B::Model) {
        (self.0.model(), self.1.model())
    }

    open spec fn is_valid(m: (A::Model, B::Model)) -> bool {
        A::is_valid(m.0) && B::is_valid(m.1)
    }

    /// One value after the other.
    open spec fn encoding(m: (A::Model, B::Model)) -> Seq<u8> {
        A::encoding(m.0) + B::encoding(m.1)
    }

    open spec fn decoding(bytes: Seq<u8>) -> Decoded<(A::Model, B::Model)> {
        match A::decoding(bytes) {
            Ok((a, len)) => match B::decoding(bytes.skip(len as int)) {
                Ok((b, k)) => Ok(((a, b), len + k)),
                Err(e) => Err(e),
            },
            Err(e) => Err(e),
        }
    }

    proof fn lemma_round_trip(m: (A::Model, B::Model), rest: Seq<u8>) {
        let first = A::encoding(m.0);
        let second = B::encoding(m.1);
        A::lemma_round_trip(m.0, second + rest);
        B::lemma_round_trip(m.1, rest);
        assert(Self::encoding(m) + rest =~= first + (second + rest));
        assert((first + (second + rest)).skip(first.len() as int) =~= second + rest);
    }

    proof fn lemma_decoded_length(bytes: Seq<u8>) {
        A::lemma_decoded_length(bytes);
        if let Ok((a, len)) = A::decoding(bytes) {
            B::lemma_decoded_length(bytes.skip(len as int));
        }
    }

    fn serialize(&self, out: &mut Vec<u8>) {
        let ghost before = out@;
        self.0.serialize(out);
        self.1.serialize(out);
        proof {
            assert(out@ =~= before + Self::encoding(self.model()));
        }
    }

    fn deserialize(bytes: &Vec<u8>, start: usize) -> (r: Result<
        (Self, usize),
        SerializationError,
    >) {
        match A::deserialize(bytes, start) {
            Ok((first, middle)) => {
                proof {
                    assert(bytes@.skip(start as int).skip(middle - start) =~= bytes@.skip(
                        middle as int,
                    ));
                }
                match B::deserialize(bytes, middle) {
                    Ok((second, end)) => Ok(((first, second), end)),
                    Err(e) => Err(e),
                }
            },
            Err(e) => Err(e),
        }
    }
}

/// The model of a value that may be missing.
pub open spec fn optional_model<T: Canonical>(value: Option<T>) -> Option<T::Model> {
    match value {
        Some(v) => Some(v.model()),
        None => None,
    }
}

impl<T: Canonical> Canonical for Option<T> {
    type Model = Option<T::Model>;

    open spec fn model(self) -> Option<T::Model> {
        optional_model(self)
    }

    open spec fn is_valid(m: Option<T::Model>) -> bool {
        m matches Some(v) ==> T::is_valid(v)
    }

    /// One byte that says whether there is a value, then the value.
    open spec fn encoding(m: Option<T::Model>) -> Seq<u8> {
        match m {
            Some(v) => seq![1u8] + T::encoding(v),
            None => seq![0u8],
        }
    }

    open spec fn decoding(bytes: Seq<u8>) -> Decoded<Option<T::Model>> {
        if bytes.len() == 0 {
            Err(SerializationError::IoError(IoErrorKind::UnexpectedEof))
        } else if bytes[0] == 0 {
            Ok((None, 1))
        } else if bytes[0] == 1 {
            match T::decoding(bytes.skip(1)) {
                Ok((v, len)) => Ok((Some(v), 1 + len)),
                Err(e) => Err(e),
            }
        } else {
            Err(SerializationError::InvalidData)
        }
    }

    proof fn lemma_round_trip(m: Option<T::Model>, rest: Seq<u8>) {
        if let Some(v) = m {
            T::lemma_round_trip(v, rest);
            assert((Self::encoding(m) + rest).skip(1) =~= T::encoding(v) + rest);
        }
    }

    proof fn lemma_decoded_length(bytes: Seq<u8>) {
        if bytes.len() > 0 {
            T::lemma_decoded_length(bytes.skip(1));
        }
    }

    fn serialize(&self, out: &mut Vec<u8>) {
        let ghost before = out@;
        match self {
            Some(v) => {
                out.push(1);
                v.serialize(out);
            },
            None => {
                out.push(0);
            },
        }
        proof {
            assert(out@ =~= before + Self::encoding(self.model()));
        }
    }

    fn deserialize(bytes: &Vec<u8>, start: usize) -> (r: Result<
        (Self, usize),
        SerializationError,
    >) {
        if start == bytes.len() {
            return Err(SerializationError::IoError(IoErrorKind::UnexpectedEof));
        }
        let flag: u8 = bytes[start];
        proof {
            assert(bytes@.skip(start as int)[0] == flag);
            assert(bytes@.skip(start as int).skip(1) =~= bytes@.skip(start + 1));
        }
        if flag == 0 {
            Ok((None, start + 1))
        } else if flag == 1 {
            match T::deserialize(bytes, start + 1) {
                Ok((v, end)) => Ok((Some(v), end)),
                Err(e) => Err(e),
            }
        } else {
            Err(SerializationError::InvalidData)
        }
    }
}

/// What is read where 32 bytes are expected to be those of an element of the scalar field: the
/// integer with these little-endian bytes, if that is reduced. The highest bit is a flag that
/// field elements do not have.
pub open spec fn fr_decoding(bytes: Seq<u8>) -> Result<int, SerializationError> {
    if le_value(bytes) < fr_modulus() {
        Ok(le_value(bytes))
    } else if bytes[31] >= 0x80 {
        Err(SerializationError::UnexpectedFlags)
    } else {
        Err(SerializationError::IoError(IoErrorKind::Other))
    }
}

/// Wraps `CanonicalDeserialize::deserialize` of `ark_bls12_381::Fr`: the element that stands
/// for the integer with the given 32 little-endian bytes, if that is reduced. Otherwise the
/// error is that of unexpected flags where the highest bit is set, and an I/O error of the
/// kind `Other` where it is not.
#[verifier::external_body]
fn ark_read(bytes: &Vec<u8>) -> (r: Result<Fr, SerializationError>)
    requires
        bytes@.len() == 32,
    ensures
        match fr_decoding(bytes@) {
            Ok(value) => r matches Ok(x) && x.int_value() == value,
            Err(e) => r matches Err(f) && f == e,
        },
{
    match ArkFr::deserialize(bytes.as_slice()) {
        Ok(x) => Ok(Fr { limbs: x.into_repr().0 }),
        Err(ArkSerializationError::NotEnoughSpace) => Err(SerializationError::NotEnoughSpace),
        Err(ArkSerializationError::InvalidData) => Err(SerializationError::InvalidData),
        Err(ArkSerializationError::UnexpectedFlags) => Err(SerializationError::UnexpectedFlags),
        Err(ArkSerializationError::IoError(e)) => Err(SerializationError::IoError(match e.kind() {
            std::io::ErrorKind::UnexpectedEof => IoErrorKind::UnexpectedEof,
            _ => IoErrorKind::Other,
        })),
    }
}

proof fn lemma_modulus_width()
    ensures
        fr_modulus() < pow(256, 32),
{
    lemma_pow_256_8();
    vstd::arithmetic::power::lemma_pow_multiplies(256, 8, 4);
    assert(pow(0x1_0000_0000_0000_0000, 4)
        == 0x1_0000_0000_0000_0000_0000_0000_0000_0000_0000_0000_0000_0000_0000_0000_0000_0000int)
        by {
        reveal_with_fuel(pow, 5);
    }
}

impl Canonical for Fr {
    type Model = int;

    open spec fn model(self) -> int {
        self.int_value()
    }

    open spec fn is_valid(m: int) -> bool {
        0 <= m < fr_modulus()
    }

    /// 32 little-endian bytes.
    open spec fn encoding(m: int) -> Seq<u8> {
        le_bytes(m, 32)
    }

    open spec fn decoding(bytes: Seq<u8>) -> Decoded<int> {
        if bytes.len() < 32 {
            Err(SerializationError::IoError(IoErrorKind::UnexpectedEof))
        } else {
            match fr_decoding(bytes.take(32)) {
                Ok(value) => Ok((value, 32)),
                Err(e) => Err(e),
            }
        }
    }

    proof fn lemma_round_trip(m: int, rest: Seq<u8>) {
        lemma_modulus_width();
        lemma_le_bytes_value(m, 32);
        assert((le_bytes(m, 32) + rest).take(32) =~= le_bytes(m, 32));
    }

    proof fn lemma_decoded_length(bytes: Seq<u8>) {
    }

    fn serialize(&self, out: &mut Vec<u8>) {
        proof {
            Fr::lemma_value_range(*self);
        }
        let mut bytes = self.to_bytes();
        out.append(&mut bytes);
    }

    fn deserialize(bytes: &Vec<u8>, start: usize) -> (r: Result<
        (Self, usize),
        SerializationError,
    >) {
        match take_bytes(bytes, start, 32) {
            Ok(taken) => match ark_read(&taken) {
                Ok(x) => {
                    proof {
                        Fr::lemma_value_range(x);
                    }
                    Ok((x, start + 32))
                },
                Err(e) => Err(e),
            },
            Err(e) => Err(e),
        }
    }
}

impl Canonical for G1 {
    type Model = Coordinates;

    open spec fn model(self) -> Coordinates {
        self.coordinates()
    }

    open spec fn is_valid(m: Coordinates) -> bool {
        is_group_element(m)
    }

    /// The compressed form, of 48 bytes.
    open spec fn encoding(m: Coordinates) -> Seq<u8> {
        g1_encoding(m)
    }

    open spec fn decoding(bytes: Seq<u8>) -> Decoded<Coordinates> {
        if bytes.len() < 48 {
            Err(SerializationError::IoError(IoErrorKind::UnexpectedEof))
        } else {
            match g1_decoding(bytes.take(48)) {
                Ok(point) => Ok((point, 48)),
                Err(e) => Err(e),
            }
        }
    }

    proof fn lemma_round_trip(m: Coordinates, rest: Seq<u8>) {
        assert((g1_encoding(m) + rest).take(48) =~= g1_encoding(m));
    }

    proof fn lemma_decoded_length(bytes: Seq<u8>) {
    }

    fn serialize(&self, out: &mut Vec<u8>) {
        let mut bytes = self.encode();
        out.append(&mut bytes);
    }

    fn deserialize(bytes: &Vec<u8>, start: usize) -> (r: Result<
        (Self, usize),
        SerializationError,
    >) {
        match take_bytes(bytes, start, 48) {
            Ok(taken) => match G1::decode(&taken) {
                Ok(point) => Ok((point, start + 48)),
                Err(e) => Err(e),
            },
            Err(e) => Err(e),
        }
    }
}

impl Canonical for Opening {
    type Model = (Coordinates, Option<int>);

    open spec fn model(self) -> (Coordinates, Option<int>) {
        self.parts()
    }

    open spec fn is_valid(m: (Coordinates, Option<int>)) -> bool {
        <(G1, Option<Fr>) as Canonical>::is_valid(m)
    }

    /// The commitment, then the evaluation of the random polynomial.
    open spec fn encoding(m: (Coordinates, Option<int>)) -> Seq<u8> {
        <(G1, Option<Fr>) as Canonical>::encoding(m)
    }

    open spec fn decoding(bytes: Seq<u8>) -> Decoded<(Coordinates, Option<int>)> {
        <(G1, Option<Fr>) as Canonical>::decoding(bytes)
    }

    proof fn lemma_round_trip(m: (Coordinates, Option<int>), rest: Seq<u8>) {
        <(G1, Option<Fr>) as Canonical>::lemma_round_trip(m, rest);
    }

    proof fn lemma_decoded_length(bytes: Seq<u8>) {
        <(G1, Option<Fr>) as Canonical>::lemma_decoded_length(bytes);
    }

    fn serialize(&self, out: &mut Vec<u8>) {
        (self.w, self.random_v).serialize(out);
    }

    fn deserialize(bytes: &Vec<u8>, start: usize) -> (r: Result<
        (Self, usize),
        SerializationError,
    >) {
        match <(G1, Option<Fr>) as Canonical>::deserialize(bytes, start) {
            Ok(((w, random_v), end)) => Ok((Opening { w, random_v }, end)),
            Err(e) => Err(e),
        }
    }
}

} // verus!
