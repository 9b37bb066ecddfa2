//! The serialization protocol and its instances for the primitive types,
//! strings, sequences and pairs.

use super::endian::le_bytes;
use super::endian::le_read_i64;
use super::endian::le_read_u32;
use super::endian::le_read_u64;
use super::endian::le_value;
use super::endian::le_write_i64;
use super::endian::le_write_u32;
use super::endian::le_write_u64;
use super::endian::lemma_le_bytes_len;
use super::endian::lemma_le_value_of_le_bytes;
use super::endian::lemma_pow256_values;
use super::endian::lemma_signed_of_unsigned_of;
use super::endian::signed_of;
use super::endian::unsigned_of;
use super::vint::lemma_vint_scan_in_bounds;
use super::vint::lemma_vint_scan_of_encoding;
use super::vint::vint_decoding;
use super::vint::vint_encoding;
use super::vint::VInt;
use vstd::prelude::*;
use vstd::slice::slice_subrange;
use vstd::utf8::decode_utf8;
use vstd::utf8::encode_utf8;
use vstd::utf8::encode_utf8_decode_utf8;
use vstd::utf8::encode_utf8_valid_utf8;
use vstd::utf8::valid_utf8;

verus! {

/// Why a value could not be read back from a byte source.
#[derive(Debug, Clone, Copy, PartialEq, Eq, Structural)]
pub enum DecodeError {
    /// The source ended inside a fixed-width value.
    UnexpectedEof,
    /// The bytes are malformed: a variable-length integer without a last
    /// byte, a string shorter than its declared length, a string that is
    /// not UTF-8, terms of a dictionary that are not in strictly increasing
    /// order, or an address that lies outside the blob.
    InvalidData,
}

/// A value that can write itself to a byte sink and be rebuilt from a byte
/// source.
///
/// The wire format of a type is given by two functions on its mathematical
/// model: `encoding`, the bytes of a value, and `decoding`, what a reader
/// makes of the front of a byte sequence. `serialize` and `deserialize`
/// compute exactly these.
pub trait BinarySerializable: core::fmt::Debug + Sized {
    /// The mathematical value that an executable value stands for.
    type Model;

    /// The mathematical value of `self`.
    spec fn model(&self) -> Self::Model;

    /// The bytes that stand for `m`.
    spec fn encoding(m: Self::Model) -> Seq<u8>;

    /// What reading one value from the front of `bytes` gives: the value and
    /// the number of bytes that it took, or the error.
    spec fn decoding(bytes: Seq<u8>) -> Result<(Self::Model, nat), DecodeError>;

    /// A successful read takes no more bytes than there are.
    proof fn lemma_decoding_in_bounds(bytes: Seq<u8>)
        ensures
            Self::decoding(bytes) matches Ok((_, n)) ==> n <= bytes.len(),
    ;

    /// Reading an encoding gives back the value, and takes the bytes of the
    /// encoding and no more, whatever follows them. The encoding must fit in
    /// memory, as every encoding that `serialize` wrote does.
    proof fn lemma_round_trip(&self, rest: Seq<u8>)
        requires
            Self::encoding(self.model()).len() <= usize::MAX,
        ensures
            Self::decoding(Self::encoding(self.model()) + rest) == Ok::<
                (Self::Model, nat),
                DecodeError,
            >((self.model(), Self::encoding(self.model()).len())),
    ;

    /// Appends the encoding of `self` to `writer` and returns its length.
    fn serialize(&self, writer: &mut Vec<u8>) -> (written: usize)
        ensures
            final(writer)@ == old(writer)@ + Self::encoding(self.model()),
            written == Self::encoding(self.model()).len(),
    ;

    /// Reads one value from the front of `reader` and moves `reader` past
    /// it. On an error `reader` is left where it was.
    fn deserialize(reader: &mut &[u8]) -> (result: Result<Self, DecodeError>)
        ensures
            match Self::decoding(old(reader)@) {
                Ok((m, n)) => result is Ok && result->Ok_0.model() == m && final(reader)@
                    == old(reader)@.skip(n as int),
                Err(e) => result == Err::<Self, DecodeError>(e) && final(reader)@ == old(reader)@,
            },
    ;
}

/// Appends `bytes` to `writer`.
pub(crate) fn append_bytes(writer: &mut Vec<u8>, bytes: &[u8])
    ensures
        final(writer)@ == old(writer)@ + bytes@,
{
    let mut i: usize = 0;
    while i < bytes.len()
        invariant
            i <= bytes.len(),
            writer@ == old(writer)@ + bytes@.take(i as int),
        decreases bytes.len() - i,
    {
        writer.push(bytes[i]);
        assert(writer@ =~= old(writer)@ + bytes@.take(i + 1));
        i += 1;
    }
    assert(bytes@.take(i as int) =~= bytes@);
}

/// Calls `core::str::from_utf8`. Believed of it: it accepts exactly the
/// byte sequences that are valid UTF-8, and the text it returns is what
/// those bytes decode to.
#[verifier::external_body]
pub(crate) fn str_from_utf8(bytes: &[u8]) -> (text: Option<&str>)
    ensures
        text is Some <==> valid_utf8(bytes@),
        text matches Some(s) ==> s@ == decode_utf8(bytes@),
{
    match core::str::from_utf8(bytes) {
        Ok(s) => Some(s),
        Err(_) => None,
    }
}

impl BinarySerializable for () {
    type Model = ();

    open spec fn model(&self) -> () {
        ()
    }

    open spec fn encoding(m: ()) -> Seq<u8> {
        Seq::empty()
    }

    open spec fn decoding(bytes: Seq<u8>) -> Result<((), nat), DecodeError> {
        Ok(((), 0nat))
    }

    proof fn lemma_decoding_in_bounds(bytes: Seq<u8>) {
    }

    proof fn lemma_round_trip(&self, rest: Seq<u8>) {
    }

    fn serialize(&self, writer: &mut Vec<u8>) -> (written: usize) {
        assert(writer@ =~= writer@ + Seq::<u8>::empty());
        0
    }

    fn deserialize(reader: &mut &[u8]) -> (result: Result<(), DecodeError>) {
        assert(reader@.skip(0) =~= reader@);
        Ok(())
    }
}

impl BinarySerializable for u8 {
    type Model = u8;

    open spec fn model(&self) -> u8 {
        *self
    }

    open spec fn encoding(m: u8) -> Seq<u8> {
        seq![m]
    }

    open spec fn decoding(bytes: Seq<u8>) -> Result<(u8, nat), DecodeError> {
        if bytes.len() < 1 {
            Err(DecodeError::UnexpectedEof)
        } else {
            Ok((bytes[0], 1nat))
        }
    }

    proof fn lemma_decoding_in_bounds(bytes: Seq<u8>) {
    }

    proof fn lemma_round_trip(&self, rest: Seq<u8>) {
    }

    fn serialize(&self, writer: &mut Vec<u8>) -> (written: usize) {
        writer.push(*self);
        1
    }

    fn deserialize(reader: &mut &[u8]) -> (result: Result<u8, DecodeError>) {
        let source: &[u8] = *reader;
        if source.len() < 1 {
            return Err(DecodeError::UnexpectedEof);
        }
        let b = source[0];
        *reader = slice_subrange(source, 1, source.len());
        Ok(b)
    }
}

impl BinarySerializable for u32 {
    type Model = u32;

    open spec fn model(&self) -> u32 {
        *self
    }

    open spec fn encoding(m: u32) -> Seq<u8> {
        le_bytes(m as nat, 4)
    }

    open spec fn decoding(bytes: Seq<u8>) -> Result<(u32, nat), DecodeError> {
        if bytes.len() < 4 {
            Err(DecodeError::UnexpectedEof)
        } else {
            Ok((le_value(bytes.subrange(0, 4)) as u32, 4nat))
        }
    }

    proof fn lemma_decoding_in_bounds(bytes: Seq<u8>) {
    }

    proof fn lemma_round_trip(&self, rest: Seq<u8>) {
        let bytes = le_bytes(*self as nat, 4);
        lemma_le_bytes_len(*self as nat, 4);
        lemma_pow256_values();
        lemma_le_value_of_le_bytes(*self as nat, 4);
        assert((bytes + rest).subrange(0, 4) =~= bytes);
    }

    fn serialize(&self, writer: &mut Vec<u8>) -> (written: usize) {
        let bytes = le_write_u32(*self);
        append_bytes(writer, bytes.as_slice());
        proof {
            lemma_le_bytes_len(*self as nat, 4);
        }
        4
    }

    fn deserialize(reader: &mut &[u8]) -> (result: Result<u32, DecodeError>) {
        let source: &[u8] = *reader;
        if source.len() < 4 {
            return Err(DecodeError::UnexpectedEof);
        }
        let n = le_read_u32(source);
        *reader = slice_subrange(source, 4, source.len());
        Ok(n)
    }
}

impl BinarySerializable for u64 {
    type Model = u64;

    open spec fn model(&self) -> u64 {
        *self
    }

    open spec fn encoding(m: u64) -> Seq<u8> {
        le_bytes(m as nat, 8)
    }

    open spec fn decoding(bytes: Seq<u8>) -> Result<(u64, nat), DecodeError> {
        if bytes.len() < 8 {
            Err(DecodeError::UnexpectedEof)
        } else {
            Ok((le_value(bytes.subrange(0, 8)) as u64, 8nat))
        }
    }

    proof fn lemma_decoding_in_bounds(bytes: Seq<u8>) {
    }

    proof fn lemma_round_trip(&self, rest: Seq<u8>) {
        let bytes = le_bytes(*self as nat, 8);
        lemma_le_bytes_len(*self as nat, 8);
        lemma_pow256_values();
        lemma_le_value_of_le_bytes(*self as nat, 8);
        assert((bytes + rest).subrange(0, 8) =~= bytes);
    }

    fn serialize(&self, writer: &mut Vec<u8>) -> (written: usize) {
        let bytes = le_write_u64(*self);
        append_bytes(writer, bytes.as_slice());
        proof {
            lemma_le_bytes_len(*self as nat, 8);
        }
        8
    }

    fn deserialize(reader: &mut &[u8]) -> (result: Result<u64, DecodeError>) {
        let source: &[u8] = *reader;
        if source.len() < 8 {
            return Err(DecodeError::UnexpectedEof);
        }
        let n = le_read_u64(source);
        *reader = slice_subrange(source, 8, source.len());
        Ok(n)
    }
}

impl BinarySerializable for i64 {
    type Model = i64;

    open spec fn model(&self) -> i64 {
        *self
    }

    open spec fn encoding(m: i64) -> Seq<u8> {
        le_bytes(unsigned_of(m), 8)
    }

    open spec fn decoding(bytes: Seq<u8>) -> Result<(i64, nat), DecodeError> {
        if bytes.len() < 8 {
            Err(DecodeError::UnexpectedEof)
        } else {
            Ok((signed_of(le_value(bytes.subrange(0, 8))), 8nat))
        }
    }

    proof fn lemma_decoding_in_bounds(bytes: Seq<u8>) {
    }

    proof fn lemma_round_trip(&self, rest: Seq<u8>) {
        let bytes = le_bytes(unsigned_of(*self), 8);
        lemma_le_bytes_len(unsigned_of(*self), 8);
        lemma_pow256_values();
        lemma_signed_of_unsigned_of(*self);
        lemma_le_value_of_le_bytes(unsigned_of(*self), 8);
        assert((bytes + rest).subrange(0, 8) =~= bytes);
    }

    fn serialize(&self, writer: &mut Vec<u8>) -> (written: usize) {
        let bytes = le_write_i64(*self);
        append_bytes(writer, bytes.as_slice());
        proof {
            lemma_le_bytes_len(unsigned_of(*self), 8);
        }
        8
    }

    fn deserialize(reader: &mut &[u8]) -> (result: Result<i64, DecodeError>) {
        let source: &[u8] = *reader;
        if source.len() < 8 {
            return Err(DecodeError::UnexpectedEof);
        }
        let n = le_read_i64(source);
        proof {
            lemma_signed_of_unsigned_of(n);
        }
        *reader = slice_subrange(source, 8, source.len());
        Ok(n)
    }
}

impl BinarySerializable for String {
    type Model = Seq<char>;

    open spec fn model(&self) -> Seq<char> {
        self@
    }

    open spec fn encoding(m: Seq<char>) -> Seq<u8> {
        vint_encoding(encode_utf8(m).len()) + encode_utf8(m)
    }

    open spec fn decoding(bytes: Seq<u8>) -> Result<(Seq<char>, nat), DecodeError> {
        match vint_decoding(bytes) {
            Err(e) => Err(e),
            Ok((len, n)) => {
                let body = bytes.subrange(n as int, n + len);
                if len > bytes.len() - n {
                    Err(DecodeError::InvalidData)
                } else if !valid_utf8(body) {
                    Err(DecodeError::InvalidData)
                } else {
                    Ok((decode_utf8(body), (n + len) as nat))
                }
            },
        }
    }

    proof fn lemma_decoding_in_bounds(bytes: Seq<u8>) {
        lemma_vint_scan_in_bounds(bytes);
    }

    proof fn lemma_round_trip(&self, rest: Seq<u8>) {
        let body = encode_utf8(self@);
        let prefix = vint_encoding(body.len());
        let bytes = prefix + body + rest;
        lemma_vint_scan_of_encoding(body.len(), body + rest);
        assert(bytes =~= prefix + (body + rest));
        assert(bytes.subrange(prefix.len() as int, (prefix.len() + body.len()) as int) =~= body);
        encode_utf8_valid_utf8(self@);
        encode_utf8_decode_utf8(self@);
    }

    fn serialize(&self, writer: &mut Vec<u8>) -> (written: usize) {
        let data: &[u8] = self.as_str().as_bytes();
        let mut size: usize = VInt(data.len() as u64).serialize(writer);
        append_bytes(writer, data);
        assert(writer@.len() == writer.len());
        size += data.len();
        size
    }

    fn deserialize(reader: &mut &[u8]) -> (result: Result<String, DecodeError>) {
        let source: &[u8] = *reader;
        let len: u64 = match VInt::deserialize(reader) {
            Ok(v) => v.val(),
            Err(e) => {
                return Err(e);
            },
        };
        let rest: &[u8] = *reader;
        proof {
            lemma_vint_scan_in_bounds(source@);
        }
        if len > rest.len() as u64 {
            *reader = source;
            return Err(DecodeError::InvalidData);
        }
        let body = slice_subrange(rest, 0, len as usize);
        let ghost n = source@.len() - rest@.len();
        assert(body@ =~= source@.subrange(n, n + len));
        match str_from_utf8(body) {
            None => {
                *reader = source;
                Err(DecodeError::InvalidData)
            },
            Some(text) => {
                *reader = slice_subrange(rest, len as usize, rest.len());
                assert(reader@ =~= source@.skip(n + len));
                Ok(text.to_owned())
            },
        }
    }
}

/// A string encodes to its UTF-8 bytes behind
/// their count, so to one byte more than its UTF-8 bytes where those are
/// fewer than 128, and to one byte where it is empty.
pub proof fn lemma_string_encoding_len(text: Seq<char>)
    ensures
        <String as BinarySerializable>::encoding(text).len() == vint_encoding(
            encode_utf8(text).len(),
        ).len() + encode_utf8(text).len(),
        encode_utf8(text).len() < 128 ==> <String as BinarySerializable>::encoding(text).len() == 1
            + encode_utf8(text).len(),
        text.len() == 0 ==> <String as BinarySerializable>::encoding(text).len() == 1,
{
}

/// A string whose declared length exceeds the bytes that
/// follow the length is refused as invalid data.
pub proof fn lemma_string_truncated(bytes: Seq<u8>)
    requires
        vint_decoding(bytes) matches Ok((len, n)) && bytes.len() < n + len,
    ensures
        <String as BinarySerializable>::decoding(bytes) == Err::<(Seq<char>, nat), DecodeError>(
            DecodeError::InvalidData,
        ),
{
}

/// The mathematical values of `items`, in order.
pub open spec fn models<T: BinarySerializable>(items: Seq<T>) -> Seq<T::Model> {
    Seq::new(items.len(), |i: int| items[i].model())
}

/// The encodings of `items`, one after the other.
pub open spec fn concat_encodings<T: BinarySerializable>(items: Seq<T::Model>) -> Seq<u8>
    decreases items.len(),
{
    if items.len() == 0 {
        Seq::empty()
    } else {
        T::encoding(items[0]) + concat_encodings::<T>(items.drop_first())
    }
}

/// What reading `count` values, one after the other, from the front of
/// `bytes` gives: the values and the number of bytes that they took, or the
/// error of the first value that could not be read.
pub open spec fn decode_items<T: BinarySerializable>(bytes: Seq<u8>, count: nat) -> Result<
    (Seq<T::Model>, nat),
    DecodeError,
>
    decreases count,
{
    if count == 0 {
        Ok((Seq::empty(), 0nat))
    } else {
        match T::decoding(bytes) {
            Err(e) => Err(e),
            Ok((first, n)) => match decode_items::<T>(bytes.skip(n as int), (count - 1) as nat) {
                Err(e) => Err(e),
                Ok((others, k)) => Ok((seq![first] + others, n + k)),
            },
        }
    }
}

/// Reading `count` values gives `count` values and takes no more bytes than
/// there are.
pub proof fn lemma_decode_items_in_bounds<T: BinarySerializable>(bytes: Seq<u8>, count: nat)
    ensures
        decode_items::<T>(bytes, count) matches Ok((items, n)) ==> items.len() == count && n
            <= bytes.len(),
    decreases count,
{
    if count > 0 {
        T::lemma_decoding_in_bounds(bytes);
        if let Ok((first, n)) = T::decoding(bytes) {
            lemma_decode_items_in_bounds::<T>(bytes.skip(n as int), (count - 1) as nat);
        }
    }
}

/// The encodings of a sequence are at least as long as that of its first
/// value and as those of the others together.
pub proof fn lemma_concat_encodings_len<T: BinarySerializable>(items: Seq<T::Model>)
    requires
        items.len() > 0,
    ensures
        concat_encodings::<T>(items).len() == T::encoding(items[0]).len() + concat_encodings::<T>(
            items.drop_first(),
        ).len(),
{
}

/// The encodings of a sequence are those of its first `i` values followed by
/// those of the others.
pub proof fn lemma_concat_encodings_split<T: BinarySerializable>(items: Seq<T::Model>, i: int)
    requires
        0 <= i <= items.len(),
    ensures
        concat_encodings::<T>(items) == concat_encodings::<T>(items.take(i)) + concat_encodings::<T>(
            items.skip(i),
        ),
    decreases i,
{
    if i == 0 {
        assert(items.skip(0) =~= items);
        assert(items.take(0) =~= Seq::empty());
        assert(concat_encodings::<T>(items) =~= Seq::<u8>::empty() + concat_encodings::<T>(items));
    } else {
        let others = items.drop_first();
        lemma_concat_encodings_split::<T>(others, i - 1);
        assert(items.take(i).drop_first() =~= others.take(i - 1));
        assert(items.skip(i) =~= others.skip(i - 1));
        assert(items.take(i)[0] == items[0]);
        assert(concat_encodings::<T>(items) =~= concat_encodings::<T>(items.take(i))
            + concat_encodings::<T>(items.skip(i)));
    }
}

/// Adding a value at the end adds its encoding at the end.
pub proof fn lemma_concat_encodings_push<T: BinarySerializable>(items: Seq<T::Model>, m: T::Model)
    ensures
        concat_encodings::<T>(items.push(m)) == concat_encodings::<T>(items) + T::encoding(m),
{
    let all = items.push(m);
    lemma_concat_encodings_split::<T>(all, items.len() as int);
    assert(all.take(items.len() as int) =~= items);
    let one = seq![m];
    assert(all.skip(items.len() as int) =~= one);
    assert(one[0] == m);
    assert(one.drop_first() =~= Seq::<T::Model>::empty());
    assert(concat_encodings::<T>(one.drop_first()) =~= Seq::<u8>::empty());
    assert(concat_encodings::<T>(one) =~= T::encoding(m));
}

/// Where every value of a type encodes to `width` bytes, a sequence of `n`
/// values encodes, without its count, to `n * width` bytes.
pub proof fn lemma_concat_encodings_fixed_width<T: BinarySerializable>(
    items: Seq<T::Model>,
    width: nat,
)
    requires
        forall|m: T::Model| (#[trigger] T::encoding(m)).len() == width,
    ensures
        concat_encodings::<T>(items).len() == items.len() * width,
    decreases items.len(),
{
    if items.len() > 0 {
        lemma_concat_encodings_fixed_width::<T>(items.drop_first(), width);
        assert(items.len() * width == width + (items.len() - 1) * width) by (nonlinear_arith);
    }
}

/// A sequence of `n` 32-bit integers encodes to
/// four bytes for each behind their count, so to `1 + 4 * n` bytes where
/// `n < 128`, and to one byte where it is empty.
pub proof fn lemma_u32_sequence_encoding_len(items: Seq<u32>)
    ensures
        <Vec<u32> as BinarySerializable>::encoding(items).len() == vint_encoding(
            items.len(),
        ).len() + 4 * items.len(),
        items.len() < 128 ==> <Vec<u32> as BinarySerializable>::encoding(items).len() == 1 + 4
            * items.len(),
{
    assert forall|m: u32| (#[trigger] <u32 as BinarySerializable>::encoding(m)).len() == 4 by {
        lemma_le_bytes_len(m as nat, 4);
    }
    lemma_concat_encodings_fixed_width::<u32>(items, 4);
}

/// Reading as many values as were encoded, from their encodings one after
/// the other, gives the values back and takes those bytes and no more.
pub proof fn lemma_items_round_trip<T: BinarySerializable>(items: Seq<T>, rest: Seq<u8>)
    requires
        concat_encodings::<T>(models(items)).len() <= usize::MAX,
    ensures
        decode_items::<T>(concat_encodings::<T>(models(items)) + rest, items.len()) == Ok::<
            (Seq<T::Model>, nat),
            DecodeError,
        >((models(items), concat_encodings::<T>(models(items)).len())),
    decreases items.len(),
{
    let all = models(items);
    if items.len() == 0 {
        assert(all =~= Seq::empty());
    } else {
        let first = items[0];
        let others = items.drop_first();
        let head = T::encoding(first.model());
        let tail = concat_encodings::<T>(models(others));
        assert(all.drop_first() =~= models(others));
        assert(all[0] == first.model());
        lemma_concat_encodings_len::<T>(all);
        T::lemma_round_trip(&first, tail + rest);
        assert(concat_encodings::<T>(all) + rest =~= head + (tail + rest));
        assert((head + (tail + rest)).skip(head.len() as int) =~= tail + rest);
        lemma_items_round_trip::<T>(others, rest);
        assert(seq![first.model()] + models(others) =~= all);
    }
}

impl<T: BinarySerializable> BinarySerializable for Vec<T> {
    type Model = Seq<T::Model>;

    open spec fn model(&self) -> Seq<T::Model> {
        models(self@)
    }

    open spec fn encoding(m: Seq<T::Model>) -> Seq<u8> {
        vint_encoding(m.len()) + concat_encodings::<T>(m)
    }

    open spec fn decoding(bytes: Seq<u8>) -> Result<(Seq<T::Model>, nat), DecodeError> {
        match vint_decoding(bytes) {
            Err(e) => Err(e),
            Ok((count, n)) => match decode_items::<T>(bytes.skip(n as int), count as nat) {
                Err(e) => Err(e),
                Ok((items, k)) => Ok((items, n + k)),
            },
        }
    }

    proof fn lemma_decoding_in_bounds(bytes: Seq<u8>) {
        lemma_vint_scan_in_bounds(bytes);
        if let Ok((count, n)) = vint_decoding(bytes) {
            lemma_decode_items_in_bounds::<T>(bytes.skip(n as int), count as nat);
        }
    }

    proof fn lemma_round_trip(&self, rest: Seq<u8>) {
        let m = models(self@);
        let prefix = vint_encoding(m.len());
        let body = concat_encodings::<T>(m);
        assert(self@.len() == self.len());
        lemma_vint_scan_of_encoding(m.len(), body + rest);
        assert(prefix + body + rest =~= prefix + (body + rest));
        assert((prefix + (body + rest)).skip(prefix.len() as int) =~= body + rest);
        lemma_items_round_trip::<T>(self@, rest);
    }

    fn serialize(&self, writer: &mut Vec<u8>) -> (written: usize) {
        let mut total_size: usize = VInt(self.len() as u64).serialize(writer);
        let mut i: usize = 0;
        assert(models(self@).skip(0) =~= models(self@));
        while i < self.len()
            invariant
                i <= self.len(),
                writer@ + concat_encodings::<T>(models(self@).skip(i as int)) == old(writer)@
                    + Self::encoding(models(self@)),
                writer@.len() == old(writer)@.len() + total_size,
            decreases self.len() - i,
        {
            let ghost before = writer@;
            let ghost pending = models(self@).skip(i as int);
            let size = self[i].serialize(writer);
            assert(writer@.len() == writer.len());
            total_size += size;
            proof {
                assert(pending.drop_first() =~= models(self@).skip(i + 1));
                assert(pending[0] == self@[i as int].model());
                assert(writer@ + concat_encodings::<T>(pending.drop_first()) =~= before
                    + concat_encodings::<T>(pending));
            }
            i += 1;
        }
        assert(writer@ + Seq::<u8>::empty() =~= writer@);
        total_size
    }

    fn deserialize(reader: &mut &[u8]) -> (result: Result<Vec<T>, DecodeError>) {
        let source: &[u8] = *reader;
        let num_items: u64 = match VInt::deserialize(reader) {
            Ok(v) => v.val(),
            Err(e) => {
                return Err(e);
            },
        };
        let ghost body = reader@;
        let ghost prefix = source@.len() - body.len();
        proof {
            lemma_vint_scan_in_bounds(source@);
            assert(body.skip(0) =~= body);
        }
        let mut items: Vec<T> = Vec::new();
        let mut i: u64 = 0;
        let ghost mut taken: nat = 0;
        assert(models(items@) =~= Seq::empty());
        while i < num_items
            invariant
                i <= num_items,
                source@ == old(reader)@,
                body == source@.skip(prefix),
                0 <= prefix <= source@.len(),
                vint_decoding(source@) == Ok::<(u64, nat), DecodeError>((num_items, prefix as nat)),
                taken <= body.len(),
                reader@ == body.skip(taken as int),
                match decode_items::<T>(reader@, (num_items - i) as nat) {
                    Err(e) => decode_items::<T>(body, num_items as nat) == Err::<
                        (Seq<T::Model>, nat),
                        DecodeError,
                    >(e),
                    Ok((others, k)) => decode_items::<T>(body, num_items as nat) == Ok::<
                        (Seq<T::Model>, nat),
                        DecodeError,
                    >((models(items@) + others, taken + k)),
                },
            decreases num_items - i,
        {
            let ghost here = reader@;
            let ghost done = models(items@);
            proof {
                T::lemma_decoding_in_bounds(here);
            }
            match T::deserialize(reader) {
                Err(e) => {
                    *reader = source;
                    return Err(e);
                },
                Ok(item) => {
                    proof {
                        let n = T::decoding(here)->Ok_0.1;
                        assert(reader@ =~= body.skip((taken + n) as int));
                        if let Ok((others, k)) = decode_items::<T>(
                            reader@,
                            (num_items - i - 1) as nat,
                        ) {
                            assert(done + (seq![item.model()] + others) =~= (done + seq![
                                item.model(),
                            ]) + others);
                        }
                        taken = taken + n;
                    }
                    items.push(item);
                    assert(models(items@) =~= done + seq![item.model()]);
                },
            }
            i += 1;
        }
        assert(models(items@) + Seq::<T::Model>::empty() =~= models(items@));
        assert(reader@ =~= source@.skip(prefix + taken));
        Ok(items)
    }
}

impl<Left: BinarySerializable, Right: BinarySerializable> BinarySerializable for (Left, Right) {
    type Model = (Left::Model, Right::Model);

    open spec fn model(&self) -> (Left::Model, Right::Model) {
        (self.0.model(), self.1.model())
    }

    open spec fn encoding(m: (Left::Model, Right::Model)) -> Seq<u8> {
        Left::encoding(m.0) + Right::encoding(m.1)
    }

    open spec fn decoding(bytes: Seq<u8>) -> Result<((Left::Model, Right::Model), nat), DecodeError> {
        match Left::decoding(bytes) {
            Err(e) => Err(e),
            Ok((left, n)) => match Right::decoding(bytes.skip(n as int)) {
                Err(e) => Err(e),
                Ok((right, k)) => Ok(((left, right), n + k)),
            },
        }
    }

    proof fn lemma_decoding_in_bounds(bytes: Seq<u8>) {
        Left::lemma_decoding_in_bounds(bytes);
        if let Ok((left, n)) = Left::decoding(bytes) {
            Right::lemma_decoding_in_bounds(bytes.skip(n as int));
        }
    }

    proof fn lemma_round_trip(&self, rest: Seq<u8>) {
        let head = Left::encoding(self.0.model());
        let tail = Right::encoding(self.1.model());
        Left::lemma_round_trip(&self.0, tail + rest);
        Right::lemma_round_trip(&self.1, rest);
        assert(head + tail + rest =~= head + (tail + rest));
        assert((head + (tail + rest)).skip(head.len() as int) =~= tail + rest);
    }

    fn serialize(&self, write: &mut Vec<u8>) -> (written: usize) {
        let left = self.0.serialize(write);
        let right = self.1.serialize(write);
        assert(write@.len() == write.len());
        assert(write@ =~= old(write)@ + Self::encoding(self.model()));
        left + right
    }

    fn deserialize(reader: &mut &[u8]) -> (result: Result<(Left, Right), DecodeError>) {
        let source: &[u8] = *reader;
        proof {
            Left::lemma_decoding_in_bounds(source@);
        }
        let left = match Left::deserialize(reader) {
            Ok(v) => v,
            Err(e) => {
                return Err(e);
            },
        };
        let ghost middle = reader@;
        proof {
            Right::lemma_decoding_in_bounds(middle);
        }
        let right = match Right::deserialize(reader) {
            Ok(v) => v,
            Err(e) => {
                *reader = source;
                return Err(e);
            },
        };
        assert(reader@ =~= source@.skip(source@.len() - reader@.len()));
        Ok((left, right))
    }
}

} // verus!
