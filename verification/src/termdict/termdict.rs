//! The dictionary and its builder.

use super::index::index_decoding;
use super::index::index_encoding;
use super::index::lemma_lookup_entry;
use super::index::lookup;
use super::index::TermIndex;
use super::order::strictly_increasing;
use super::order::term_lt;
use super::streamer::lemma_range_entries_unbounded;
use super::streamer::range_entries;
use super::streamer::TermBound;
use crate::common::serialize::concat_encodings;
use crate::common::serialize::lemma_concat_encodings_push;
use crate::common::serialize::lemma_concat_encodings_split;
use crate::common::serialize::models;
use crate::common::BinarySerializable;
use crate::common::DecodeError;
use core::marker::PhantomData;
use vstd::prelude::*;
use vstd::slice::slice_subrange;

verus! {

/// The mathematical values of the second members of `pairs`, in order.
pub open spec fn pair_values<V: BinarySerializable>(pairs: Seq<(Seq<u8>, V)>) -> Seq<V::Model> {
    Seq::new(pairs.len(), |i: int| pairs[i].1.model())
}

/// `entries` and `blob` are what a builder makes of `pairs`: the blob is the
/// values' encodings in insertion order, and each term maps to the offset at
/// which the encoding of its value starts.
pub open spec fn built_from<V: BinarySerializable>(
    entries: Seq<(Seq<u8>, u64)>,
    blob: Seq<u8>,
    pairs: Seq<(Seq<u8>, V)>,
) -> bool {
    &&& entries.len() == pairs.len()
    &&& blob == concat_encodings::<V>(pair_values(pairs))
    &&& forall|i: int|
        0 <= i < pairs.len() ==> #[trigger] entries[i] == (
            pairs[i].0,
            concat_encodings::<V>(pair_values(pairs).take(i)).len() as u64,
        )
}

/// What reading the value at `address` in `blob` gives.
pub open spec fn value_at<V: BinarySerializable>(blob: Seq<u8>, address: u64) -> Result<
    V::Model,
    DecodeError,
> {
    if address > blob.len() {
        Err(DecodeError::InvalidData)
    } else {
        match V::decoding(blob.skip(address as int)) {
            Ok((m, _)) => Ok(m),
            Err(e) => Err(e),
        }
    }
}

/// What a dictionary encodes to: its index, then its blob as a byte
/// sequence.
pub open spec fn dictionary_encoding(entries: Seq<(Seq<u8>, u64)>, blob: Seq<u8>) -> Seq<u8> {
    index_encoding(entries) + <Vec<u8> as BinarySerializable>::encoding(blob)
}

/// What reading a dictionary from the front of `bytes` gives: its entries,
/// its blob and the number of bytes that they took, or the error.
pub open spec fn dictionary_decoding(bytes: Seq<u8>) -> Result<
    (Seq<(Seq<u8>, u64)>, Seq<u8>, nat),
    DecodeError,
> {
    match index_decoding(bytes) {
        Err(e) => Err(e),
        Ok((entries, n)) => match <Vec<u8> as BinarySerializable>::decoding(bytes.skip(n as int)) {
            Err(e) => Err(e),
            Ok((blob, k)) => Ok((entries, blob, n + k)),
        },
    }
}

/// In what a builder makes of `pairs`, the address of entry `i` lies in the
/// blob, and the value read there is the value of pair `i`.
pub proof fn lemma_built_value<V: BinarySerializable>(
    entries: Seq<(Seq<u8>, u64)>,
    blob: Seq<u8>,
    pairs: Seq<(Seq<u8>, V)>,
    i: int,
)
    requires
        built_from::<V>(entries, blob, pairs),
        blob.len() <= usize::MAX,
        0 <= i < pairs.len(),
    ensures
        entries[i].0 == pairs[i].0,
        entries[i].1 <= blob.len(),
        value_at::<V>(blob, entries[i].1) == Ok::<V::Model, DecodeError>(pairs[i].1.model()),
{
    let values = pair_values(pairs);
    let before = concat_encodings::<V>(values.take(i));
    let from = concat_encodings::<V>(values.skip(i));
    let after = concat_encodings::<V>(values.skip(i + 1));
    let own = V::encoding(pairs[i].1.model());
    lemma_concat_encodings_split::<V>(values, i);
    assert(entries[i] == (pairs[i].0, before.len() as u64));
    assert(values.skip(i).drop_first() =~= values.skip(i + 1));
    assert(values.skip(i)[0] == pairs[i].1.model());
    assert(from == own + after);
    assert(blob.skip(before.len() as int) =~= own + after);
    V::lemma_round_trip(&pairs[i].1, after);
}

/// In what a builder makes of `pairs`, addresses do not decrease with the
/// order of insertion.
pub proof fn lemma_built_addresses_ordered<V: BinarySerializable>(
    entries: Seq<(Seq<u8>, u64)>,
    blob: Seq<u8>,
    pairs: Seq<(Seq<u8>, V)>,
    i: int,
    j: int,
)
    requires
        built_from::<V>(entries, blob, pairs),
        blob.len() <= usize::MAX,
        0 <= i <= j < pairs.len(),
    ensures
        entries[i].1 <= entries[j].1,
{
    let values = pair_values(pairs);
    lemma_concat_encodings_split::<V>(values, j);
    lemma_concat_encodings_split::<V>(values.take(j), i);
    assert(values.take(j).take(i) =~= values.take(i));
    assert(entries[i] == (pairs[i].0, concat_encodings::<V>(values.take(i)).len() as u64));
    assert(entries[j] == (pairs[j].0, concat_encodings::<V>(values.take(j)).len() as u64));
}

/// An immutable map from terms to values: a sorted index from each term to
/// an address, and a blob that holds the encoding of each value at its
/// address.
pub struct TermDictionary<V: BinarySerializable> {
    index: TermIndex,
    blob: Vec<u8>,
    marker: PhantomData<V>,
}

impl<V: BinarySerializable> TermDictionary<V> {
    /// The terms with their addresses, in term order.
    pub closed spec fn entries(&self) -> Seq<(Seq<u8>, u64)> {
        self.index.entries()
    }

    /// The buffer of encoded values.
    pub closed spec fn blob(&self) -> Seq<u8> {
        self.blob@
    }

    /// The terms are in strictly increasing order.
    pub open spec fn wf(&self) -> bool {
        strictly_increasing(self.entries())
    }

    /// The index of the dictionary.
    pub fn index(&self) -> (index: &TermIndex)
        ensures
            index.entries() == self.entries(),
    {
        &self.index
    }

    /// The number of terms.
    pub fn len(&self) -> (n: usize)
        ensures
            n == self.entries().len(),
    {
        self.index.len()
    }

    /// The address that `term` maps to, if the dictionary holds the term.
    pub fn get(&self, term: &[u8]) -> (found: Option<u64>)
        requires
            self.wf(),
        ensures
            found == lookup(self.entries(), term@),
    {
        self.index.get(term)
    }

    /// Reads the value that starts at `address` in the blob.
    pub fn read_value(&self, address: u64) -> (result: Result<V, DecodeError>)
        ensures
            match value_at::<V>(self.blob(), address) {
                Ok(m) => result is Ok && result->Ok_0.model() == m,
                Err(e) => result == Err::<V, DecodeError>(e),
            },
    {
        let blob: &[u8] = self.blob.as_slice();
        if address > blob.len() as u64 {
            return Err(DecodeError::InvalidData);
        }
        let mut cursor: &[u8] = slice_subrange(blob, address as usize, blob.len());
        V::deserialize(&mut cursor)
    }

    /// The value of `term`: `None` where the dictionary does not hold the
    /// term, else what reading the blob at the term's address gives.
    pub fn get_value(&self, term: &[u8]) -> (result: Result<Option<V>, DecodeError>)
        requires
            self.wf(),
        ensures
            match lookup(self.entries(), term@) {
                None => result == Ok::<Option<V>, DecodeError>(None),
                Some(address) => match value_at::<V>(self.blob(), address) {
                    Ok(m) => result matches Ok(Some(v)) && v.model() == m,
                    Err(e) => result == Err::<Option<V>, DecodeError>(e),
                },
            },
    {
        match self.index.get(term) {
            None => Ok(None),
            Some(address) => match self.read_value(address) {
                Ok(v) => Ok(Some(v)),
                Err(e) => Err(e),
            },
        }
    }

    /// Appends the encoding of the dictionary to `writer` and returns its
    /// length.
    pub fn serialize(&self, writer: &mut Vec<u8>) -> (written: usize)
        ensures
            final(writer)@ == old(writer)@ + dictionary_encoding(self.entries(), self.blob()),
            written == dictionary_encoding(self.entries(), self.blob()).len(),
    {
        let index_size = self.index.serialize(writer);
        let blob_size = self.blob.serialize(writer);
        assert(models(self.blob@) =~= self.blob@);
        assert(writer@.len() == writer.len());
        assert(writer@ =~= old(writer)@ + dictionary_encoding(self.entries(), self.blob()));
        index_size + blob_size
    }

    /// Reads a dictionary from the front of `reader` and moves `reader` past
    /// it. On an error `reader` is left where it was.
    pub fn deserialize(reader: &mut &[u8]) -> (result: Result<TermDictionary<V>, DecodeError>)
        ensures
            match dictionary_decoding(old(reader)@) {
                Ok((entries, blob, n)) => result is Ok && result->Ok_0.wf()
                    && result->Ok_0.entries() == entries && result->Ok_0.blob() == blob
                    && final(reader)@ == old(reader)@.skip(n as int),
                Err(e) => result == Err::<TermDictionary<V>, DecodeError>(e) && final(reader)@
                    == old(reader)@,
            },
    {
        let source: &[u8] = *reader;
        let index = match TermIndex::deserialize(reader) {
            Ok(index) => index,
            Err(e) => {
                return Err(e);
            },
        };
        let ghost middle = reader@;
        proof {
            <Vec<(Vec<u8>, u64)> as BinarySerializable>::lemma_decoding_in_bounds(source@);
            <Vec<u8> as BinarySerializable>::lemma_decoding_in_bounds(middle);
        }
        let blob = match Vec::<u8>::deserialize(reader) {
            Ok(blob) => blob,
            Err(e) => {
                *reader = source;
                return Err(e);
            },
        };
        assert(models(blob@) =~= blob@);
        assert(reader@ =~= source@.skip(source@.len() - reader@.len()));
        Ok(TermDictionary { index, blob, marker: PhantomData })
    }

    /// Reading the encoding of a dictionary gives its entries and its blob
    /// back, and takes the bytes of the encoding and no more, whatever
    /// follows them.
    pub proof fn lemma_round_trip(&self, rest: Seq<u8>)
        requires
            self.wf(),
            dictionary_encoding(self.entries(), self.blob()).len() <= usize::MAX,
        ensures
            dictionary_decoding(dictionary_encoding(self.entries(), self.blob()) + rest) == Ok::<
                (Seq<(Seq<u8>, u64)>, Seq<u8>, nat),
                DecodeError,
            >(
                (
                    self.entries(),
                    self.blob(),
                    dictionary_encoding(self.entries(), self.blob()).len(),
                ),
            ),
    {
        let head = index_encoding(self.entries());
        let tail = <Vec<u8> as BinarySerializable>::encoding(self.blob());
        assert(models(self.blob@) =~= self.blob@);
        self.index.lemma_round_trip(tail + rest);
        self.blob.lemma_round_trip(rest);
        assert(head + tail + rest =~= head + (tail + rest));
        assert((head + (tail + rest)).skip(head.len() as int) =~= tail + rest);
    }

    /// In a dictionary built from `pairs`, looking up
    /// the term of pair `i` gives an address, and the value read at that
    /// address is the value of pair `i`.
    pub proof fn lemma_lookup_finds_inserted(&self, pairs: Seq<(Seq<u8>, V)>, i: int)
        requires
            self.wf(),
            built_from::<V>(self.entries(), self.blob(), pairs),
            0 <= i < pairs.len(),
        ensures
            lookup(self.entries(), pairs[i].0) == Some(self.entries()[i].1),
            value_at::<V>(self.blob(), self.entries()[i].1) == Ok::<V::Model, DecodeError>(
                pairs[i].1.model(),
            ),
    {
        assert(self.blob@.len() == self.blob.len());
        lemma_built_value::<V>(self.entries(), self.blob(), pairs, i);
        lemma_lookup_entry(self.entries(), i);
    }

    /// In a dictionary built from `pairs`, a term that is the term of no
    /// pair is not found.
    pub proof fn lemma_lookup_misses_others(&self, pairs: Seq<(Seq<u8>, V)>, term: Seq<u8>)
        requires
            built_from::<V>(self.entries(), self.blob(), pairs),
            forall|i: int| 0 <= i < pairs.len() ==> pairs[i].0 != term,
        ensures
            lookup(self.entries(), term) is None,
    {
        assert forall|i: int| 0 <= i < self.entries().len() implies self.entries()[i].0
            != term by {
            assert(self.entries()[i].0 == pairs[i].0);
        }
    }

    /// The entries of a dictionary built from `pairs`
    /// are the terms of `pairs`, in the order of insertion, which is
    /// strictly increasing; the value read at the address of each is the
    /// inserted one; and a stream without bounds yields them all.
    pub proof fn lemma_entries_are_inserted(&self, pairs: Seq<(Seq<u8>, V)>)
        requires
            self.wf(),
            built_from::<V>(self.entries(), self.blob(), pairs),
        ensures
            self.entries().len() == pairs.len(),
            forall|i: int|
                0 <= i < pairs.len() ==> #[trigger] self.entries()[i].0 == pairs[i].0 && value_at::<
                    V,
                >(self.blob(), self.entries()[i].1) == Ok::<V::Model, DecodeError>(
                    pairs[i].1.model(),
                ),
            forall|i: int, j: int|
                0 <= i < j < pairs.len() ==> term_lt(pairs[i].0, pairs[j].0),
            range_entries(self.entries(), TermBound::Unbounded, TermBound::Unbounded)
                == self.entries(),
    {
        lemma_range_entries_unbounded(self.entries());
        assert forall|i: int| 0 <= i < pairs.len() implies #[trigger] self.entries()[i].0
            == pairs[i].0 && value_at::<V>(self.blob(), self.entries()[i].1) == Ok::<
            V::Model,
            DecodeError,
        >(pairs[i].1.model()) by {
            self.lemma_lookup_finds_inserted(pairs, i);
        }
        assert forall|i: int, j: int| 0 <= i < j < pairs.len() implies term_lt(
            pairs[i].0,
            pairs[j].0,
        ) by {
            assert(self.entries()[i].0 == pairs[i].0);
            assert(self.entries()[j].0 == pairs[j].0);
        }
    }
}

/// Builds a dictionary from terms inserted in strictly increasing order,
/// each with its value.
pub struct TermDictionaryBuilder<V: BinarySerializable> {
    index: TermIndex,
    blob: Vec<u8>,
    inserted: Ghost<Seq<(Seq<u8>, V)>>,
}

impl<V: BinarySerializable> TermDictionaryBuilder<V> {
    /// The terms and values inserted so far, in order.
    pub closed spec fn pairs(&self) -> Seq<(Seq<u8>, V)> {
        self.inserted@
    }

    /// The terms inserted so far with their addresses.
    pub closed spec fn entries(&self) -> Seq<(Seq<u8>, u64)> {
        self.index.entries()
    }

    /// The buffer of encoded values so far.
    pub closed spec fn blob(&self) -> Seq<u8> {
        self.blob@
    }

    /// The terms are strictly increasing, and the entries and the blob are
    /// those of the pairs inserted.
    pub open spec fn wf(&self) -> bool {
        &&& strictly_increasing(self.entries())
        &&& built_from::<V>(self.entries(), self.blob(), self.pairs())
    }

    /// Whether `term` may be inserted next: it comes after every term
    /// inserted so far.
    pub open spec fn accepts(&self, term: Seq<u8>) -> bool {
        self.entries().len() > 0 ==> term_lt(self.entries().last().0, term)
    }

    /// A builder into which nothing was inserted.
    pub fn new() -> (builder: TermDictionaryBuilder<V>)
        ensures
            builder.wf(),
            builder.pairs() == Seq::<(Seq<u8>, V)>::empty(),
            builder.entries() == Seq::<(Seq<u8>, u64)>::empty(),
            builder.blob() == Seq::<u8>::empty(),
    {
        let builder = TermDictionaryBuilder {
            index: TermIndex::new(),
            blob: Vec::new(),
            inserted: Ghost(Seq::empty()),
        };
        assert(pair_values(builder.pairs()) =~= Seq::<V::Model>::empty());
        builder
    }

    /// Whether `term` comes after every term inserted so far, so that
    /// `insert` may take it.
    pub fn can_insert(&self, term: &[u8]) -> (ok: bool)
        ensures
            ok == self.accepts(term@),
    {
        self.index.can_insert(term)
    }

    /// Inserts `term` with `value`: appends the encoding of `value` to the
    /// blob and maps `term` to the offset at which it starts.
    pub fn insert(&mut self, term: &[u8], value: &V)
        requires
            old(self).wf(),
            old(self).accepts(term@),
        ensures
            final(self).wf(),
            final(self).pairs() == old(self).pairs().push((term@, *value)),
            final(self).entries() == old(self).entries().push(
                (term@, old(self).blob().len() as u64),
            ),
            final(self).blob() == old(self).blob() + V::encoding(value.model()),
    {
        let ghost old_pairs = self.pairs();
        let ghost old_entries = self.entries();
        let ghost old_blob = self.blob();
        let address: u64 = self.blob.len() as u64;
        self.index.insert(term, address);
        value.serialize(&mut self.blob);
        self.inserted = Ghost(old_pairs.push((term@, *value)));
        proof {
            let pairs = self.pairs();
            let values = pair_values(pairs);
            let old_values = pair_values(old_pairs);
            assert(values =~= old_values.push(value.model()));
            lemma_concat_encodings_push::<V>(old_values, value.model());
            assert forall|i: int| 0 <= i < pairs.len() implies #[trigger] self.entries()[i] == (
                pairs[i].0,
                concat_encodings::<V>(values.take(i)).len() as u64,
            ) by {
                if i < old_pairs.len() {
                    assert(values.take(i) =~= old_values.take(i));
                    assert(self.entries()[i] == old_entries[i]);
                } else {
                    assert(values.take(i) =~= old_values);
                }
            }
        }
    }

    /// Ends the construction and returns the dictionary of the pairs
    /// inserted.
    pub fn finish(self) -> (dictionary: TermDictionary<V>)
        requires
            self.wf(),
        ensures
            dictionary.wf(),
            dictionary.entries() == self.entries(),
            dictionary.blob() == self.blob(),
            built_from::<V>(dictionary.entries(), dictionary.blob(), self.pairs()),
    {
        TermDictionary { index: self.index, blob: self.blob, marker: PhantomData }
    }
}

} // verus!
