//! The sorted map from terms to addresses that a dictionary is built on.

use super::order::lemma_increasing_terms_differ;
use super::order::lemma_term_lt_irreflexive;
use super::order::lemma_term_lt_transitive;
use super::order::strictly_increasing;
use super::order::term_equal;
use super::order::term_less;
use super::order::term_lt;
use crate::common::serialize::models;
use crate::common::BinarySerializable;
use crate::common::DecodeError;
use vstd::prelude::*;
use vstd::slice::slice_to_vec;

verus! {

/// The terms and addresses that `stored` holds, as plain values.
spec fn entries_of(stored: Seq<(Vec<u8>, u64)>) -> Seq<(Seq<u8>, u64)> {
    Seq::new(stored.len(), |i: int| (stored[i].0@, stored[i].1))
}

/// As a serializable value, a vector of entries stands for its terms and
/// addresses.
proof fn lemma_entries_model(stored: Vec<(Vec<u8>, u64)>)
    ensures
        stored.model() == entries_of(stored@),
{
    assert forall|i: int| 0 <= i < stored@.len() implies #[trigger] stored@[i].model() == (
        stored@[i].0@,
        stored@[i].1,
    ) by {
        assert(models(stored@[i].0@) =~= stored@[i].0@);
    }
    assert(stored.model() =~= entries_of(stored@));
}

/// What an index encodes to: the count of its entries, then for each entry
/// the term as a byte sequence and the address as a fixed-width integer.
pub open spec fn index_encoding(entries: Seq<(Seq<u8>, u64)>) -> Seq<u8> {
    <Vec<(Vec<u8>, u64)> as BinarySerializable>::encoding(entries)
}

/// What reading an index from the front of `bytes` gives: the entries and
/// the number of bytes that they took; the error of the entries' own
/// decoding; or `InvalidData` where the terms are not strictly increasing.
pub open spec fn index_decoding(bytes: Seq<u8>) -> Result<(Seq<(Seq<u8>, u64)>, nat), DecodeError> {
    match <Vec<(Vec<u8>, u64)> as BinarySerializable>::decoding(bytes) {
        Err(e) => Err(e),
        Ok((entries, n)) => if strictly_increasing(entries) {
            Ok((entries, n))
        } else {
            Err(DecodeError::InvalidData)
        },
    }
}

/// Some entry of `entries` has the term `term`.
pub open spec fn has_term(entries: Seq<(Seq<u8>, u64)>, term: Seq<u8>) -> bool {
    exists|i: int| 0 <= i < entries.len() && entries[i].0 == term
}

/// The place of an entry with the term `term`, where there is one.
pub open spec fn place_of_term(entries: Seq<(Seq<u8>, u64)>, term: Seq<u8>) -> int {
    choose|i: int| 0 <= i < entries.len() && entries[i].0 == term
}

/// The address that `term` maps to in `entries`, if any entry has the term.
pub open spec fn lookup(entries: Seq<(Seq<u8>, u64)>, term: Seq<u8>) -> Option<u64> {
    if has_term(entries, term) {
        Some(entries[place_of_term(entries, term)].1)
    } else {
        None
    }
}

/// In a strictly increasing sequence, looking up the term of an entry gives
/// the address of that entry.
pub proof fn lemma_lookup_entry(entries: Seq<(Seq<u8>, u64)>, k: int)
    requires
        strictly_increasing(entries),
        0 <= k < entries.len(),
    ensures
        lookup(entries, entries[k].0) == Some(entries[k].1),
{
    let term = entries[k].0;
    assert(0 <= k < entries.len() && entries[k].0 == term);
    assert(has_term(entries, term));
    lemma_increasing_terms_differ(entries, place_of_term(entries, term), k);
}

/// Each term comes before the next one.
spec fn adjacent_increasing(entries: Seq<(Seq<u8>, u64)>, upto: int) -> bool {
    forall|i: int| 0 < i < upto ==> term_lt(#[trigger] entries[i - 1].0, entries[i].0)
}

/// Where each term comes before the next one, each comes before all later
/// ones.
proof fn lemma_adjacent_increasing(entries: Seq<(Seq<u8>, u64)>, i: int, j: int)
    requires
        adjacent_increasing(entries, entries.len() as int),
        0 <= i < j < entries.len(),
    ensures
        term_lt(entries[i].0, entries[j].0),
    decreases j - i,
{
    assert(term_lt(entries[j - 1].0, entries[j].0));
    if i < j - 1 {
        lemma_adjacent_increasing(entries, i, j - 1);
        lemma_term_lt_transitive(entries[i].0, entries[j - 1].0, entries[j].0);
    }
}

/// A map from terms to addresses, held as a table sorted by term.
pub struct TermIndex {
    entries: Vec<(Vec<u8>, u64)>,
}

impl TermIndex {
    /// The entries, in the order in which they are held.
    pub closed spec fn entries(&self) -> Seq<(Seq<u8>, u64)> {
        entries_of(self.entries@)
    }

    /// The terms are in strictly increasing order.
    pub open spec fn wf(&self) -> bool {
        strictly_increasing(self.entries())
    }

    /// Whether `term` may be inserted next: it comes after every term held.
    pub open spec fn accepts(&self, term: Seq<u8>) -> bool {
        self.entries().len() > 0 ==> term_lt(self.entries().last().0, term)
    }

    /// An index without entries.
    pub fn new() -> (index: TermIndex)
        ensures
            index.wf(),
            index.entries() == Seq::<(Seq<u8>, u64)>::empty(),
    {
        let index = TermIndex { entries: Vec::new() };
        assert(index.entries() =~= Seq::empty());
        index
    }

    /// The number of entries.
    pub fn len(&self) -> (n: usize)
        ensures
            n == self.entries().len(),
    {
        self.entries.len()
    }

    /// The term of entry `i`.
    pub fn term_at(&self, i: usize) -> (term: &[u8])
        requires
            i < self.entries().len(),
        ensures
            term@ == self.entries()[i as int].0,
    {
        self.entries[i].0.as_slice()
    }

    /// The address of entry `i`.
    pub fn address_at(&self, i: usize) -> (address: u64)
        requires
            i < self.entries().len(),
        ensures
            address == self.entries()[i as int].1,
    {
        self.entries[i].1
    }

    /// Whether `term` comes after every term held, so that it may be
    /// inserted next.
    pub fn can_insert(&self, term: &[u8]) -> (ok: bool)
        ensures
            ok == self.accepts(term@),
    {
        let n = self.entries.len();
        if n == 0 {
            true
        } else {
            term_less(self.entries[n - 1].0.as_slice(), term)
        }
    }

    /// Adds the entry `term -> address` at the end.
    pub fn insert(&mut self, term: &[u8], address: u64)
        requires
            old(self).wf(),
            old(self).accepts(term@),
        ensures
            final(self).wf(),
            final(self).entries() == old(self).entries().push((term@, address)),
    {
        let ghost before = self.entries();
        self.entries.push((slice_to_vec(term), address));
        proof {
            let after = self.entries();
            assert(after =~= before.push((term@, address)));
            assert forall|i: int, j: int| 0 <= i < j < after.len() implies term_lt(
                after[i].0,
                after[j].0,
            ) by {
                if j == before.len() {
                    if i < before.len() - 1 {
                        assert(term_lt(before[i].0, before.last().0));
                        lemma_term_lt_transitive(before[i].0, before.last().0, term@);
                    }
                } else {
                    assert(term_lt(before[i].0, before[j].0));
                }
            }
        }
    }

    /// The number of entries whose term comes before `term`; they are the
    /// first entries of the index.
    pub fn position(&self, term: &[u8]) -> (k: usize)
        requires
            self.wf(),
        ensures
            k <= self.entries().len(),
            forall|i: int| 0 <= i < k ==> term_lt(self.entries()[i].0, term@),
            forall|i: int| k <= i < self.entries().len() ==> !term_lt(self.entries()[i].0, term@),
    {
        let mut low: usize = 0;
        let mut high: usize = self.entries.len();
        while low < high
            invariant
                self.wf(),
                low <= high <= self.entries().len(),
                self.entries().len() == self.entries@.len(),
                forall|i: int| 0 <= i < low ==> term_lt(self.entries()[i].0, term@),
                forall|i: int| high <= i < self.entries().len() ==> !term_lt(
                    self.entries()[i].0,
                    term@,
                ),
            decreases high - low,
        {
            let middle: usize = low + (high - low) / 2;
            let ghost pivot = self.entries()[middle as int].0;
            if term_less(self.entries[middle].0.as_slice(), term) {
                assert forall|i: int| 0 <= i < middle + 1 implies term_lt(
                    self.entries()[i].0,
                    term@,
                ) by {
                    if i < middle {
                        assert(term_lt(self.entries()[i].0, pivot));
                        lemma_term_lt_transitive(self.entries()[i].0, pivot, term@);
                    }
                }
                low = middle + 1;
            } else {
                assert forall|i: int| middle <= i < self.entries().len() implies !term_lt(
                    self.entries()[i].0,
                    term@,
                ) by {
                    if i > middle && term_lt(self.entries()[i].0, term@) {
                        assert(term_lt(pivot, self.entries()[i].0));
                        lemma_term_lt_transitive(pivot, self.entries()[i].0, term@);
                    }
                }
                high = middle;
            }
        }
        low
    }

    /// The address that `term` maps to, if the index holds the term.
    pub fn get(&self, term: &[u8]) -> (found: Option<u64>)
        requires
            self.wf(),
        ensures
            found == lookup(self.entries(), term@),
    {
        let k = self.position(term);
        if k < self.entries.len() && term_equal(self.entries[k].0.as_slice(), term) {
            proof {
                lemma_lookup_entry(self.entries(), k as int);
            }
            Some(self.entries[k].1)
        } else {
            assert forall|i: int| 0 <= i < self.entries().len() implies self.entries()[i].0
                != term@ by {
                lemma_term_lt_irreflexive(term@);
                if i > k {
                    assert(term_lt(self.entries()[k as int].0, self.entries()[i].0));
                }
            }
            None
        }
    }

    /// Appends the encoding of the index to `writer` and returns its length.
    pub fn serialize(&self, writer: &mut Vec<u8>) -> (written: usize)
        ensures
            final(writer)@ == old(writer)@ + index_encoding(self.entries()),
            written == index_encoding(self.entries()).len(),
    {
        proof {
            lemma_entries_model(self.entries);
        }
        self.entries.serialize(writer)
    }

    /// Reads an index from the front of `reader` and moves `reader` past it.
    /// On an error `reader` is left where it was.
    #[verifier::loop_isolation(false)]
    pub fn deserialize(reader: &mut &[u8]) -> (result: Result<TermIndex, DecodeError>)
        ensures
            match index_decoding(old(reader)@) {
                Ok((entries, n)) => result is Ok && result->Ok_0.wf() && result->Ok_0.entries()
                    == entries && final(reader)@ == old(reader)@.skip(n as int),
                Err(e) => result == Err::<TermIndex, DecodeError>(e) && final(reader)@
                    == old(reader)@,
            },
    {
        let source: &[u8] = *reader;
        let entries: Vec<(Vec<u8>, u64)> = match Vec::<(Vec<u8>, u64)>::deserialize(reader) {
            Ok(v) => v,
            Err(e) => {
                return Err(e);
            },
        };
        proof {
            lemma_entries_model(entries);
        }
        let index = TermIndex { entries };
        let ghost rest = *reader;
        let mut i: usize = 1;
        while i < index.entries.len()
            invariant
                1 <= i,
                *reader == rest,
                index.entries().len() == index.entries@.len(),
                adjacent_increasing(index.entries(), i as int),
            decreases index.entries.len() - i,
        {
            if !term_less(index.entries[i - 1].0.as_slice(), index.entries[i].0.as_slice()) {
                proof {
                    if strictly_increasing(index.entries()) {
                        assert(term_lt(index.entries()[i - 1].0, index.entries()[i as int].0));
                    }
                }
                *reader = source;
                return Err(DecodeError::InvalidData);
            }
            i += 1;
        }
        proof {
            let all = index.entries();
            assert(adjacent_increasing(all, all.len() as int));
            assert forall|a: int, b: int| 0 <= a < b < all.len() implies term_lt(
                all[a].0,
                all[b].0,
            ) by {
                lemma_adjacent_increasing(all, a, b);
            }
        }
        Ok(index)
    }

    /// Reading the encoding of an index gives its entries back, and takes
    /// the bytes of the encoding and no more, whatever follows them.
    pub proof fn lemma_round_trip(&self, rest: Seq<u8>)
        requires
            self.wf(),
            index_encoding(self.entries()).len() <= usize::MAX,
        ensures
            index_decoding(index_encoding(self.entries()) + rest) == Ok::<
                (Seq<(Seq<u8>, u64)>, nat),
                DecodeError,
            >((self.entries(), index_encoding(self.entries()).len())),
    {
        lemma_entries_model(self.entries);
        self.entries.lemma_round_trip(rest);
    }
}

} // verus!
