//! Ordered streams over the terms of a dictionary, within optional bounds.

use super::index::TermIndex;
use super::order::lemma_term_lt_asymmetric;
use super::order::lemma_term_lt_irreflexive;
use super::order::lemma_term_lt_total;
use super::order::lemma_term_lt_transitive;
use super::order::strictly_increasing;
use super::order::term_equal;
use super::order::term_lt;
use super::termdict::value_at;
use super::termdict::TermDictionary;
use crate::common::BinarySerializable;
use crate::common::DecodeError;
use vstd::prelude::*;
use vstd::slice::slice_to_vec;

verus! {

/// One end of a range of terms.
pub enum TermBound<T> {
    /// No limit on this side.
    Unbounded,
    /// The range reaches to this term and holds it.
    Included(T),
    /// The range reaches to this term and does not hold it.
    Excluded(T),
}

impl View for TermBound<Vec<u8>> {
    type V = TermBound<Seq<u8>>;

    open spec fn view(&self) -> TermBound<Seq<u8>> {
        match self {
            TermBound::Unbounded => TermBound::Unbounded,
            TermBound::Included(term) => TermBound::Included(term@),
            TermBound::Excluded(term) => TermBound::Excluded(term@),
        }
    }
}

impl TermBound<Seq<u8>> {
    /// Taken as the lower end of a range, the bound lets `term` in.
    pub open spec fn admits_as_lower(self, term: Seq<u8>) -> bool {
        match self {
            TermBound::Unbounded => true,
            TermBound::Included(bound) => !term_lt(term, bound),
            TermBound::Excluded(bound) => term_lt(bound, term),
        }
    }

    /// Taken as the upper end of a range, the bound lets `term` in.
    pub open spec fn admits_as_upper(self, term: Seq<u8>) -> bool {
        match self {
            TermBound::Unbounded => true,
            TermBound::Included(bound) => !term_lt(bound, term),
            TermBound::Excluded(bound) => term_lt(term, bound),
        }
    }
}

/// What a stream over `entries` within the bounds yields: entries that the
/// lower bound does not let in are passed over, and the stream ends at the
/// first entry that the upper bound does not let in.
pub open spec fn range_entries(
    entries: Seq<(Seq<u8>, u64)>,
    lower: TermBound<Seq<u8>>,
    upper: TermBound<Seq<u8>>,
) -> Seq<(Seq<u8>, u64)>
    decreases entries.len(),
{
    if entries.len() == 0 {
        Seq::empty()
    } else if !lower.admits_as_lower(entries[0].0) {
        range_entries(entries.drop_first(), lower, upper)
    } else if !upper.admits_as_upper(entries[0].0) {
        Seq::empty()
    } else {
        seq![entries[0]] + range_entries(entries.drop_first(), lower, upper)
    }
}

/// A term after one that the upper bound refuses is refused too.
pub proof fn lemma_upper_refuses_later(upper: TermBound<Seq<u8>>, a: Seq<u8>, b: Seq<u8>)
    requires
        !upper.admits_as_upper(a),
        term_lt(a, b),
    ensures
        !upper.admits_as_upper(b),
{
    match upper {
        TermBound::Unbounded => {},
        TermBound::Included(bound) => {
            lemma_term_lt_transitive(bound, a, b);
        },
        TermBound::Excluded(bound) => {
            if term_lt(b, bound) {
                lemma_term_lt_transitive(a, b, bound);
            }
        },
    }
}

/// A sequence with `first` put before `others` holds `first` and what
/// `others` holds.
proof fn lemma_contains_prepend(
    first: (Seq<u8>, u64),
    others: Seq<(Seq<u8>, u64)>,
    e: (Seq<u8>, u64),
)
    ensures
        (seq![first] + others).contains(e) <==> (e == first || others.contains(e)),
{
    let all = seq![first] + others;
    if all.contains(e) {
        let i = choose|i: int| 0 <= i < all.len() && all[i] == e;
        if i > 0 {
            assert(others[i - 1] == e);
        }
    }
    if others.contains(e) {
        let i = choose|i: int| 0 <= i < others.len() && others[i] == e;
        assert(all[i + 1] == e);
    }
    if e == first {
        assert(all[0] == e);
    }
}

/// Over terms in strictly increasing order, a bounded stream yields exactly the entries that both bounds let in, and
/// yields them in strictly increasing order.
pub proof fn lemma_range_entries_exact(
    entries: Seq<(Seq<u8>, u64)>,
    lower: TermBound<Seq<u8>>,
    upper: TermBound<Seq<u8>>,
)
    requires
        strictly_increasing(entries),
    ensures
        forall|e: (Seq<u8>, u64)|
            range_entries(entries, lower, upper).contains(e) <==> (entries.contains(e)
                && lower.admits_as_lower(e.0) && upper.admits_as_upper(e.0)),
        strictly_increasing(range_entries(entries, lower, upper)),
    decreases entries.len(),
{
    let result = range_entries(entries, lower, upper);
    if entries.len() > 0 {
        let first = entries[0];
        let others = entries.drop_first();
        let inner = range_entries(others, lower, upper);
        assert(entries =~= seq![first] + others);
        assert forall|i: int, j: int| 0 <= i < j < others.len() implies term_lt(
            others[i].0,
            others[j].0,
        ) by {
            assert(term_lt(entries[i + 1].0, entries[j + 1].0));
        }
        lemma_range_entries_exact(others, lower, upper);
        assert forall|e: (Seq<u8>, u64)| result.contains(e) <==> (entries.contains(e)
            && lower.admits_as_lower(e.0) && upper.admits_as_upper(e.0)) by {
            lemma_contains_prepend(first, others, e);
            assert(inner.contains(e) <==> (others.contains(e) && lower.admits_as_lower(e.0)
                && upper.admits_as_upper(e.0)));
            if others.contains(e) {
                let i = choose|i: int| 0 <= i < others.len() && others[i] == e;
                assert(term_lt(entries[0].0, entries[i + 1].0));
                if !upper.admits_as_upper(first.0) {
                    lemma_upper_refuses_later(upper, first.0, e.0);
                }
            }
            if !lower.admits_as_lower(first.0) {
                assert(result == inner);
            } else if !upper.admits_as_upper(first.0) {
                assert(result.len() == 0);
            } else {
                assert(result == seq![first] + inner);
                lemma_contains_prepend(first, inner, e);
            }
        }
        if lower.admits_as_lower(first.0) && upper.admits_as_upper(first.0) {
            assert(result == seq![first] + inner);
            assert forall|i: int, j: int| 0 <= i < j < result.len() implies term_lt(
                result[i].0,
                result[j].0,
            ) by {
                let x = inner[j - 1];
                assert(result[j] == x);
                if i == 0 {
                    assert(inner.contains(x));
                    assert(others.contains(x));
                    let k = choose|k: int| 0 <= k < others.len() && others[k] == x;
                    assert(term_lt(entries[0].0, entries[k + 1].0));
                } else {
                    assert(result[i] == inner[i - 1]);
                    assert(term_lt(inner[i - 1].0, inner[j - 1].0));
                }
            }
        }
    }
}

/// Where the entries that the lower bound refuses are the first `start`
/// ones, and those that the upper bound lets in are the first `end` ones,
/// the stream within the bounds yields the entries from `start` to `end`.
pub proof fn lemma_range_entries_between(
    entries: Seq<(Seq<u8>, u64)>,
    lower: TermBound<Seq<u8>>,
    upper: TermBound<Seq<u8>>,
    start: int,
    end: int,
)
    requires
        0 <= start <= entries.len(),
        0 <= end <= entries.len(),
        forall|i: int| 0 <= i < entries.len() ==> (lower.admits_as_lower(#[trigger] entries[i].0)
            <==> start <= i),
        forall|i: int| 0 <= i < entries.len() ==> (upper.admits_as_upper(#[trigger] entries[i].0)
            <==> i < end),
    ensures
        range_entries(entries, lower, upper) == if start <= end {
            entries.subrange(start, end)
        } else {
            Seq::empty()
        },
    decreases entries.len(),
{
    if entries.len() > 0 {
        let others = entries.drop_first();
        let next_start = if start > 0 {
            start - 1
        } else {
            0
        };
        let next_end = if end > 0 {
            end - 1
        } else {
            0
        };
        assert forall|i: int| 0 <= i < others.len() implies (lower.admits_as_lower(
            #[trigger] others[i].0,
        ) <==> next_start <= i) by {
            assert(others[i] == entries[i + 1]);
        }
        assert forall|i: int| 0 <= i < others.len() implies (upper.admits_as_upper(
            #[trigger] others[i].0,
        ) <==> i < next_end) by {
            assert(others[i] == entries[i + 1]);
        }
        lemma_range_entries_between(others, lower, upper, next_start, next_end);
        assert(lower.admits_as_lower(entries[0].0) <==> start <= 0);
        assert(upper.admits_as_upper(entries[0].0) <==> 0 < end);
        if start > 0 {
            if start <= end {
                assert(others.subrange(next_start, next_end) =~= entries.subrange(start, end));
            }
        } else if end > 0 {
            assert(seq![entries[0]] + others.subrange(0, next_end) =~= entries.subrange(0, end));
        } else {
            assert(entries.subrange(0, 0) =~= Seq::empty());
        }
    } else {
        assert(entries.subrange(start, end) =~= Seq::empty());
    }
}

/// The number of entries that `lower`, taken as a lower bound, refuses:
/// they are the first entries of the index.
fn lower_start(index: &TermIndex, lower: &TermBound<Vec<u8>>) -> (start: usize)
    requires
        index.wf(),
    ensures
        start <= index.entries().len(),
        forall|i: int|
            0 <= i < index.entries().len() ==> (lower@.admits_as_lower(
                #[trigger] index.entries()[i].0,
            ) <==> start <= i),
{
    let ghost entries = index.entries();
    match lower {
        TermBound::Unbounded => 0,
        TermBound::Included(bound) => index.position(bound.as_slice()),
        TermBound::Excluded(bound) => {
            let k = index.position(bound.as_slice());
            if k < index.len() && term_equal(index.term_at(k), bound.as_slice()) {
                assert forall|i: int| 0 <= i < entries.len() implies (term_lt(
                    bound@,
                    #[trigger] entries[i].0,
                ) <==> k + 1 <= i) by {
                    lemma_term_lt_irreflexive(bound@);
                    if i < k {
                        lemma_term_lt_asymmetric(entries[i].0, bound@);
                    } else if i > k {
                        assert(term_lt(entries[k as int].0, entries[i].0));
                    }
                }
                k + 1
            } else {
                assert forall|i: int| 0 <= i < entries.len() implies (term_lt(
                    bound@,
                    #[trigger] entries[i].0,
                ) <==> k <= i) by {
                    if i < k {
                        lemma_term_lt_asymmetric(entries[i].0, bound@);
                    } else {
                        lemma_term_lt_total(entries[k as int].0, bound@);
                        if i > k {
                            assert(term_lt(entries[k as int].0, entries[i].0));
                            lemma_term_lt_transitive(bound@, entries[k as int].0, entries[i].0);
                        }
                    }
                }
                k
            }
        },
    }
}

/// The number of entries that `upper`, taken as an upper bound, lets in:
/// they are the first entries of the index.
fn upper_end(index: &TermIndex, upper: &TermBound<Vec<u8>>) -> (end: usize)
    requires
        index.wf(),
    ensures
        end <= index.entries().len(),
        forall|i: int|
            0 <= i < index.entries().len() ==> (upper@.admits_as_upper(
                #[trigger] index.entries()[i].0,
            ) <==> i < end),
{
    let ghost entries = index.entries();
    match upper {
        TermBound::Unbounded => index.len(),
        TermBound::Excluded(bound) => index.position(bound.as_slice()),
        TermBound::Included(bound) => {
            let k = index.position(bound.as_slice());
            if k < index.len() && term_equal(index.term_at(k), bound.as_slice()) {
                assert forall|i: int| 0 <= i < entries.len() implies (!term_lt(
                    bound@,
                    #[trigger] entries[i].0,
                ) <==> i < k + 1) by {
                    lemma_term_lt_irreflexive(bound@);
                    if i < k {
                        lemma_term_lt_asymmetric(entries[i].0, bound@);
                    } else if i > k {
                        assert(term_lt(entries[k as int].0, entries[i].0));
                    }
                }
                k + 1
            } else {
                assert forall|i: int| 0 <= i < entries.len() implies (!term_lt(
                    bound@,
                    #[trigger] entries[i].0,
                ) <==> i < k) by {
                    if i < k {
                        lemma_term_lt_asymmetric(entries[i].0, bound@);
                    } else {
                        lemma_term_lt_total(entries[k as int].0, bound@);
                        if i > k {
                            assert(term_lt(entries[k as int].0, entries[i].0));
                            lemma_term_lt_transitive(bound@, entries[k as int].0, entries[i].0);
                        }
                    }
                }
                k
            }
        },
    }
}

/// Sets up a stream over a dictionary: each of its two bounds can be set
/// before the stream is made. Setting a bound replaces the bound that was
/// there on that side; it does not intersect with it.
pub struct TermStreamerBuilder<'a, V: BinarySerializable> {
    dictionary: &'a TermDictionary<V>,
    lower: TermBound<Vec<u8>>,
    upper: TermBound<Vec<u8>>,
}

impl<'a, V: BinarySerializable> TermStreamerBuilder<'a, V> {
    /// The dictionary that the stream will run over.
    pub closed spec fn dictionary(&self) -> &TermDictionary<V> {
        self.dictionary
    }

    /// The lower bound of the stream.
    pub closed spec fn lower(&self) -> TermBound<Seq<u8>> {
        self.lower@
    }

    /// The upper bound of the stream.
    pub closed spec fn upper(&self) -> TermBound<Seq<u8>> {
        self.upper@
    }

    /// A builder for a stream over `dictionary` within the bounds given.
    pub fn new(
        dictionary: &'a TermDictionary<V>,
        lower: TermBound<Vec<u8>>,
        upper: TermBound<Vec<u8>>,
    ) -> (builder: TermStreamerBuilder<'a, V>)
        ensures
            builder.dictionary() == dictionary,
            builder.lower() == lower@,
            builder.upper() == upper@,
    {
        TermStreamerBuilder { dictionary, lower, upper }
    }

    /// Sets the lower bound: the stream will yield terms greater than or
    /// equal to `bound`. A lower bound set before is replaced; the upper
    /// bound stays.
    pub fn ge(self, bound: &[u8]) -> (builder: TermStreamerBuilder<'a, V>)
        ensures
            builder.dictionary() == self.dictionary(),
            builder.lower() == TermBound::Included(bound@),
            builder.upper() == self.upper(),
    {
        TermStreamerBuilder {
            dictionary: self.dictionary,
            lower: TermBound::Included(slice_to_vec(bound)),
            upper: self.upper,
        }
    }

    /// Sets the lower bound: the stream will yield terms greater than
    /// `bound`. A lower bound set before is replaced; the upper bound
    /// stays.
    pub fn gt(self, bound: &[u8]) -> (builder: TermStreamerBuilder<'a, V>)
        ensures
            builder.dictionary() == self.dictionary(),
            builder.lower() == TermBound::Excluded(bound@),
            builder.upper() == self.upper(),
    {
        TermStreamerBuilder {
            dictionary: self.dictionary,
            lower: TermBound::Excluded(slice_to_vec(bound)),
            upper: self.upper,
        }
    }

    /// Sets the upper bound: the stream will yield terms less than or equal
    /// to `bound`. An upper bound set before is replaced; the lower bound
    /// stays.
    pub fn le(self, bound: &[u8]) -> (builder: TermStreamerBuilder<'a, V>)
        ensures
            builder.dictionary() == self.dictionary(),
            builder.lower() == self.lower(),
            builder.upper() == TermBound::Included(bound@),
    {
        TermStreamerBuilder {
            dictionary: self.dictionary,
            lower: self.lower,
            upper: TermBound::Included(slice_to_vec(bound)),
        }
    }

    /// Sets the upper bound: the stream will yield terms less than `bound`.
    /// An upper bound set before is replaced, so that `lt(b"b").lt(b"d")`
    /// yields the terms below `d`; the lower bound stays.
    pub fn lt(self, bound: &[u8]) -> (builder: TermStreamerBuilder<'a, V>)
        ensures
            builder.dictionary() == self.dictionary(),
            builder.lower() == self.lower(),
            builder.upper() == TermBound::Excluded(bound@),
    {
        TermStreamerBuilder {
            dictionary: self.dictionary,
            lower: self.lower,
            upper: TermBound::Excluded(slice_to_vec(bound)),
        }
    }

    /// Makes the stream. It stands before its first entry: `advance` must be
    /// called before the first access.
    pub fn into_stream(self) -> (stream: TermStreamer<'a, V>)
        requires
            self.dictionary().wf(),
        ensures
            stream.wf(),
            stream.dictionary() == self.dictionary(),
            stream.current() is None,
            stream.remaining() == range_entries(
                self.dictionary().entries(),
                self.lower(),
                self.upper(),
            ),
    {
        let index = self.dictionary.index();
        let start = lower_start(index, &self.lower);
        let end = upper_end(index, &self.upper);
        proof {
            lemma_range_entries_between(
                index.entries(),
                self.lower@,
                self.upper@,
                start as int,
                end as int,
            );
        }
        let end = if end < start {
            start
        } else {
            end
        };
        let stream = TermStreamer { dictionary: self.dictionary, next: start, end, current: None };
        assert(stream.remaining() =~= range_entries(
            self.dictionary().entries(),
            self.lower(),
            self.upper(),
        ));
        stream
    }
}

/// A forward-only cursor over the entries of a dictionary that lie within
/// the bounds it was made with.
pub struct TermStreamer<'a, V: BinarySerializable> {
    dictionary: &'a TermDictionary<V>,
    next: usize,
    end: usize,
    current: Option<usize>,
}

impl<'a, V: BinarySerializable> TermStreamer<'a, V> {
    /// The dictionary that the stream runs over.
    pub closed spec fn dictionary(&self) -> &TermDictionary<V> {
        self.dictionary
    }

    /// The entry that the stream stands on, if any.
    pub closed spec fn current(&self) -> Option<(Seq<u8>, u64)> {
        match self.current {
            Some(i) => Some(self.dictionary.entries()[i as int]),
            None => None,
        }
    }

    /// The entries that the stream has yet to reach, in order.
    pub closed spec fn remaining(&self) -> Seq<(Seq<u8>, u64)> {
        self.dictionary.entries().subrange(self.next as int, self.end as int)
    }

    /// The entry that the stream stands on, if any, followed by the entries
    /// that it has yet to reach.
    pub open spec fn queue(&self) -> Seq<(Seq<u8>, u64)> {
        match self.current() {
            Some(entry) => seq![entry] + self.remaining(),
            None => self.remaining(),
        }
    }

    /// The stream lies within its dictionary, whose terms are strictly
    /// increasing.
    pub closed spec fn wf(&self) -> bool {
        &&& self.dictionary.wf()
        &&& self.next <= self.end <= self.dictionary.entries().len()
        &&& self.current matches Some(i) ==> i < self.next
    }

    /// The entry that the stream stands on and those that it has yet to
    /// reach are entries of the dictionary, in strictly increasing order.
    pub proof fn lemma_ordered(&self)
        requires
            self.wf(),
        ensures
            self.dictionary().wf(),
            strictly_increasing(self.remaining()),
            forall|j: int|
                0 <= j < self.remaining().len() ==> self.dictionary().entries().contains(
                    #[trigger] self.remaining()[j],
                ),
            self.current() matches Some(entry) ==> self.dictionary().entries().contains(entry)
                && forall|j: int|
                0 <= j < self.remaining().len() ==> term_lt(
                    entry.0,
                    #[trigger] self.remaining()[j].0,
                ),
    {
        let entries = self.dictionary.entries();
        let remaining = self.remaining();
        assert forall|i: int, j: int| 0 <= i < j < remaining.len() implies term_lt(
            remaining[i].0,
            remaining[j].0,
        ) by {
            assert(term_lt(entries[self.next + i].0, entries[self.next + j].0));
        }
        assert forall|j: int| 0 <= j < remaining.len() implies entries.contains(
            #[trigger] remaining[j],
        ) by {
            assert(entries[self.next + j] == remaining[j]);
        }
        if let Some(i) = self.current {
            assert(entries[i as int] == self.current()->Some_0);
            assert forall|j: int| 0 <= j < remaining.len() implies term_lt(
                entries[i as int].0,
                #[trigger] remaining[j].0,
            ) by {
                assert(term_lt(entries[i as int].0, entries[self.next + j].0));
            }
        }
    }

    /// Moves to the next entry and says whether there is one. Once it has
    /// returned `false` the stream stands on no entry and stays so.
    pub fn advance(&mut self) -> (available: bool)
        requires
            old(self).wf(),
        ensures
            final(self).wf(),
            final(self).dictionary() == old(self).dictionary(),
            available == (old(self).remaining().len() > 0),
            available ==> final(self).current() == Some(old(self).remaining()[0])
                && final(self).remaining() == old(self).remaining().drop_first(),
            !available ==> final(self).current() is None && final(self).remaining()
                == old(self).remaining(),
    {
        if self.next < self.end {
            self.current = Some(self.next);
            self.next = self.next + 1;
            assert(self.remaining() =~= old(self).remaining().drop_first());
            true
        } else {
            self.current = None;
            false
        }
    }

    /// Whether the stream stands on an entry.
    pub fn has_current(&self) -> (standing: bool)
        ensures
            standing == self.current() is Some,
    {
        self.current.is_some()
    }

    /// The term of the entry that the stream stands on.
    pub fn current_key(&self) -> (key: &[u8])
        requires
            self.wf(),
            self.current() is Some,
        ensures
            key@ == self.current()->Some_0.0,
    {
        self.dictionary.index().term_at(self.current.unwrap())
    }

    /// The address of the entry that the stream stands on.
    pub fn current_address(&self) -> (address: u64)
        requires
            self.wf(),
            self.current() is Some,
        ensures
            address == self.current()->Some_0.1,
    {
        self.dictionary.index().address_at(self.current.unwrap())
    }

    /// The value of the entry that the stream stands on: what reading the
    /// blob of the dictionary at the entry's address gives.
    pub fn current_value(&self) -> (result: Result<V, DecodeError>)
        requires
            self.wf(),
            self.current() is Some,
        ensures
            match value_at::<V>(self.dictionary().blob(), self.current()->Some_0.1) {
                Ok(m) => result is Ok && result->Ok_0.model() == m,
                Err(e) => result == Err::<V, DecodeError>(e),
            },
    {
        let address = self.current_address();
        self.dictionary.read_value(address)
    }
}

impl<V: BinarySerializable> TermDictionary<V> {
    /// Begins a stream over all the terms of the dictionary.
    pub fn stream(&self) -> (builder: TermStreamerBuilder<'_, V>)
        ensures
            builder.dictionary() == self,
            builder.lower() == TermBound::<Seq<u8>>::Unbounded,
            builder.upper() == TermBound::<Seq<u8>>::Unbounded,
    {
        TermStreamerBuilder::new(self, TermBound::Unbounded, TermBound::Unbounded)
    }

    /// Begins a stream over the terms of the dictionary that lie within the
    /// bounds given.
    pub fn range(&self, lower: TermBound<Vec<u8>>, upper: TermBound<Vec<u8>>) -> (builder:
        TermStreamerBuilder<'_, V>)
        ensures
            builder.dictionary() == self,
            builder.lower() == lower@,
            builder.upper() == upper@,
    {
        TermStreamerBuilder::new(self, lower, upper)
    }
}

/// A stream without bounds yields every entry.
pub proof fn lemma_range_entries_unbounded(entries: Seq<(Seq<u8>, u64)>)
    ensures
        range_entries(entries, TermBound::Unbounded, TermBound::Unbounded) == entries,
    decreases entries.len(),
{
    if entries.len() > 0 {
        lemma_range_entries_unbounded(entries.drop_first());
        assert(seq![entries[0]] + entries.drop_first() =~= entries);
    } else {
        assert(entries =~= Seq::empty());
    }
}

} // verus!
