//! Merging the streams of several dictionaries into one stream of terms in
//! increasing order, each term with the segments that hold it.

use super::order::lemma_term_lt_total;
use super::order::lemma_term_lt_transitive;
use super::order::term_equal;
use super::order::term_less;
use super::order::term_lt;
use super::streamer::TermStreamer;
use crate::common::BinarySerializable;
use vstd::prelude::*;

verus! {

/// The first entry of `source` has the term `term`.
pub open spec fn stands_at(source: Seq<(Seq<u8>, u64)>, term: Seq<u8>) -> bool {
    source.len() > 0 && source[0].0 == term
}

/// The least of the first terms of the first `upto` sources, `None` where
/// all of them are empty.
pub open spec fn least_head(pending: Seq<Seq<(Seq<u8>, u64)>>, upto: nat) -> Option<Seq<u8>>
    decreases upto,
{
    if upto == 0 {
        None
    } else {
        let before = least_head(pending, (upto - 1) as nat);
        let source = pending[upto - 1];
        if source.len() == 0 {
            before
        } else {
            match before {
                None => Some(source[0].0),
                Some(term) => if term_lt(source[0].0, term) {
                    Some(source[0].0)
                } else {
                    Some(term)
                },
            }
        }
    }
}

/// Of the first `upto` sources, those whose first entry has the term
/// `term`: the number of each with the address of its first entry, in the
/// order of the sources.
pub open spec fn heads_at(pending: Seq<Seq<(Seq<u8>, u64)>>, term: Seq<u8>, upto: nat) -> Seq<
    (usize, u64),
>
    decreases upto,
{
    if upto == 0 {
        Seq::empty()
    } else {
        let before = heads_at(pending, term, (upto - 1) as nat);
        if stands_at(pending[upto - 1], term) {
            before.push(((upto - 1) as usize, pending[upto - 1][0].1))
        } else {
            before
        }
    }
}

/// The sources after each one whose first entry has the term `term` has
/// given that entry up.
pub open spec fn after_heads(pending: Seq<Seq<(Seq<u8>, u64)>>, term: Seq<u8>) -> Seq<
    Seq<(Seq<u8>, u64)>,
> {
    Seq::new(
        pending.len(),
        |i: int|
            if stands_at(pending[i], term) {
                pending[i].drop_first()
            } else {
                pending[i]
            },
    )
}

/// `least_head` is `None` exactly where every source is empty; else it is
/// the first term of some source, and the first term of no source comes
/// before it.
pub proof fn lemma_least_head(pending: Seq<Seq<(Seq<u8>, u64)>>, upto: nat)
    requires
        upto <= pending.len(),
    ensures
        match least_head(pending, upto) {
            None => forall|i: int| 0 <= i < upto ==> (#[trigger] pending[i]).len() == 0,
            Some(term) => (exists|i: int| 0 <= i < upto && stands_at(#[trigger] pending[i], term))
                && forall|i: int|
                0 <= i < upto && (#[trigger] pending[i]).len() > 0 ==> !term_lt(
                    pending[i][0].0,
                    term,
                ),
        },
    decreases upto,
{
    if upto > 0 {
        lemma_least_head(pending, (upto - 1) as nat);
        let before = least_head(pending, (upto - 1) as nat);
        let source = pending[upto - 1];
        if source.len() > 0 {
            let head = source[0].0;
            assert(stands_at(pending[upto - 1], head));
            match before {
                None => {
                    super::order::lemma_term_lt_irreflexive(head);
                },
                Some(term) => {
                    let w = choose|i: int| 0 <= i < upto - 1 && stands_at(#[trigger] pending[i], term);
                    assert(stands_at(pending[w], term));
                    if term_lt(head, term) {
                        super::order::lemma_term_lt_irreflexive(head);
                        assert forall|i: int| 0 <= i < upto && (#[trigger] pending[i]).len()
                            > 0 implies !term_lt(pending[i][0].0, head) by {
                            if i < upto - 1 && term_lt(pending[i][0].0, head) {
                                lemma_term_lt_transitive(pending[i][0].0, head, term);
                            }
                        }
                    }
                },
            }
        } else {
            if let Some(term) = before {
                let w = choose|i: int| 0 <= i < upto - 1 && stands_at(#[trigger] pending[i], term);
                assert(stands_at(pending[w], term));
            }
        }
    }
}

/// Of the first `upto` streams, those marked in `in_group`: the number of
/// each with the address of the entry that it stands on.
spec fn group_of<'a, V: BinarySerializable>(
    streams: Seq<TermStreamer<'a, V>>,
    in_group: Seq<bool>,
    upto: nat,
) -> Seq<(usize, u64)>
    decreases upto,
{
    if upto == 0 {
        Seq::empty()
    } else {
        let before = group_of(streams, in_group, (upto - 1) as nat);
        if in_group[upto - 1] {
            before.push(((upto - 1) as usize, streams[upto - 1].current()->Some_0.1))
        } else {
            before
        }
    }
}

proof fn lemma_group_is_heads<'a, V: BinarySerializable>(
    streams: Seq<TermStreamer<'a, V>>,
    in_group: Seq<bool>,
    queues: Seq<Seq<(Seq<u8>, u64)>>,
    term: Seq<u8>,
    upto: nat,
)
    requires
        upto <= streams.len(),
        streams.len() == in_group.len(),
        streams.len() == queues.len(),
        forall|j: int|
            0 <= j < upto ==> (#[trigger] in_group[j] <==> stands_at(queues[j], term)),
        forall|j: int|
            0 <= j < upto && #[trigger] in_group[j] ==> streams[j].current() == Some(queues[j][0]),
    ensures
        group_of(streams, in_group, upto) == heads_at(queues, term, upto),
    decreases upto,
{
    if upto > 0 {
        lemma_group_is_heads(streams, in_group, queues, term, (upto - 1) as nat);
        assert(in_group[upto - 1] <==> stands_at(queues[upto - 1], term));
    }
}

/// A merge of term streams: it yields each term that any of the streams
/// yields, once and in strictly increasing order, with the streams that
/// hold the term and the address that each of them gives it. The streams
/// are numbered in the order in which they were handed over.
pub struct TermMerger<'a, V: BinarySerializable> {
    streams: Vec<TermStreamer<'a, V>>,
    in_group: Vec<bool>,
    has_current: bool,
    key_source: usize,
}

impl<'a, V: BinarySerializable> TermMerger<'a, V> {
    /// For each stream, the entries that the merge has not yet yielded, in
    /// order.
    pub closed spec fn pending(&self) -> Seq<Seq<(Seq<u8>, u64)>> {
        Seq::new(
            self.streams@.len(),
            |i: int|
                if self.in_group@[i] {
                    self.streams@[i].remaining()
                } else {
                    self.streams@[i].queue()
                },
        )
    }

    /// The term that the merge stands on, if any, with the streams that hold
    /// it: the number of each and the address that it gives the term.
    pub closed spec fn current(&self) -> Option<(Seq<u8>, Seq<(usize, u64)>)> {
        if self.has_current {
            Some(
                (
                    self.streams@[self.key_source as int].current()->Some_0.0,
                    group_of(self.streams@, self.in_group@, self.streams@.len()),
                ),
            )
        } else {
            None
        }
    }

    /// The streams are well-formed, the streams that hold the current term
    /// stand on it, and every entry not yet yielded comes after it.
    pub closed spec fn wf(&self) -> bool {
        &&& self.streams@.len() == self.in_group@.len()
        &&& forall|i: int| 0 <= i < self.streams@.len() ==> (#[trigger] self.streams@[i]).wf()
        &&& forall|i: int|
            0 <= i < self.streams@.len() && !self.in_group@[i] && (
            #[trigger] self.streams@[i]).current() is None ==> self.streams@[i].remaining().len()
                == 0
        &&& self.has_current ==> {
            &&& self.key_source < self.streams@.len()
            &&& self.in_group@[self.key_source as int]
            &&& forall|i: int|
                0 <= i < self.streams@.len() && self.in_group@[i] ==> (
                #[trigger] self.streams@[i]).current() is Some && self.streams@[i].current()->Some_0.0
                    == self.streams@[self.key_source as int].current()->Some_0.0
            &&& forall|i: int|
                0 <= i < self.streams@.len() && (#[trigger] self.pending()[i]).len() > 0
                    ==> term_lt(
                    self.streams@[self.key_source as int].current()->Some_0.0,
                    self.pending()[i][0].0,
                )
        }
    }

    /// A merge of `streams`. It stands before its first term: `advance` must
    /// be called before the first access. Each stream contributes the
    /// entries that it has yet to reach.
    pub fn new(streams: Vec<TermStreamer<'a, V>>) -> (merger: TermMerger<'a, V>)
        requires
            forall|i: int| 0 <= i < streams@.len() ==> (#[trigger] streams@[i]).wf(),
        ensures
            merger.wf(),
            merger.current() is None,
            merger.pending() == Seq::new(streams@.len(), |i: int| streams@[i].remaining()),
    {
        let mut in_group: Vec<bool> = Vec::new();
        let mut i: usize = 0;
        while i < streams.len()
            invariant
                i <= streams.len(),
                in_group@.len() == i,
                forall|j: int| 0 <= j < i ==> in_group@[j],
            decreases streams.len() - i,
        {
            in_group.push(true);
            i += 1;
        }
        let merger = TermMerger { streams, in_group, has_current: false, key_source: 0 };
        assert(merger.pending() =~= Seq::new(streams@.len(), |i: int| streams@[i].remaining()));
        merger
    }

    /// Moves to the next term and says whether there is one: the least of
    /// the terms not yet yielded. The streams that hold it are grouped under
    /// it and give their entry up. Terms come in strictly increasing order.
    pub fn advance(&mut self) -> (available: bool)
        requires
            old(self).wf(),
        ensures
            final(self).wf(),
            match least_head(old(self).pending(), old(self).pending().len()) {
                None => !available && final(self).current() is None && final(self).pending()
                    == old(self).pending(),
                Some(term) => available && final(self).current() == Some(
                    (term, heads_at(old(self).pending(), term, old(self).pending().len())),
                ) && final(self).pending() == after_heads(old(self).pending(), term),
            },
            available && old(self).current() is Some ==> term_lt(
                old(self).current()->Some_0.0,
                final(self).current()->Some_0.0,
            ),
    {
        let n = self.streams.len();
        let ghost queues = self.pending();
        let mut i: usize = 0;
        while i < n
            invariant
                i <= n,
                n == self.streams@.len(),
                n == self.in_group@.len(),
                old(self).wf(),
                queues == old(self).pending(),
                n == queues.len(),
                n == old(self).streams@.len(),
                n == old(self).in_group@.len(),
                self.has_current == old(self).has_current,
                self.key_source == old(self).key_source,
                forall|j: int| 0 <= j < n ==> (#[trigger] self.streams@[j]).wf(),
                forall|j: int| 0 <= j < i ==> !(#[trigger] self.in_group@[j]),
                forall|j: int|
                    0 <= j < i ==> (#[trigger] self.streams@[j]).queue() == queues[j] && (
                    self.streams@[j].current() is None ==> self.streams@[j].remaining().len()
                        == 0),
                forall|j: int|
                    i <= j < n ==> #[trigger] self.in_group@[j] == old(self).in_group@[j],
                forall|j: int|
                    i <= j < n ==> #[trigger] self.streams@[j] == old(self).streams@[j],
            decreases n - i,
        {
            let ghost before = self.streams@[i as int];
            if self.in_group[i] {
                let moved = self.streams[i].advance();
                self.in_group[i] = false;
                proof {
                    if moved {
                        assert(seq![before.remaining()[0]] + before.remaining().drop_first()
                            =~= before.remaining());
                    }
                }
            }
            i += 1;
        }
        let mut best: Option<usize> = None;
        i = 0;
        while i < n
            invariant
                i <= n,
                n == self.streams@.len(),
                n == self.in_group@.len(),
                n == queues.len(),
                forall|j: int| 0 <= j < n ==> (#[trigger] self.streams@[j]).wf(),
                forall|j: int|
                    0 <= j < n ==> (#[trigger] self.streams@[j]).queue() == queues[j] && (
                    self.streams@[j].current() is None ==> self.streams@[j].remaining().len()
                        == 0),
                forall|j: int| 0 <= j < n ==> !(#[trigger] self.in_group@[j]),
                match best {
                    None => least_head(queues, i as nat) is None,
                    Some(b) => b < i && self.streams@[b as int].current() is Some && least_head(
                        queues,
                        i as nat,
                    ) == Some(self.streams@[b as int].current()->Some_0.0),
                },
            decreases n - i,
        {
            assert(self.streams@[i as int].queue() == queues[i as int]);
            if self.streams[i].has_current() {
                match best {
                    None => {
                        best = Some(i);
                    },
                    Some(b) => {
                        if term_less(self.streams[i].current_key(), self.streams[b].current_key()) {
                            best = Some(i);
                        }
                    },
                }
            }
            i += 1;
        }
        match best {
            None => {
                self.has_current = false;
                proof {
                    assert(self.pending() =~= queues);
                }
                false
            },
            Some(b) => {
                let ghost term = self.streams@[b as int].current()->Some_0.0;
                proof {
                    lemma_least_head(queues, n as nat);
                }
                i = 0;
                while i < n
                    invariant
                        i <= n,
                        b < n,
                        n == self.streams@.len(),
                        n == self.in_group@.len(),
                        n == queues.len(),
                        term == self.streams@[b as int].current()->Some_0.0,
                        self.streams@[b as int].current() is Some,
                        forall|j: int| 0 <= j < n ==> (#[trigger] self.streams@[j]).wf(),
                        forall|j: int|
                            0 <= j < n ==> (#[trigger] self.streams@[j]).queue() == queues[j] && (
                            self.streams@[j].current() is None
                                ==> self.streams@[j].remaining().len() == 0),
                        forall|j: int|
                            0 <= j < i ==> (#[trigger] self.in_group@[j] <==> stands_at(
                                queues[j],
                                term,
                            )),
                        forall|j: int| i <= j < n ==> !(#[trigger] self.in_group@[j]),
                    decreases n - i,
                {
                    assert(self.streams@[i as int].queue() == queues[i as int]);
                    if self.streams[i].has_current() {
                        let same = term_equal(
                            self.streams[i].current_key(),
                            self.streams[b].current_key(),
                        );
                        self.in_group[i] = same;
                    }
                    i += 1;
                }
                self.has_current = true;
                self.key_source = b;
                proof {
                    let streams = self.streams@;
                    let in_group = self.in_group@;
                    assert(streams[b as int].queue() == queues[b as int]);
                    assert forall|j: int| 0 <= j < n && #[trigger] in_group[j] implies streams[j].current()
                        == Some(queues[j][0]) by {
                        assert(streams[j].queue() == queues[j]);
                    }
                    lemma_group_is_heads(streams, in_group, queues, term, n as nat);
                    assert forall|j: int| 0 <= j < n implies #[trigger] self.pending()[j]
                        == after_heads(queues, term)[j] by {
                        assert(streams[j].queue() == queues[j]);
                        if in_group[j] {
                            assert(queues[j].drop_first() =~= streams[j].remaining());
                        }
                    }
                    assert(self.pending() =~= after_heads(queues, term));
                    assert forall|j: int| 0 <= j < n && (#[trigger] self.pending()[j]).len()
                        > 0 implies term_lt(term, self.pending()[j][0].0) by {
                        assert(streams[j].queue() == queues[j]);
                        assert(streams[j].wf());
                        streams[j].lemma_ordered();
                        if in_group[j] {
                            assert(self.pending()[j] == streams[j].remaining());
                        } else {
                            assert(self.pending()[j] == queues[j]);
                            assert(!term_lt(queues[j][0].0, term));
                            lemma_term_lt_total(queues[j][0].0, term);
                        }
                    }
                    if old(self).current() is Some {
                        let w = choose|j: int| 0 <= j < n && stands_at(#[trigger] queues[j], term);
                        assert(queues[w].len() > 0);
                        assert(old(self).pending()[w] == queues[w]);
                    }
                }
                true
            },
        }
    }

    /// The term that the merge stands on.
    pub fn key(&self) -> (key: &[u8])
        requires
            self.wf(),
            self.current() is Some,
        ensures
            key@ == self.current()->Some_0.0,
    {
        assert(self.streams@[self.key_source as int].wf());
        self.streams[self.key_source].current_key()
    }

    /// The streams that hold the term that the merge stands on: the number
    /// of each, in increasing order, with the address that it gives the
    /// term.
    pub fn current_entries(&self) -> (entries: Vec<(usize, u64)>)
        requires
            self.wf(),
            self.current() is Some,
        ensures
            entries@ == self.current()->Some_0.1,
    {
        let mut entries: Vec<(usize, u64)> = Vec::new();
        let n = self.streams.len();
        let mut i: usize = 0;
        while i < n
            invariant
                i <= n,
                n == self.streams@.len(),
                self.wf(),
                self.current() is Some,
                entries@ == group_of(self.streams@, self.in_group@, i as nat),
            decreases n - i,
        {
            if self.in_group[i] {
                assert(self.streams@[i as int].wf());
                entries.push((i, self.streams[i].current_address()));
            }
            i += 1;
        }
        entries
    }
}

} // verus!
