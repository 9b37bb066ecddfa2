//! The byte-wise lexicographic order on terms.

use vstd::prelude::*;

verus! {

/// `a` comes strictly before `b` in byte-wise lexicographic order.
pub open spec fn term_lt(a: Seq<u8>, b: Seq<u8>) -> bool
    decreases a.len(),
{
    if b.len() == 0 {
        false
    } else if a.len() == 0 {
        true
    } else if a[0] != b[0] {
        a[0] < b[0]
    } else {
        term_lt(a.drop_first(), b.drop_first())
    }
}

/// The terms of `entries` are in strictly increasing order.
pub open spec fn strictly_increasing(entries: Seq<(Seq<u8>, u64)>) -> bool {
    forall|i: int, j: int| 0 <= i < j < entries.len() ==> term_lt(entries[i].0, entries[j].0)
}

/// No term comes before itself.
pub proof fn lemma_term_lt_irreflexive(a: Seq<u8>)
    ensures
        !term_lt(a, a),
    decreases a.len(),
{
    if a.len() > 0 {
        lemma_term_lt_irreflexive(a.drop_first());
    }
}

/// Of two terms, at most one comes before the other.
pub proof fn lemma_term_lt_asymmetric(a: Seq<u8>, b: Seq<u8>)
    ensures
        term_lt(a, b) ==> !term_lt(b, a),
    decreases a.len(),
{
    if a.len() > 0 && b.len() > 0 && a[0] == b[0] {
        lemma_term_lt_asymmetric(a.drop_first(), b.drop_first());
    }
}

/// The order is transitive.
pub proof fn lemma_term_lt_transitive(a: Seq<u8>, b: Seq<u8>, c: Seq<u8>)
    requires
        term_lt(a, b),
        term_lt(b, c),
    ensures
        term_lt(a, c),
    decreases a.len(),
{
    if a.len() > 0 && b.len() > 0 && c.len() > 0 && a[0] == b[0] && b[0] == c[0] {
        lemma_term_lt_transitive(a.drop_first(), b.drop_first(), c.drop_first());
    }
}

/// The order is total: two different terms are ordered one way or the other.
pub proof fn lemma_term_lt_total(a: Seq<u8>, b: Seq<u8>)
    ensures
        a == b || term_lt(a, b) || term_lt(b, a),
    decreases a.len(),
{
    if a.len() == 0 || b.len() == 0 {
        if a.len() == 0 && b.len() == 0 {
            assert(a =~= b);
        }
    } else if a[0] == b[0] {
        lemma_term_lt_total(a.drop_first(), b.drop_first());
        if a.drop_first() == b.drop_first() {
            assert(a =~= seq![a[0]] + a.drop_first());
            assert(b =~= seq![b[0]] + b.drop_first());
        }
    }
}

/// In a strictly increasing sequence no term occurs twice.
pub proof fn lemma_increasing_terms_differ(entries: Seq<(Seq<u8>, u64)>, i: int, j: int)
    requires
        strictly_increasing(entries),
        0 <= i < entries.len(),
        0 <= j < entries.len(),
        entries[i].0 == entries[j].0,
    ensures
        i == j,
{
    lemma_term_lt_irreflexive(entries[i].0);
}

/// Whether `a` comes strictly before `b`.
pub fn term_less(a: &[u8], b: &[u8]) -> (less: bool)
    ensures
        less == term_lt(a@, b@),
{
    let mut i: usize = 0;
    assert(a@.skip(0) =~= a@ && b@.skip(0) =~= b@);
    while i < a.len() && i < b.len()
        invariant
            i <= a.len(),
            i <= b.len(),
            term_lt(a@, b@) == term_lt(a@.skip(i as int), b@.skip(i as int)),
        decreases a.len() - i,
    {
        assert(a@.skip(i as int).drop_first() =~= a@.skip(i + 1));
        assert(b@.skip(i as int).drop_first() =~= b@.skip(i + 1));
        if a[i] != b[i] {
            return a[i] < b[i];
        }
        i += 1;
    }
    i < b.len()
}

/// Whether `a` and `b` are the same term.
pub fn term_equal(a: &[u8], b: &[u8]) -> (same: bool)
    ensures
        same == (a@ == b@),
{
    if a.len() != b.len() {
        return false;
    }
    let mut i: usize = 0;
    while i < a.len()
        invariant
            i <= a.len(),
            a.len() == b.len(),
            forall|k: int| 0 <= k < i ==> a@[k] == b@[k],
        decreases a.len() - i,
    {
        if a[i] != b[i] {
            return false;
        }
        i += 1;
    }
    assert(a@ =~= b@);
    true
}

} // verus!
