//! The interface shared by every iterator over sorted key-value entries, and
//! the iterators that merge several of them.
use vstd::prelude::*;
use crate::block::Entry;
use crate::key::{key_lt, lemma_key_order};

pub mod merge_iterator;
pub mod two_merge_iterator;

verus! {

/// Why an iterator could not move on.
pub enum StorageError {
    /// `next` was called on an iterator that had already failed.
    InvalidIterator,
}

/// The entries that remain after the current one is consumed.
pub open spec fn advanced(es: Seq<Entry>) -> Seq<Entry> {
    if es.len() > 0 {
        es.drop_first()
    } else {
        es
    }
}

/// The keys of `s` strictly increase.
pub open spec fn sorted(s: Seq<Entry>) -> bool {
    forall|i: int, j: int| 0 <= i < j < s.len() ==> key_lt(#[trigger] s[i].0, #[trigger] s[j].0)
}

/// Some entry of `s` has key `k`.
pub open spec fn has_key(s: Seq<Entry>, k: Seq<u8>) -> bool {
    exists|i: int| 0 <= i < s.len() && (#[trigger] s[i]).0 == k
}

/// What a sorted sequence's tail holds: it is sorted, every entry in it has a
/// key greater than the head's, and a key is in the sequence exactly when it
/// is the head's or in the tail.
pub proof fn lemma_sorted_tail(s: Seq<Entry>)
    requires
        sorted(s),
        s.len() > 0,
    ensures
        sorted(s.drop_first()),
        forall|x: Entry| #[trigger] s.drop_first().contains(x) ==> key_lt(s[0].0, x.0),
        forall|x: Entry| #[trigger] s.contains(x) <==> (x == s[0] || s.drop_first().contains(x)),
        forall|k: Seq<u8>| #[trigger] has_key(s, k) <==> (s[0].0 == k || has_key(s.drop_first(), k)),
        forall|x: Entry| #[trigger] s.contains(x) ==> !key_lt(x.0, s[0].0),
        forall|k: Seq<u8>| #[trigger] has_key(s.drop_first(), k) ==> key_lt(s[0].0, k),
{
    lemma_key_order();
    let t = s.drop_first();
    assert forall|i: int, j: int| 0 <= i < j < t.len() implies key_lt(#[trigger] t[i].0, #[trigger] t[j].0) by {
        assert(t[i] == s[i + 1] && t[j] == s[j + 1]);
    }
    assert forall|x: Entry| #[trigger] t.contains(x) implies key_lt(s[0].0, x.0) by {
        let i = choose|i: int| 0 <= i < t.len() && t[i] == x;
        assert(t[i] == s[i + 1]);
    }
    assert forall|x: Entry| #[trigger] s.contains(x) <==> (x == s[0] || t.contains(x)) by {
        if s.contains(x) && x != s[0] {
            let i = choose|i: int| 0 <= i < s.len() && s[i] == x;
            assert(t[i - 1] == x);
        }
        if t.contains(x) {
            let i = choose|i: int| 0 <= i < t.len() && t[i] == x;
            assert(s[i + 1] == x);
        }
        if x == s[0] {
            assert(s[0] == x);
        }
    }
    assert forall|k: Seq<u8>| #[trigger] has_key(s, k) <==> (s[0].0 == k || has_key(t, k)) by {
        if has_key(s, k) && s[0].0 != k {
            let i = choose|i: int| 0 <= i < s.len() && (#[trigger] s[i]).0 == k;
            assert(t[i - 1].0 == k);
        }
        if has_key(t, k) {
            let i = choose|i: int| 0 <= i < t.len() && (#[trigger] t[i]).0 == k;
            assert(s[i + 1].0 == k);
        }
        if s[0].0 == k {
            assert(s[0].0 == k);
        }
    }
    assert forall|x: Entry| #[trigger] s.contains(x) implies !key_lt(x.0, s[0].0) by {
        let i = choose|i: int| 0 <= i < s.len() && s[i] == x;
        if i > 0 {
            assert(key_lt(s[0].0, s[i].0));
        }
    }
    assert forall|k: Seq<u8>| #[trigger] has_key(t, k) implies key_lt(s[0].0, k) by {
        let i = choose|i: int| 0 <= i < t.len() && (#[trigger] t[i]).0 == k;
        assert(t[i] == s[i + 1]);
    }
}

/// Putting an entry before a sorted sequence of greater keys keeps it sorted.
pub proof fn lemma_cons(h: Entry, r: Seq<Entry>)
    ensures
        forall|x: Entry| #[trigger] (seq![h] + r).contains(x) <==> (x == h || r.contains(x)),
        sorted(r) && (forall|x: Entry| #[trigger] r.contains(x) ==> key_lt(h.0, x.0)) ==> sorted(
            seq![h] + r,
        ),
{
    let s = seq![h] + r;
    assert(s.drop_first() =~= r);
    assert(s[0] == h);
    assert forall|x: Entry| #[trigger] s.contains(x) <==> (x == h || r.contains(x)) by {
        if s.contains(x) && x != h {
            let i = choose|i: int| 0 <= i < s.len() && s[i] == x;
            assert(r[i - 1] == x);
        }
        if r.contains(x) {
            let i = choose|i: int| 0 <= i < r.len() && r[i] == x;
            assert(s[i + 1] == x);
        }
    }
    if sorted(r) && (forall|x: Entry| #[trigger] r.contains(x) ==> key_lt(h.0, x.0)) {
        assert forall|i: int, j: int| 0 <= i < j < s.len() implies key_lt(#[trigger] s[i].0, #[trigger] s[j].0) by {
            if i == 0 {
                assert(r.contains(r[j - 1]));
            } else {
                assert(s[i] == r[i - 1] && s[j] == r[j - 1]);
            }
        }
    }
}

/// `states[t + 1]` is what a successful `next` leaves from `states[t]`.
pub open spec fn stepped<I: StorageIterator>(states: Seq<I>, t: int) -> bool {
    states[t + 1].entries() == advanced(states[t].entries())
}

/// Iterating yields the entries in order: after `j` successful calls of
/// `next` from a state whose entries are `e`, the iterator is valid exactly
/// when `j < e.len()`, stands at `e[j]`, and has the entries of `e` from
/// index `j` on still to come.
pub proof fn lemma_iteration<I: StorageIterator>(states: Seq<I>)
    requires
        states.len() > 0,
        forall|t: int| 0 <= t < states.len() - 1 ==> #[trigger] stepped(states, t),
    ensures
        states.len() - 1 <= states[0].entries().len() ==> states.last().entries()
            == states[0].entries().skip(states.len() - 1),
        (states.last().entries().len() > 0) == (states.len() - 1 < states[0].entries().len()),
        states.len() - 1 < states[0].entries().len() ==> states.last().entries()[0]
            == states[0].entries()[states.len() - 1],
    decreases states.len(),
{
    let e = states[0].entries();
    let j = states.len() - 1;
    if j == 0 {
        assert(e.skip(0) =~= e);
    } else {
        let prev = states.drop_last();
        assert forall|t: int| 0 <= t < prev.len() - 1 implies #[trigger] stepped(prev, t) by {
            assert(stepped(states, t));
        }
        lemma_iteration(prev);
        assert(stepped(states, j - 1));
        assert(prev.last() == states[j - 1]);
        if j - 1 < e.len() {
            assert(e.skip(j - 1).drop_first() =~= e.skip(j));
        }
    }
}

/// An iterator over key-value entries. It is modelled by the sequence of
/// entries still to come, the current one first: it is valid while that
/// sequence is non-empty, `key` and `value` read its first entry, and a
/// successful `next` drops that entry.
pub trait StorageIterator {
    /// The iterator's own consistency, which every method keeps on success.
    spec fn wf(&self) -> bool;

    /// The entries still to come, the current one first.
    spec fn entries(&self) -> Seq<Entry>;

    /// `next` may be called in this state.
    spec fn can_advance(&self) -> bool;

    /// How many underlying iterators this one is built from.
    spec fn active_count(&self) -> nat;

    /// `next` cannot fail in this state, nor in any state that successful
    /// steps lead to: no underlying source can fail.
    spec fn infallible(&self) -> bool;

    /// The next call of `next` from this state is bound to fail: one of
    /// the underlying steps that it takes fails.
    spec fn fails_next(&self) -> bool;

    /// A valid iterator can always move on.
    proof fn lemma_valid_can_advance(&self)
        requires
            self.wf(),
            self.entries().len() > 0,
        ensures
            self.can_advance(),
    ;

    /// Gets the current key.
    fn key(&self) -> (k: &[u8])
        requires
            self.wf(),
            self.entries().len() > 0,
        ensures
            k@ == self.entries()[0].0,
    ;

    /// Gets the current value.
    fn value(&self) -> (v: &[u8])
        requires
            self.wf(),
            self.entries().len() > 0,
        ensures
            v@ == self.entries()[0].1,
    ;

    /// Checks if the current iterator is valid.
    fn is_valid(&self) -> (b: bool)
        requires
            self.wf(),
        ensures
            b == (self.entries().len() > 0),
    ;

    /// Moves to the next position.
    fn next(&mut self) -> (r: Result<(), StorageError>)
        requires
            old(self).wf(),
            old(self).can_advance(),
        ensures
            r is Ok ==> final(self).wf() && final(self).entries() == advanced(old(self).entries()),
            old(self).infallible() ==> r is Ok && final(self).infallible(),
            old(self).fails_next() ==> r is Err,
    ;

    /// Number of underlying active iterators for this iterator.
    fn num_active_iterators(&self) -> (n: usize)
        requires
            self.wf(),
            self.active_count() <= usize::MAX,
        ensures
            n == self.active_count(),
    ;
}

} // verus!
