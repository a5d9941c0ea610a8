//! Merges two iterators, preferring the first on equal keys.
use vstd::prelude::*;
use crate::block::Entry;
use crate::iterators::{has_key, lemma_cons, lemma_sorted_tail, sorted, StorageError, StorageIterator};
use crate::key::{key_eq, key_less, key_lt, lemma_key_order};

verus! {

/// The entries of `a` and `b` merged: the smaller key goes first, and on
/// equal keys the entry of `a` is kept and the entry of `b` dropped.
pub open spec fn two_merge(a: Seq<Entry>, b: Seq<Entry>) -> Seq<Entry>
    decreases a.len() + b.len(),
{
    if a.len() == 0 {
        b
    } else if b.len() == 0 {
        a
    } else if key_lt(a[0].0, b[0].0) {
        seq![a[0]] + two_merge(a.drop_first(), b)
    } else if a[0].0 == b[0].0 {
        seq![a[0]] + two_merge(a.drop_first(), b.drop_first())
    } else {
        seq![b[0]] + two_merge(a, b.drop_first())
    }
}

/// `a` is the side whose entry comes out next.
pub open spec fn selects_a(a: Seq<Entry>, b: Seq<Entry>) -> bool {
    a.len() > 0 && (b.len() == 0 || !key_lt(b[0].0, a[0].0))
}

/// Merging two sorted sequences gives a sorted sequence holding every entry
/// of `a`, and the entries of `b` whose keys `a` does not hold; nothing else.
pub proof fn lemma_two_merge_sorted(a: Seq<Entry>, b: Seq<Entry>)
    requires
        sorted(a),
        sorted(b),
    ensures
        sorted(two_merge(a, b)),
        forall|x: Entry|
            #[trigger] two_merge(a, b).contains(x) <==> (a.contains(x) || (b.contains(x) && !has_key(
                a,
                x.0,
            ))),
    decreases a.len() + b.len(),
{
    lemma_key_order();
    let m = two_merge(a, b);
    if a.len() == 0 {
        assert forall|x: Entry| #[trigger] m.contains(x) <==> (a.contains(x) || (b.contains(x) && !has_key(a, x.0))) by {
            if has_key(a, x.0) {
                let i = choose|i: int| 0 <= i < a.len() && (#[trigger] a[i]).0 == x.0;
            }
            if a.contains(x) {
                let i = choose|i: int| 0 <= i < a.len() && a[i] == x;
            }
        }
    } else if b.len() == 0 {
        assert forall|x: Entry| #[trigger] m.contains(x) <==> (a.contains(x) || (b.contains(x) && !has_key(a, x.0))) by {
            if b.contains(x) {
                let i = choose|i: int| 0 <= i < b.len() && b[i] == x;
            }
        }
    } else {
        lemma_sorted_tail(a);
        lemma_sorted_tail(b);
        let a0 = a[0];
        let b0 = b[0];
        let a1 = a.drop_first();
        let b1 = b.drop_first();
        if key_lt(a0.0, b0.0) {
            let r = two_merge(a1, b);
            lemma_two_merge_sorted(a1, b);
            lemma_cons(a0, r);
            assert forall|x: Entry| #[trigger] r.contains(x) implies key_lt(a0.0, x.0) by {
                if b.contains(x) {
                    assert(!key_lt(x.0, b0.0));
                }
            }
            assert forall|x: Entry| #[trigger] m.contains(x) <==> (a.contains(x) || (b.contains(x) && !has_key(a, x.0))) by {
                if b.contains(x) {
                    assert(!key_lt(x.0, b0.0));
                    assert(x.0 != a0.0);
                }
            }
        } else if a0.0 == b0.0 {
            let r = two_merge(a1, b1);
            lemma_two_merge_sorted(a1, b1);
            lemma_cons(a0, r);
            assert forall|x: Entry| #[trigger] m.contains(x) <==> (a.contains(x) || (b.contains(x) && !has_key(a, x.0))) by {
                if b1.contains(x) {
                    assert(key_lt(b0.0, x.0));
                    assert(x.0 != a0.0);
                }
                if b.contains(x) && !b1.contains(x) {
                    assert(x == b0);
                    assert(has_key(a, x.0));
                }
                if x == b0 && !(x == a0) {
                    assert(!a1.contains(x)) by {
                        if a1.contains(x) {
                            assert(key_lt(a0.0, x.0));
                        }
                    }
                    assert(!b1.contains(x)) by {
                        if b1.contains(x) {
                            assert(key_lt(b0.0, x.0));
                        }
                    }
                }
            }
        } else {
            assert(key_lt(b0.0, a0.0));
            let r = two_merge(a, b1);
            lemma_two_merge_sorted(a, b1);
            lemma_cons(b0, r);
            assert forall|x: Entry| #[trigger] r.contains(x) implies key_lt(b0.0, x.0) by {
                if a.contains(x) {
                    assert(!key_lt(x.0, a0.0));
                }
            }
            assert(!has_key(a, b0.0)) by {
                if has_key(a, b0.0) {
                    let i = choose|i: int| 0 <= i < a.len() && (#[trigger] a[i]).0 == b0.0;
                    assert(a.contains(a[i]));
                }
            }
            assert forall|x: Entry| #[trigger] m.contains(x) <==> (a.contains(x) || (b.contains(x) && !has_key(a, x.0))) by {
            }
        }
    }
}

/// Merges two iterators of different types into one. If the two iterators have the same key, only
/// produce the key once and prefer the entry from A.
pub struct TwoMergeIterator<A: StorageIterator, B: StorageIterator> {
    a: A,
    b: B,
    select_a: bool,
}

impl<A: StorageIterator, B: StorageIterator> TwoMergeIterator<A, B> {
    /// The first iterator.
    pub closed spec fn first(&self) -> A {
        self.a
    }

    /// The second iterator.
    pub closed spec fn second(&self) -> B {
        self.b
    }

    /// Whether the current entry comes from the first iterator.
    pub closed spec fn selecting_a(&self) -> bool {
        self.select_a
    }

    /// With both sides sorted, the merged entries are sorted and hold every
    /// entry of the first side and the entries of the second whose keys the
    /// first does not hold.
    pub proof fn lemma_merged_output(&self)
        requires
            self.wf(),
            sorted(self.first().entries()),
            sorted(self.second().entries()),
        ensures
            sorted(self.entries()),
            forall|x: Entry|
                #[trigger] self.entries().contains(x) <==> (self.first().entries().contains(x) || (
                self.second().entries().contains(x) && !has_key(self.first().entries(), x.0))),
    {
        lemma_two_merge_sorted(self.a.entries(), self.b.entries());
    }

    pub fn create(a: A, b: B) -> (r: Result<Self, StorageError>)
        requires
            a.wf(),
            b.wf(),
        ensures
            r matches Ok(it) && it.wf() && it.entries() == two_merge(a.entries(), b.entries())
                && it.first() == a && it.second() == b && it.infallible() == (a.infallible()
                && b.infallible()),
    {
        let mut iter = Self { a, b, select_a: true };
        iter.select_a_check();
        Ok(iter)
    }

    /// Sets the side to read from: `a` while it is valid and its key is not
    /// greater than that of a valid `b`.
    pub fn select_a_check(&mut self)
        requires
            old(self).first().wf(),
            old(self).second().wf(),
        ensures
            final(self).wf(),
            final(self).entries() == two_merge(old(self).first().entries(), old(self).second().entries()),
            final(self).first() == old(self).first(),
            final(self).second() == old(self).second(),
            final(self).selecting_a() == selects_a(
                old(self).first().entries(),
                old(self).second().entries(),
            ),
    {
        if self.a.is_valid() && self.b.is_valid() {
            self.select_a = !key_less(self.b.key(), self.a.key());
        } else if !self.a.is_valid() {
            self.select_a = false;
        } else {
            self.select_a = true;
        }
    }
}

impl<A: StorageIterator, B: StorageIterator> StorageIterator for TwoMergeIterator<A, B> {
    closed spec fn wf(&self) -> bool {
        &&& self.a.wf()
        &&& self.b.wf()
        &&& (self.a.entries().len() > 0 || self.b.entries().len() > 0) ==> self.select_a == selects_a(
            self.a.entries(),
            self.b.entries(),
        )
    }

    closed spec fn entries(&self) -> Seq<Entry> {
        two_merge(self.a.entries(), self.b.entries())
    }

    closed spec fn can_advance(&self) -> bool {
        self.a.entries().len() > 0 || self.b.entries().len() > 0
    }

    closed spec fn active_count(&self) -> nat {
        self.a.active_count() + self.b.active_count()
    }

    open spec fn infallible(&self) -> bool {
        self.first().infallible() && self.second().infallible()
    }

    open spec fn fails_next(&self) -> bool {
        let ea = self.first().entries();
        let eb = self.second().entries();
        if ea.len() == 0 {
            self.second().fails_next()
        } else if eb.len() == 0 {
            self.first().fails_next()
        } else if key_lt(ea[0].0, eb[0].0) {
            self.first().fails_next()
        } else if ea[0].0 == eb[0].0 {
            self.first().fails_next() || self.second().fails_next()
        } else {
            self.second().fails_next()
        }
    }

    proof fn lemma_valid_can_advance(&self) {
    }

    fn key(&self) -> (k: &[u8]) {
        proof {
            lemma_key_order();
        }
        if self.select_a {
            self.a.key()
        } else {
            self.b.key()
        }
    }

    fn value(&self) -> (v: &[u8]) {
        proof {
            lemma_key_order();
        }
        if self.select_a {
            self.a.value()
        } else {
            self.b.value()
        }
    }

    fn is_valid(&self) -> (b: bool) {
        self.a.is_valid() || self.b.is_valid()
    }

    fn next(&mut self) -> (r: Result<(), StorageError>) {
        proof {
            lemma_key_order();
        }
        if !self.a.is_valid() {
            self.select_a = false;
            proof {
                self.b.lemma_valid_can_advance();
            }
            self.b.next()?;
            return Ok(());
        }
        if !self.b.is_valid() {
            self.select_a = true;
            proof {
                self.a.lemma_valid_can_advance();
            }
            self.a.next()?;
            return Ok(());
        }
        proof {
            self.a.lemma_valid_can_advance();
            self.b.lemma_valid_can_advance();
        }
        if key_less(self.a.key(), self.b.key()) {
            self.a.next()?;
        } else if key_eq(self.a.key(), self.b.key()) {
            self.a.next()?;
            self.b.next()?;
        } else {
            self.b.next()?;
        }
        self.select_a_check();
        Ok(())
    }

    fn num_active_iterators(&self) -> (n: usize) {
        self.a.num_active_iterators() + self.b.num_active_iterators()
    }
}

} // verus!
