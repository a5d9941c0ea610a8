//! The iterator a scan hands out: it hides deleted and repeated keys and
//! stops at the end of the range; and a guard that makes an iterator safe to
//! call after it has failed.
use vstd::prelude::*;
use crate::block::Entry;
use crate::iterators::{advanced, lemma_cons, lemma_sorted_tail, sorted, StorageError, StorageIterator};
use crate::key::{key_eq, key_less, key_lt, lemma_key_order};

verus! {

/// Where a scan ends.
pub enum EndBound {
    /// The scan runs to the last key.
    Unbounded,
    /// The scan ends at this key, which it includes.
    Included(Vec<u8>),
    /// The scan ends before this key.
    Excluded(Vec<u8>),
}

/// `k` lies before the end of the scan.
pub open spec fn within(k: Seq<u8>, bound: EndBound) -> bool {
    match bound {
        EndBound::Unbounded => true,
        EndBound::Included(b) => !key_lt(b@, k),
        EndBound::Excluded(b) => key_lt(k, b@),
    }
}

/// What each end bound admits, in terms of the key order: everything for an
/// unbounded scan; for `Included(b)`, exactly the keys that sort before `b`
/// or equal it; for `Excluded(b)`, exactly the keys that sort before `b`.
pub proof fn lemma_within_bound_keys(k: Seq<u8>, bound: EndBound)
    ensures
        bound is Unbounded ==> within(k, bound),
        bound matches EndBound::Included(b) ==> (within(k, bound) <==> (key_lt(k, b@) || k == b@)),
        bound matches EndBound::Excluded(b) ==> (within(k, bound) <==> key_lt(k, b@)),
{
    lemma_key_order();
}

/// The entries of the inner iterator after one step, and whether the scan
/// may go on there.
pub open spec fn after_next(es: Seq<Entry>, bound: EndBound) -> (Seq<Entry>, bool) {
    let rest = advanced(es);
    (rest, rest.len() > 0 && within(rest[0].0, bound))
}

/// The inner iterator stands on the key just handed out, which must be
/// skipped.
pub open spec fn on_prev(es: Seq<Entry>, prev: Seq<u8>, valid: bool) -> bool {
    valid && es.len() > 0 && es[0].0 == prev
}

/// Where the iterator comes to rest from state `(es, prev, valid)`: it skips
/// the key handed out last, ends when keys go backwards, remembers the key it
/// stops on, and passes over deleted entries (those with an empty value).
pub open spec fn settle(es: Seq<Entry>, prev: Seq<u8>, valid: bool, bound: EndBound) -> (Seq<Entry>, Seq<u8>, bool)
    decreases es.len(), (if on_prev(es, prev, valid) { 0int } else { 1int }),
{
    if on_prev(es, prev, valid) {
        settle(after_next(es, bound).0, prev, after_next(es, bound).1, bound)
    } else if es.len() == 0 {
        (es, prev, valid)
    } else if key_lt(es[0].0, prev) {
        (es, prev, false)
    } else if !valid || es[0].1.len() > 0 {
        (es, es[0].0, valid)
    } else {
        settle(es, es[0].0, valid, bound)
    }
}

pub proof fn lemma_settle_shrinks(es: Seq<Entry>, prev: Seq<u8>, valid: bool, bound: EndBound)
    ensures
        settle(es, prev, valid, bound).0.len() <= es.len(),
    decreases es.len(), (if on_prev(es, prev, valid) { 0int } else { 1int }),
{
    if on_prev(es, prev, valid) {
        lemma_settle_shrinks(after_next(es, bound).0, prev, after_next(es, bound).1, bound);
    } else if es.len() == 0 {
    } else if key_lt(es[0].0, prev) {
    } else if !valid || es[0].1.len() > 0 {
    } else {
        lemma_settle_shrinks(es, es[0].0, valid, bound);
    }
}

/// The entries a scan hands out from state `(es, prev, valid)`.
pub open spec fn lsm_entries(es: Seq<Entry>, prev: Seq<u8>, valid: bool, bound: EndBound) -> Seq<Entry>
    decreases es.len(),
{
    if !valid || es.len() == 0 {
        Seq::empty()
    } else {
        let (rest, v) = after_next(es, bound);
        let s = settle(rest, prev, v, bound);
        proof {
            lemma_settle_shrinks(rest, prev, v, bound);
        }
        seq![es[0]] + lsm_entries(s.0, s.1, s.2, bound)
    }
}

/// The iterator stands on an entry it may hand out: a live entry whose key
/// it has remembered.
pub open spec fn settled(es: Seq<Entry>, prev: Seq<u8>, valid: bool) -> bool {
    valid ==> es.len() > 0 && es[0].1.len() > 0 && prev == es[0].0
}

/// Coming to rest gives a settled state on a key greater than the one
/// remembered before, and keeps the end of the scan.
pub proof fn lemma_settle_props(es: Seq<Entry>, prev: Seq<u8>, valid: bool, bound: EndBound)
    requires
        valid ==> es.len() > 0,
    ensures
        ({
            let (es2, prev2, valid2) = settle(es, prev, valid, bound);
            &&& settled(es2, prev2, valid2)
            &&& valid2 ==> key_lt(prev, es2[0].0)
            &&& valid2 && (valid ==> within(es[0].0, bound)) ==> within(es2[0].0, bound)
        }),
    decreases es.len(), (if on_prev(es, prev, valid) { 0int } else { 1int }),
{
    lemma_key_order();
    let r = settle(es, prev, valid, bound);
    if on_prev(es, prev, valid) {
        let (rest, v) = after_next(es, bound);
        lemma_settle_props(rest, prev, v, bound);
        assert(r == settle(rest, prev, v, bound));
    } else if es.len() == 0 {
    } else if key_lt(es[0].0, prev) {
    } else if !valid || es[0].1.len() > 0 {
        assert(r == (es, es[0].0, valid));
        if valid {
            assert(es[0].0 != prev);
            assert(key_lt(prev, es[0].0));
        }
    } else {
        assert(es[0].0 != prev);
        assert(key_lt(prev, es[0].0));
        lemma_settle_props(es, es[0].0, valid, bound);
        assert(r == settle(es, es[0].0, valid, bound));
    }
}

/// From a settled state, a scan hands out live entries in strictly
/// increasing key order, every one after the first within the end of the
/// scan; the first too when the state's own entry is.
pub proof fn lemma_lsm_entries(es: Seq<Entry>, prev: Seq<u8>, valid: bool, bound: EndBound)
    requires
        settled(es, prev, valid),
    ensures
        sorted(lsm_entries(es, prev, valid, bound)),
        forall|i: int|
            0 <= i < lsm_entries(es, prev, valid, bound).len() ==> (#[trigger] lsm_entries(
                es,
                prev,
                valid,
                bound,
            )[i]).1.len() > 0,
        forall|i: int|
            1 <= i < lsm_entries(es, prev, valid, bound).len() ==> within(
                (#[trigger] lsm_entries(es, prev, valid, bound)[i]).0,
                bound,
            ),
        lsm_entries(es, prev, valid, bound).len() > 0 ==> lsm_entries(es, prev, valid, bound)[0] == es[0],
        forall|x: Entry| #[trigger] lsm_entries(es, prev, valid, bound).contains(x) ==> !key_lt(x.0, es[0].0),
        valid && within(es[0].0, bound) ==> forall|i: int|
            0 <= i < lsm_entries(es, prev, valid, bound).len() ==> within(
                (#[trigger] lsm_entries(es, prev, valid, bound)[i]).0,
                bound,
            ),
    decreases es.len(),
{
    lemma_key_order();
    let out = lsm_entries(es, prev, valid, bound);
    if !valid || es.len() == 0 {
        assert forall|x: Entry| #[trigger] out.contains(x) implies !key_lt(x.0, es[0].0) by {
        }
    } else {
        let (rest, v) = after_next(es, bound);
        let st = settle(rest, prev, v, bound);
        lemma_settle_shrinks(rest, prev, v, bound);
        lemma_settle_props(rest, prev, v, bound);
        lemma_lsm_entries(st.0, st.1, st.2, bound);
        let tail = lsm_entries(st.0, st.1, st.2, bound);
        lemma_cons(es[0], tail);
        assert(out == seq![es[0]] + tail);
        assert forall|x: Entry| #[trigger] tail.contains(x) implies key_lt(es[0].0, x.0) by {
            assert(!key_lt(x.0, st.0[0].0));
        }
        assert forall|i: int| 0 <= i < out.len() implies (#[trigger] out[i]).1.len() > 0 by {
            if i > 0 {
                assert(out[i] == tail[i - 1]);
            }
        }
        assert forall|i: int| 1 <= i < out.len() implies within((#[trigger] out[i]).0, bound) by {
            assert(out[i] == tail[i - 1]);
            if i == 1 {
                assert(st.2 ==> within(st.0[0].0, bound));
            }
        }
        assert forall|x: Entry| #[trigger] out.contains(x) implies !key_lt(x.0, es[0].0) by {
            if x != es[0] {
                assert(tail.contains(x));
            }
        }
    }
}

/// The live entries of `es` (those with a non-empty value), in order, up to
/// the first key past the end of the scan.
pub open spec fn live(es: Seq<Entry>, bound: EndBound) -> Seq<Entry>
    decreases es.len(),
{
    if es.len() == 0 || !within(es[0].0, bound) {
        Seq::empty()
    } else if es[0].1.len() == 0 {
        live(es.drop_first(), bound)
    } else {
        seq![es[0]] + live(es.drop_first(), bound)
    }
}

proof fn lemma_settle_sorted(es: Seq<Entry>, prev: Seq<u8>, bound: EndBound)
    requires
        sorted(es),
        forall|i: int| 0 <= i < es.len() ==> key_lt(prev, #[trigger] es[i].0),
    ensures
        ({
            let v = es.len() > 0 && within(es[0].0, bound);
            let st = settle(es, prev, v, bound);
            lsm_entries(st.0, st.1, st.2, bound) == live(es, bound)
        }),
    decreases es.len(),
{
    lemma_key_order();
    let v = es.len() > 0 && within(es[0].0, bound);
    if es.len() == 0 {
    } else {
        assert(key_lt(prev, es[0].0));
        assert(!on_prev(es, prev, v));
        assert(!key_lt(es[0].0, prev));
        if !within(es[0].0, bound) {
        } else {
            lemma_sorted_tail(es);
            let rest = es.drop_first();
            let k = es[0].0;
            assert forall|i: int| 0 <= i < rest.len() implies key_lt(k, #[trigger] rest[i].0) by {
                assert(rest.contains(rest[i]));
            }
            lemma_settle_sorted(rest, k, bound);
            let (r, w) = after_next(es, bound);
            assert(r == rest);
            assert(w == (rest.len() > 0 && within(rest[0].0, bound)));
            if es[0].1.len() == 0 {
                assert(settle(es, prev, v, bound) == settle(es, k, true, bound));
                assert(on_prev(es, k, true));
                assert(settle(es, k, true, bound) == settle(rest, k, w, bound));
            } else {
                assert(settle(es, prev, v, bound) == (es, k, true));
                let st = settle(rest, k, w, bound);
                lemma_settle_shrinks(rest, k, w, bound);
                assert(lsm_entries(es, k, true, bound) == seq![es[0]] + lsm_entries(st.0, st.1, st.2, bound));
            }
        }
    }
}

/// Over sorted entries, once the current entry is handed out, a scan hands
/// out exactly the live entries that follow, up to the end of the scan.
pub proof fn lemma_scan_sorted(es: Seq<Entry>, bound: EndBound)
    requires
        sorted(es),
        es.len() > 0,
    ensures
        lsm_entries(es, es[0].0, true, bound) == seq![es[0]] + live(es.drop_first(), bound),
{
    lemma_key_order();
    lemma_sorted_tail(es);
    let rest = es.drop_first();
    let k = es[0].0;
    assert forall|i: int| 0 <= i < rest.len() implies key_lt(k, #[trigger] rest[i].0) by {
        assert(rest.contains(rest[i]));
    }
    lemma_settle_sorted(rest, k, bound);
    let (r, w) = after_next(es, bound);
    assert(r == rest);
    lemma_settle_shrinks(rest, k, w, bound);
}

/// Keys past the end of the scan stay past it as they grow.
pub proof fn lemma_within_monotone(k1: Seq<u8>, k2: Seq<u8>, bound: EndBound)
    requires
        !within(k1, bound),
        key_lt(k1, k2),
    ensures
        !within(k2, bound),
{
    lemma_key_order();
}

/// Over sorted entries, a new scan hands out exactly the live entries up to
/// the end of the scan, passing over a first entry with an empty key.
pub proof fn lemma_new_scan_sorted(es: Seq<Entry>, bound: EndBound)
    requires
        sorted(es),
        es.len() > 0,
    ensures
        ({
            let st = settle(es, Seq::empty(), within(es[0].0, bound), bound);
            lsm_entries(st.0, st.1, st.2, bound) == if es[0].0.len() > 0 {
                live(es, bound)
            } else {
                live(es.drop_first(), bound)
            }
        }),
{
    lemma_key_order();
    lemma_sorted_tail(es);
    let rest = es.drop_first();
    let k = es[0].0;
    assert forall|i: int| 0 <= i < rest.len() implies key_lt(k, #[trigger] rest[i].0) by {
        assert(rest.contains(rest[i]));
    }
    lemma_settle_sorted(rest, k, bound);
    let (r, w) = after_next(es, bound);
    assert(r == rest);
    let empty = Seq::<u8>::empty();
    if !within(k, bound) {
        assert(!on_prev(es, empty, false));
        if k.len() > 0 {
            assert(!key_lt(k, empty));
        } else {
            assert(k =~= empty);
            if rest.len() > 0 {
                lemma_within_monotone(k, rest[0].0, bound);
            }
        }
    } else if k.len() == 0 {
        assert(k =~= empty);
        assert(on_prev(es, empty, true));
        assert(settle(es, empty, true, bound) == settle(rest, k, w, bound));
    } else {
        assert(key_lt(empty, k));
        assert(!key_lt(k, empty));
        assert(!on_prev(es, empty, true));
        if es[0].1.len() == 0 {
            assert(settle(es, empty, true, bound) == settle(es, k, true, bound));
            assert(settle(es, k, true, bound) == settle(rest, k, w, bound));
        } else {
            assert(settle(es, empty, true, bound) == (es, k, true));
            lemma_scan_sorted(es, bound);
        }
    }
}

/// Tells whether `key` lies before the end of the scan.
fn within_bound(bound: &EndBound, key: &[u8]) -> (r: bool)
    ensures
        r == within(key@, *bound),
{
    match bound {
        EndBound::Unbounded => true,
        EndBound::Included(end) => !key_less(end.as_slice(), key),
        EndBound::Excluded(end) => key_less(key, end.as_slice()),
    }
}

pub struct LsmIterator<I: StorageIterator> {
    inner: I,
    end_bound: EndBound,
    valid: bool,
    prev_key: Vec<u8>,
}

impl<I: StorageIterator> LsmIterator<I> {
    /// The inner iterator.
    pub closed spec fn inner_view(&self) -> I {
        self.inner
    }

    /// Where the scan ends.
    pub closed spec fn bound_view(&self) -> EndBound {
        self.end_bound
    }

    /// Over a sorted inner iterator, a valid scan hands out its current entry
    /// and then exactly the live entries that follow, up to the end of the
    /// scan.
    pub proof fn lemma_scan_is_live(&self)
        requires
            self.wf(),
            sorted(self.inner_view().entries()),
            self.entries().len() > 0,
        ensures
            self.entries() == seq![self.inner_view().entries()[0]] + live(
                self.inner_view().entries().drop_first(),
                self.bound_view(),
            ),
    {
        lemma_scan_sorted(self.inner.entries(), self.end_bound);
    }

    /// A scan hands out live entries (non-empty values) in strictly
    /// increasing key order, every one within the end of the scan.
    pub proof fn lemma_scan_output(&self)
        requires
            self.wf(),
        ensures
            sorted(self.entries()),
            forall|i: int| 0 <= i < self.entries().len() ==> (#[trigger] self.entries()[i]).1.len() > 0,
            forall|i: int| 0 <= i < self.entries().len() ==> within((#[trigger] self.entries()[i]).0, self.bound_view()),
            self.bound_view() matches EndBound::Included(b) ==> forall|i: int|
                0 <= i < self.entries().len() ==> key_lt((#[trigger] self.entries()[i]).0, b@)
                    || self.entries()[i].0 == b@,
            self.bound_view() matches EndBound::Excluded(b) ==> forall|i: int|
                0 <= i < self.entries().len() ==> key_lt((#[trigger] self.entries()[i]).0, b@),
    {
        lemma_lsm_entries(self.inner.entries(), self.prev_key@, self.valid, self.end_bound);
        assert forall|i: int| 0 <= i < self.entries().len() implies within(
            (#[trigger] self.entries()[i]).0,
            self.bound_view(),
        ) && (self.bound_view() matches EndBound::Included(b) ==> key_lt(self.entries()[i].0, b@)
            || self.entries()[i].0 == b@) && (self.bound_view() matches EndBound::Excluded(b) ==> key_lt(
            self.entries()[i].0,
            b@,
        )) by {
            lemma_within_bound_keys(self.entries()[i].0, self.bound_view());
        }
    }

    spec fn state_wf(&self) -> bool {
        &&& self.inner.wf()
        &&& self.valid ==> self.inner.entries().len() > 0
        &&& self.valid ==> within(self.inner.entries()[0].0, self.end_bound)
    }

    pub fn new(iter: I, end_bound: EndBound) -> (r: Result<Self, StorageError>)
        requires
            iter.wf(),
        ensures
            r matches Ok(it) ==> it.wf() && it.entries() == ({
                let s = settle(
                    iter.entries(),
                    Seq::empty(),
                    iter.entries().len() > 0 && within(iter.entries()[0].0, end_bound),
                    end_bound,
                );
                lsm_entries(s.0, s.1, s.2, end_bound)
            }),
            iter.infallible() ==> (r matches Ok(it) && it.infallible()),
    {
        let ghost b = end_bound;
        let valid = iter.is_valid() && within_bound(&end_bound, iter.key());
        let mut iter = Self { valid, inner: iter, end_bound, prev_key: Vec::new() };
        assert(iter.prev_key@ =~= Seq::<u8>::empty());
        iter.ensure_valid()?;
        Ok(iter)
    }

    fn go_to_next(&mut self) -> (r: Result<(), StorageError>)
        requires
            old(self).state_wf(),
            old(self).valid,
        ensures
            final(self).end_bound == old(self).end_bound,
            final(self).prev_key == old(self).prev_key,
            r is Ok ==> final(self).state_wf() && (final(self).inner.entries(), final(self).valid)
                == after_next(old(self).inner.entries(), old(self).end_bound),
            old(self).inner.infallible() ==> r is Ok && final(self).inner.infallible(),
            old(self).inner.fails_next() ==> r is Err,
    {
        proof {
            self.inner.lemma_valid_can_advance();
        }
        self.inner.next()?;
        if !self.inner.is_valid() {
            self.valid = false;
            return Ok(());
        }
        match &self.end_bound {
            EndBound::Unbounded => {},
            EndBound::Included(key) => {
                self.valid = !key_less(key.as_slice(), self.inner.key());
            },
            EndBound::Excluded(key) => {
                self.valid = key_less(self.inner.key(), key.as_slice());
            },
        }
        Ok(())
    }

    fn ensure_valid(&mut self) -> (r: Result<(), StorageError>)
        requires
            old(self).state_wf(),
        ensures
            final(self).end_bound == old(self).end_bound,
            r is Ok ==> final(self).state_wf() && settled(
                final(self).inner.entries(),
                final(self).prev_key@,
                final(self).valid,
            ) && (
                final(self).inner.entries(),
                final(self).prev_key@,
                final(self).valid,
            ) == settle(
                old(self).inner.entries(),
                old(self).prev_key@,
                old(self).valid,
                old(self).end_bound,
            ),
            old(self).inner.infallible() ==> r is Ok && final(self).inner.infallible(),
    {
        let ghost bound = self.end_bound;
        let ghost goal = settle(self.inner.entries(), self.prev_key@, self.valid, bound);
        proof {
            lemma_settle_props(self.inner.entries(), self.prev_key@, self.valid, bound);
        }
        loop
            invariant
                self.state_wf(),
                self.end_bound == bound,
                bound == old(self).end_bound,
                goal == settle(old(self).inner.entries(), old(self).prev_key@, old(self).valid, bound),
                settle(self.inner.entries(), self.prev_key@, self.valid, bound) == goal,
                settled(goal.0, goal.1, goal.2),
                old(self).inner.infallible() ==> self.inner.infallible(),
            decreases 2 * self.inner.entries().len() + (if on_prev(
                self.inner.entries(),
                self.prev_key@,
                self.valid,
            ) {
                0int
            } else {
                1int
            }),
        {
            let ghost start_len = self.inner.entries().len();
            let ghost start_on = on_prev(self.inner.entries(), self.prev_key@, self.valid);
            while self.valid && key_eq(self.inner.key(), self.prev_key.as_slice())
                invariant
                    self.state_wf(),
                    self.end_bound == bound,
                    bound == old(self).end_bound,
                    settle(self.inner.entries(), self.prev_key@, self.valid, bound) == goal,
                    settled(goal.0, goal.1, goal.2),
                    old(self).inner.infallible() ==> self.inner.infallible(),
                    self.inner.entries().len() <= start_len,
                    start_on ==> self.inner.entries().len() < start_len || on_prev(
                        self.inner.entries(),
                        self.prev_key@,
                        self.valid,
                    ),
                decreases self.inner.entries().len(),
            {
                self.go_to_next()?;
            }
            if !self.inner.is_valid() {
                return Ok(());
            }
            if key_less(self.inner.key(), self.prev_key.as_slice()) {
                self.valid = false;
                return Ok(());
            }
            self.prev_key = vstd::slice::slice_to_vec(self.inner.key());
            if !self.inner.is_valid() {
                return Ok(());
            }
            if !self.valid {
                return Ok(());
            }
            if !self.inner.value().is_empty() {
                return Ok(());
            }
            if !key_eq(self.inner.key(), self.prev_key.as_slice()) {
                continue;
            }
            if !self.inner.value().is_empty() {
                return Ok(());
            }
        }
    }
}

impl<I: StorageIterator> StorageIterator for LsmIterator<I> {
    closed spec fn wf(&self) -> bool {
        self.state_wf() && settled(self.inner.entries(), self.prev_key@, self.valid)
    }

    closed spec fn entries(&self) -> Seq<Entry> {
        lsm_entries(self.inner.entries(), self.prev_key@, self.valid, self.end_bound)
    }

    closed spec fn can_advance(&self) -> bool {
        self.valid
    }

    closed spec fn active_count(&self) -> nat {
        1
    }

    open spec fn infallible(&self) -> bool {
        self.inner_view().infallible()
    }

    open spec fn fails_next(&self) -> bool {
        self.inner_view().fails_next()
    }

    proof fn lemma_valid_can_advance(&self) {
    }

    fn is_valid(&self) -> (b: bool) {
        self.valid
    }

    fn key(&self) -> (k: &[u8]) {
        self.inner.key()
    }

    /// A scan never hands out a deleted entry: the value is never empty.
    fn value(&self) -> (v: &[u8])
        ensures
            v@.len() > 0,
    {
        proof {
            self.lemma_scan_output();
            assert(self.entries().contains(self.entries()[0]));
        }
        self.inner.value()
    }

    fn next(&mut self) -> (r: Result<(), StorageError>) {
        proof {
            let (rest, v) = after_next(self.inner.entries(), self.end_bound);
            lemma_settle_shrinks(rest, self.prev_key@, v, self.end_bound);
        }
        self.go_to_next()?;
        self.ensure_valid()?;
        Ok(())
    }

    fn num_active_iterators(&self) -> (n: usize) {
        1
    }
}

/// A wrapper around existing iterator, will prevent users from calling `next` when the iterator is
/// invalid. If an iterator is already invalid, `next` does not do anything. If `next` returns an error,
/// `is_valid` should return false, and `next` should always return an error.
pub struct FusedIterator<I: StorageIterator> {
    iter: I,
    has_errored: bool,
}

impl<I: StorageIterator> FusedIterator<I> {
    /// An earlier `next` failed.
    pub closed spec fn errored(&self) -> bool {
        self.has_errored
    }

    /// The wrapped iterator.
    pub closed spec fn inner_view(&self) -> I {
        self.iter
    }

    pub fn new(iter: I) -> (it: Self)
        requires
            iter.wf(),
        ensures
            it.wf(),
            !it.errored(),
            it.inner_view() == iter,
            it.entries() == iter.entries(),
            it.infallible() == iter.infallible(),
    {
        Self { iter, has_errored: false }
    }
}

impl<I: StorageIterator> StorageIterator for FusedIterator<I> {
    open spec fn wf(&self) -> bool {
        self.errored() || self.inner_view().wf()
    }

    open spec fn entries(&self) -> Seq<Entry> {
        if self.errored() {
            Seq::empty()
        } else {
            self.inner_view().entries()
        }
    }

    open spec fn can_advance(&self) -> bool {
        true
    }

    open spec fn active_count(&self) -> nat {
        1
    }

    open spec fn infallible(&self) -> bool {
        !self.errored() && self.inner_view().infallible()
    }

    open spec fn fails_next(&self) -> bool {
        self.errored() || (self.inner_view().entries().len() > 0 && self.inner_view().fails_next())
    }

    proof fn lemma_valid_can_advance(&self) {
    }

    fn is_valid(&self) -> (b: bool) {
        !self.has_errored && self.iter.is_valid()
    }

    fn key(&self) -> (k: &[u8]) {
        self.iter.key()
    }

    fn value(&self) -> (v: &[u8]) {
        self.iter.value()
    }

    fn next(&mut self) -> (r: Result<(), StorageError>)
        ensures
            old(self).errored() ==> r is Err,
            r is Err ==> final(self).errored() && final(self).wf() && final(self).entries().len() == 0,
            r is Ok ==> !final(self).errored(),
            !old(self).errored() && old(self).entries().len() == 0 ==> r is Ok && *final(self) == *old(self),
    {
        if self.has_errored {
            return Err(StorageError::InvalidIterator);
        }
        if self.iter.is_valid() {
            proof {
                self.iter.lemma_valid_can_advance();
            }
            if let Err(e) = self.iter.next() {
                self.has_errored = true;
                return Err(e);
            }
        }
        Ok(())
    }

    fn num_active_iterators(&self) -> (n: usize) {
        1
    }
}

} // verus!
