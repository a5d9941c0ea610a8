//! Merges any number of iterators of one type, preferring the one with the
//! smaller index on equal keys.
use vstd::prelude::*;
use crate::block::Entry;
use crate::iterators::{has_key, lemma_cons, lemma_sorted_tail, sorted, StorageError, StorageIterator};
use crate::key::{key_eq, key_less, key_lt, lemma_key_order};

verus! {

/// `(ka, ia)` comes before `(kb, ib)`: by key, then by index.
pub open spec fn precedes(ka: Seq<u8>, ia: int, kb: Seq<u8>, ib: int) -> bool {
    key_lt(ka, kb) || (ka == kb && ia < ib)
}

/// The number of entries over all the sequences.
pub open spec fn total_len(f: Seq<Seq<Entry>>) -> nat
    decreases f.len(),
{
    if f.len() == 0 {
        0
    } else {
        total_len(f.drop_last()) + f.last().len()
    }
}

/// Among the first `n` sequences, the index of the non-empty one whose first
/// key is least, the smaller index winning ties; `-1` when all are empty.
pub open spec fn min_index(f: Seq<Seq<Entry>>, n: int) -> int
    decreases n,
{
    if n <= 0 {
        -1
    } else {
        let r = min_index(f, n - 1);
        if f[n - 1].len() == 0 {
            r
        } else if r == -1 {
            n - 1
        } else if key_lt(f[n - 1][0].0, f[r][0].0) {
            n - 1
        } else {
            r
        }
    }
}

/// The least sequence overall.
pub open spec fn least(f: Seq<Seq<Entry>>) -> int {
    min_index(f, f.len() as int)
}

/// Drops entries with key `k` from the front of the least sequence for as
/// long as the least sequence starts with `k`.
pub open spec fn skip_key(g: Seq<Seq<Entry>>, k: Seq<u8>) -> Seq<Seq<Entry>>
    decreases total_len(g),
{
    let j = least(g);
    if j < 0 || g[j][0].0 != k {
        g
    } else {
        proof {
            lemma_min_index(g, g.len() as int);
            lemma_total_len_update(g, j, g[j].drop_first());
        }
        skip_key(g.update(j, g[j].drop_first()), k)
    }
}

/// One step of the merge: the least sequence `m` gives up its first entry,
/// after the others have skipped past its key.
pub open spec fn merge_step(f: Seq<Seq<Entry>>) -> Seq<Seq<Entry>> {
    let m = least(f);
    skip_key(f.update(m, Seq::empty()), f[m][0].0).update(m, f[m].drop_first())
}

/// The entries that merging `f` yields.
pub open spec fn merge_entries(f: Seq<Seq<Entry>>) -> Seq<Entry>
    decreases total_len(f),
{
    let m = least(f);
    if m < 0 {
        Seq::empty()
    } else {
        proof {
            lemma_merge_step_shrinks(f);
        }
        seq![f[m][0]] + merge_entries(merge_step(f))
    }
}

pub proof fn lemma_total_len_update(f: Seq<Seq<Entry>>, i: int, x: Seq<Entry>)
    requires
        0 <= i < f.len(),
    ensures
        total_len(f.update(i, x)) == total_len(f) - f[i].len() + x.len(),
    decreases f.len(),
{
    let g = f.update(i, x);
    if i < f.len() - 1 {
        assert(g.drop_last() =~= f.drop_last().update(i, x));
        lemma_total_len_update(f.drop_last(), i, x);
    } else {
        assert(g.drop_last() =~= f.drop_last());
    }
}

/// `precedes` orders distinct (key, index) pairs totally.
pub proof fn lemma_precedes_order()
    ensures
        forall|ka: Seq<u8>, ia: int| !#[trigger] precedes(ka, ia, ka, ia),
        forall|ka: Seq<u8>, ia: int, kb: Seq<u8>, ib: int|
            #[trigger] precedes(ka, ia, kb, ib) ==> !precedes(kb, ib, ka, ia),
        forall|ka: Seq<u8>, ia: int, kb: Seq<u8>, ib: int|
            ia != ib ==> #[trigger] precedes(ka, ia, kb, ib) || #[trigger] precedes(kb, ib, ka, ia),
        forall|ka: Seq<u8>, ia: int, kb: Seq<u8>, ib: int, kc: Seq<u8>, ic: int|
            #[trigger] precedes(ka, ia, kb, ib) && #[trigger] precedes(kb, ib, kc, ic) ==> precedes(
                ka,
                ia,
                kc,
                ic,
            ),
{
    lemma_key_order();
}

/// `min_index` picks the non-empty sequence that nothing precedes.
pub proof fn lemma_min_index(f: Seq<Seq<Entry>>, n: int)
    requires
        0 <= n <= f.len(),
    ensures
        -1 <= min_index(f, n) < n,
        (min_index(f, n) == -1) <==> (forall|i: int| 0 <= i < n ==> #[trigger] f[i].len() == 0),
        min_index(f, n) >= 0 ==> f[min_index(f, n)].len() > 0,
        min_index(f, n) >= 0 ==> forall|i: int|
            0 <= i < n && #[trigger] f[i].len() > 0 ==> !precedes(
                f[i][0].0,
                i,
                f[min_index(f, n)][0].0,
                min_index(f, n),
            ),
    decreases n,
{
    lemma_key_order();
    if n > 0 {
        lemma_min_index(f, n - 1);
    }
}

/// A non-empty sequence that nothing precedes is the one `min_index` picks.
pub proof fn lemma_min_index_unique(f: Seq<Seq<Entry>>, n: int, r: int)
    requires
        0 <= r < n <= f.len(),
        f[r].len() > 0,
        forall|i: int| 0 <= i < n && i != r && #[trigger] f[i].len() > 0 ==> !precedes(f[i][0].0, i, f[r][0].0, r),
    ensures
        min_index(f, n) == r,
{
    lemma_min_index(f, n);
    lemma_precedes_order();
    let m = min_index(f, n);
    if m != r {
        assert(f[m].len() > 0);
        assert(!precedes(f[r][0].0, r, f[m][0].0, m));
        assert(precedes(f[r][0].0, r, f[m][0].0, m) || precedes(f[m][0].0, m, f[r][0].0, r));
    }
}

/// Skipping keeps the number of sequences, keeps empty ones empty, and
/// never adds entries.
pub proof fn lemma_skip_key(g: Seq<Seq<Entry>>, k: Seq<u8>)
    ensures
        skip_key(g, k).len() == g.len(),
        total_len(skip_key(g, k)) <= total_len(g),
        forall|i: int| 0 <= i < g.len() && #[trigger] g[i].len() == 0 ==> skip_key(g, k)[i].len() == 0,
    decreases total_len(g),
{
    let j = least(g);
    lemma_min_index(g, g.len() as int);
    if j >= 0 && g[j][0].0 == k {
        let h = g.update(j, g[j].drop_first());
        lemma_total_len_update(g, j, g[j].drop_first());
        lemma_skip_key(h, k);
        assert forall|i: int| 0 <= i < g.len() && #[trigger] g[i].len() == 0 implies skip_key(g, k)[i].len()
            == 0 by {
            assert(h[i].len() == 0);
        }
    }
}

pub proof fn lemma_merge_step_shrinks(f: Seq<Seq<Entry>>)
    requires
        least(f) >= 0,
    ensures
        merge_step(f).len() == f.len(),
        total_len(merge_step(f)) < total_len(f),
{
    let m = least(f);
    lemma_min_index(f, f.len() as int);
    let g = f.update(m, Seq::empty());
    lemma_total_len_update(f, m, Seq::empty());
    lemma_skip_key(g, f[m][0].0);
    let s = skip_key(g, f[m][0].0);
    assert(g[m].len() == 0);
    lemma_total_len_update(s, m, f[m].drop_first());
}

/// Merging yields an entry exactly when some sequence is non-empty, and the
/// first entry is that of the least sequence.
pub proof fn lemma_merge_entries_unfold(f: Seq<Seq<Entry>>)
    ensures
        least(f) < 0 ==> merge_entries(f) == Seq::<Entry>::empty(),
        least(f) >= 0 ==> merge_entries(f) == seq![f[least(f)][0]] + merge_entries(merge_step(f)),
{
}

/// Every sequence is sorted.
pub open spec fn all_sorted(f: Seq<Seq<Entry>>) -> bool {
    forall|i: int| 0 <= i < f.len() ==> sorted(#[trigger] f[i])
}

/// No sequence starts with a key less than `k`.
pub open spec fn heads_at_least(f: Seq<Seq<Entry>>, k: Seq<u8>) -> bool {
    forall|i: int| 0 <= i < f.len() && (#[trigger] f[i]).len() > 0 ==> !key_lt(f[i][0].0, k)
}

/// Every sequence that starts with key `k` gives up its first entry.
pub open spec fn drop_heads(f: Seq<Seq<Entry>>, k: Seq<u8>) -> Seq<Seq<Entry>> {
    Seq::new(
        f.len(),
        |j: int|
            if f[j].len() > 0 && f[j][0].0 == k {
                f[j].drop_first()
            } else {
                f[j]
            },
    )
}

/// `x` is in some sequence, and no earlier sequence holds its key.
pub open spec fn first_holder(f: Seq<Seq<Entry>>, x: Entry) -> bool {
    exists|i: int|
        0 <= i < f.len() && (#[trigger] f[i]).contains(x) && forall|j: int|
            0 <= j < i ==> !has_key(#[trigger] f[j], x.0)
}

proof fn lemma_drop_heads(f: Seq<Seq<Entry>>, k: Seq<u8>)
    requires
        all_sorted(f),
        heads_at_least(f, k),
    ensures
        all_sorted(drop_heads(f, k)),
        drop_heads(f, k).len() == f.len(),
        forall|i: int, x: Entry|
            0 <= i < f.len() ==> (#[trigger] drop_heads(f, k)[i].contains(x) <==> (f[i].contains(x) && x.0
                != k)),
        forall|i: int, k2: Seq<u8>|
            0 <= i < f.len() ==> (#[trigger] has_key(drop_heads(f, k)[i], k2) <==> (has_key(f[i], k2) && k2
                != k)),
        forall|i: int, x: Entry| 0 <= i < f.len() && #[trigger] drop_heads(f, k)[i].contains(x) ==> key_lt(k, x.0),
        forall|i: int, x: Entry| 0 <= i < f.len() && #[trigger] f[i].contains(x) && x.0 == k ==> x == f[i][0],
{
    lemma_key_order();
    let d = drop_heads(f, k);
    assert forall|i: int| 0 <= i < f.len() implies {
        &&& sorted(#[trigger] d[i])
        &&& forall|x: Entry| #[trigger] d[i].contains(x) <==> (f[i].contains(x) && x.0 != k)
        &&& forall|k2: Seq<u8>| #[trigger] has_key(d[i], k2) <==> (has_key(f[i], k2) && k2 != k)
        &&& forall|x: Entry| #[trigger] d[i].contains(x) ==> key_lt(k, x.0)
        &&& forall|x: Entry| #[trigger] f[i].contains(x) && x.0 == k ==> x == f[i][0]
    } by {
        let s = f[i];
        assert(sorted(s));
        if s.len() > 0 {
            lemma_sorted_tail(s);
            assert(!key_lt(s[0].0, k));
            assert forall|x: Entry| #[trigger] s.contains(x) && x.0 == k implies x == s[0] by {
                if x != s[0] {
                    assert(s.drop_first().contains(x));
                }
            }
            if s[0].0 == k {
                assert(d[i] == s.drop_first());
            } else {
                assert(d[i] == s);
                assert(key_lt(k, s[0].0));
                assert forall|x: Entry| #[trigger] s.contains(x) implies key_lt(k, x.0) by {
                    assert(!key_lt(x.0, s[0].0));
                }
                assert forall|k2: Seq<u8>| #[trigger] has_key(s, k2) implies k2 != k by {
                    let j = choose|j: int| 0 <= j < s.len() && (#[trigger] s[j]).0 == k2;
                    assert(s.contains(s[j]));
                }
            }
        } else {
            assert(d[i] == s);
            assert forall|k2: Seq<u8>| !#[trigger] has_key(s, k2) by {
            }
            assert forall|x: Entry| !#[trigger] s.contains(x) by {
            }
        }
    }
}

/// With sorted sequences whose first keys are all at least `k`, skipping
/// `k` drops exactly the first entries that carry `k`.
proof fn lemma_skip_sorted(g: Seq<Seq<Entry>>, k: Seq<u8>)
    requires
        all_sorted(g),
        heads_at_least(g, k),
    ensures
        skip_key(g, k) == drop_heads(g, k),
    decreases total_len(g),
{
    lemma_key_order();
    lemma_precedes_order();
    let j = least(g);
    lemma_min_index(g, g.len() as int);
    if j < 0 {
        assert(drop_heads(g, k) =~= g);
    } else if g[j][0].0 != k {
        assert forall|i: int| 0 <= i < g.len() && (#[trigger] g[i]).len() > 0 implies g[i][0].0 != k by {
            if g[i][0].0 == k {
                assert(key_lt(k, g[j][0].0));
                assert(precedes(g[i][0].0, i, g[j][0].0, j));
            }
        }
        assert(drop_heads(g, k) =~= g);
    } else {
        let h = g.update(j, g[j].drop_first());
        lemma_total_len_update(g, j, g[j].drop_first());
        lemma_sorted_tail(g[j]);
        assert(all_sorted(h)) by {
            assert forall|i: int| 0 <= i < h.len() implies sorted(#[trigger] h[i]) by {
                assert(sorted(g[i]));
            }
        }
        assert(heads_at_least(h, k)) by {
            assert forall|i: int| 0 <= i < h.len() && (#[trigger] h[i]).len() > 0 implies !key_lt(h[i][0].0, k) by {
                if i == j {
                    assert(g[j].drop_first().contains(h[i][0]));
                }
            }
        }
        lemma_skip_sorted(h, k);
        assert forall|i: int| 0 <= i < g.len() implies #[trigger] drop_heads(h, k)[i] == drop_heads(g, k)[i] by {
            if i == j {
                if h[j].len() > 0 {
                    assert(g[j].drop_first().contains(h[j][0]));
                }
            }
        }
        assert(drop_heads(h, k) =~= drop_heads(g, k));
    }
}

/// With sorted sequences, one merge step drops the first entry of every
/// sequence that starts with the least key.
proof fn lemma_merge_step_sorted(f: Seq<Seq<Entry>>)
    requires
        all_sorted(f),
        least(f) >= 0,
    ensures
        merge_step(f) == drop_heads(f, f[least(f)][0].0),
        heads_at_least(f, f[least(f)][0].0),
{
    lemma_key_order();
    let m = least(f);
    lemma_min_index(f, f.len() as int);
    let k = f[m][0].0;
    let g = f.update(m, Seq::empty());
    assert(all_sorted(g)) by {
        assert forall|i: int| 0 <= i < g.len() implies sorted(#[trigger] g[i]) by {
            assert(sorted(f[i]));
        }
    }
    assert(heads_at_least(f, k)) by {
        assert forall|i: int| 0 <= i < f.len() && (#[trigger] f[i]).len() > 0 implies !key_lt(f[i][0].0, k) by {
            assert(!precedes(f[i][0].0, i, k, m));
        }
    }
    assert(heads_at_least(g, k));
    lemma_skip_sorted(g, k);
    assert(merge_step(f) =~= drop_heads(f, k));
}

/// Merging sorted sequences gives a sorted sequence that holds exactly the
/// entries whose key no earlier sequence holds: on equal keys, the sequence
/// with the smaller index wins.
pub proof fn lemma_merge_sorted(f: Seq<Seq<Entry>>)
    requires
        all_sorted(f),
    ensures
        sorted(merge_entries(f)),
        forall|x: Entry| #[trigger] merge_entries(f).contains(x) <==> first_holder(f, x),
    decreases total_len(f),
{
    lemma_key_order();
    lemma_precedes_order();
    let m = least(f);
    lemma_min_index(f, f.len() as int);
    if m < 0 {
        assert forall|x: Entry| #[trigger] merge_entries(f).contains(x) <==> first_holder(f, x) by {
            if first_holder(f, x) {
                let i = choose|i: int|
                    0 <= i < f.len() && (#[trigger] f[i]).contains(x) && forall|j: int|
                        0 <= j < i ==> !has_key(#[trigger] f[j], x.0);
                assert(f[i].len() == 0);
            }
        }
    } else {
        let h = f[m][0];
        let k = h.0;
        lemma_merge_step_sorted(f);
        lemma_merge_step_shrinks(f);
        let f1 = merge_step(f);
        lemma_drop_heads(f, k);
        lemma_merge_sorted(f1);
        let r = merge_entries(f1);
        lemma_cons(h, r);
        assert(merge_entries(f) == seq![h] + r);
        assert forall|x: Entry| #[trigger] r.contains(x) implies key_lt(k, x.0) by {
            let i = choose|i: int|
                0 <= i < f1.len() && (#[trigger] f1[i]).contains(x) && forall|j: int|
                    0 <= j < i ==> !has_key(#[trigger] f1[j], x.0);
        }
        assert(f[m].contains(h));
        assert forall|j: int| 0 <= j < m implies !has_key(#[trigger] f[j], k) by {
            if has_key(f[j], k) {
                let p = choose|p: int| 0 <= p < f[j].len() && (#[trigger] f[j][p]).0 == k;
                assert(f[j].contains(f[j][p]));
                assert(f[j][p] == f[j][0]);
                assert(precedes(f[j][0].0, j, k, m));
            }
        }
        assert(first_holder(f, h));
        assert forall|x: Entry| #[trigger] merge_entries(f).contains(x) <==> first_holder(f, x) by {
            if x.0 == k {
                if first_holder(f, x) {
                    let i = choose|i: int|
                        0 <= i < f.len() && (#[trigger] f[i]).contains(x) && forall|j: int|
                            0 <= j < i ==> !has_key(#[trigger] f[j], x.0);
                    assert(x == f[i][0]);
                    if i > m {
                        assert(f[m].contains(h));
                        assert(has_key(f[m], k)) by {
                            assert(f[m][0].0 == k);
                        }
                    }
                    if i < m {
                        assert(precedes(f[i][0].0, i, k, m));
                    }
                }
                if r.contains(x) {
                    assert(key_lt(k, x.0));
                }
            } else {
                if first_holder(f, x) {
                    let i = choose|i: int|
                        0 <= i < f.len() && (#[trigger] f[i]).contains(x) && forall|j: int|
                            0 <= j < i ==> !has_key(#[trigger] f[j], x.0);
                    assert(f1[i].contains(x));
                    assert forall|j: int| 0 <= j < i implies !has_key(#[trigger] f1[j], x.0) by {
                        assert(!has_key(f[j], x.0));
                    }
                    assert(first_holder(f1, x));
                }
                if first_holder(f1, x) {
                    let i = choose|i: int|
                        0 <= i < f1.len() && (#[trigger] f1[i]).contains(x) && forall|j: int|
                            0 <= j < i ==> !has_key(#[trigger] f1[j], x.0);
                    assert(f[i].contains(x));
                    assert forall|j: int| 0 <= j < i implies !has_key(#[trigger] f[j], x.0) by {
                        assert(!has_key(f1[j], x.0));
                    }
                    assert(first_holder(f, x));
                }
            }
        }
    }
}

struct HeapWrapper<I: StorageIterator>(pub usize, pub Box<I>);

/// `x` is an iterator whose current key is `k` and whose next step fails.
pub open spec fn fails_at<I: StorageIterator>(x: Option<I>, k: Seq<u8>) -> bool {
    match x {
        Some(it) => it.entries().len() > 0 && it.entries()[0].0 == k && it.fails_next(),
        None => false,
    }
}

spec fn source_of<I: StorageIterator>(s: Option<HeapWrapper<I>>) -> Option<I> {
    match s {
        Some(w) => Some(*w.1),
        None => None,
    }
}

/// Some waiting iterator stands at key `k` and fails on its next step.
spec fn pending<I: StorageIterator>(heap: Seq<Option<HeapWrapper<I>>>, k: Seq<u8>) -> bool {
    exists|i: int| 0 <= i < heap.len() && #[trigger] fails_at(source_of(heap[i]), k)
}

spec fn slot_entries<I: StorageIterator>(s: Option<HeapWrapper<I>>) -> Seq<Entry> {
    match s {
        Some(w) => w.1.entries(),
        None => Seq::empty(),
    }
}

spec fn slots_of<I: StorageIterator>(heap: Seq<Option<HeapWrapper<I>>>) -> Seq<Seq<Entry>> {
    Seq::new(heap.len(), |i: int| slot_entries(heap[i]))
}

/// Every occupied slot holds a well-formed, valid iterator that knows its slot.
spec fn slots_wf<I: StorageIterator>(heap: Seq<Option<HeapWrapper<I>>>) -> bool {
    forall|i: int|
        0 <= i < heap.len() ==> match #[trigger] heap[i] {
            Some(w) => w.0 == i && w.1.wf() && w.1.entries().len() > 0,
            None => true,
        }
}

/// No waiting iterator can fail.
spec fn slots_infallible<I: StorageIterator>(heap: Seq<Option<HeapWrapper<I>>>) -> bool {
    forall|i: int|
        0 <= i < heap.len() ==> match #[trigger] heap[i] {
            Some(w) => w.1.infallible(),
            None => true,
        }
}

/// Finds the waiting iterator whose (key, index) is least.
fn heap_min<I: StorageIterator>(heap: &Vec<Option<HeapWrapper<I>>>) -> (r: Option<usize>)
    requires
        slots_wf(heap@),
    ensures
        match r {
            Some(j) => least(slots_of(heap@)) == j && j < heap@.len() && heap@[j as int] is Some,
            None => least(slots_of(heap@)) == -1 && forall|i: int|
                0 <= i < heap@.len() ==> #[trigger] heap@[i] is None,
        },
{
    let ghost s = slots_of(heap@);
    let mut best: Option<usize> = None;
    let mut i: usize = 0;
    while i < heap.len()
        invariant
            i <= heap@.len(),
            s == slots_of(heap@),
            slots_wf(heap@),
            match best {
                Some(b) => min_index(s, i as int) == b && b < i,
                None => min_index(s, i as int) == -1,
            },
        decreases heap@.len() - i,
    {
        proof {
            lemma_min_index(s, i as int);
        }
        match &heap[i] {
            Some(w) => {
                match best {
                    None => {
                        best = Some(i);
                    },
                    Some(b) => {
                        let wb = heap[b].as_ref().unwrap();
                        if key_less(w.1.key(), wb.1.key()) {
                            best = Some(i);
                        }
                    },
                }
            },
            None => {},
        }
        i = i + 1;
    }
    proof {
        lemma_min_index(s, heap@.len() as int);
        assert forall|i: int| 0 <= i < heap@.len() && #[trigger] heap@[i] is Some implies s[i].len() > 0 by {
        }
    }
    best
}

/// Merge multiple iterators of the same type. If the same key occurs multiple times in some
/// iterators, prefer the one with smaller index.
pub struct MergeIterator<I: StorageIterator> {
    iters: Vec<Option<HeapWrapper<I>>>,
    current: Option<HeapWrapper<I>>,
}

impl<I: StorageIterator> MergeIterator<I> {
    spec fn slots(&self) -> Seq<Seq<Entry>> {
        slots_of(self.iters@)
    }

    /// The entries still to come from each underlying iterator, by index;
    /// empty for those that are exhausted.
    pub closed spec fn frontier(&self) -> Seq<Seq<Entry>> {
        match self.current {
            Some(w) => self.slots().update(w.0 as int, w.1.entries()),
            None => self.slots(),
        }
    }

    /// The underlying iterators by index, `None` for those that are
    /// exhausted.
    pub closed spec fn sources(&self) -> Seq<Option<I>> {
        let waiting = Seq::new(self.iters@.len(), |i: int| source_of(self.iters@[i]));
        match self.current {
            Some(w) => waiting.update(w.0 as int, Some(*w.1)),
            None => waiting,
        }
    }

    /// When `next` is bound to fail: the underlying iterators are sorted
    /// and one of those that stand at the current key, each of which `next`
    /// steps once, fails on that step.
    pub proof fn lemma_fails_next(&self)
        requires
            self.wf(),
        ensures
            self.sources().len() == self.frontier().len(),
            forall|i: int|
                0 <= i < self.sources().len() ==> #[trigger] self.frontier()[i] == match self.sources()[i] {
                    Some(x) => x.entries(),
                    None => Seq::empty(),
                },
            self.fails_next() <==> (self.entries().len() > 0 && all_sorted(self.frontier()) && exists|i: int|
                0 <= i < self.sources().len() && #[trigger] fails_at(self.sources()[i], self.entries()[0].0)),
    {
        let f = self.frontier();
        lemma_min_index(f, f.len() as int);
        lemma_merge_entries_unfold(f);
        if self.entries().len() > 0 {
            self.lemma_valid_can_advance();
        }
        match self.current {
            Some(w) => {
                if w.1.entries().len() == 0 {
                    assert forall|i: int| 0 <= i < f.len() implies #[trigger] f[i].len() == 0 by {
                        if i != w.0 {
                            assert(self.iters@[i] is None);
                        }
                    }
                    assert(self.entries().len() == 0);
                } else {
                    assert(f[w.0 as int] == w.1.entries());
                    assert(self.entries()[0] == f[w.0 as int][0]);
                }
            },
            None => {
                assert forall|i: int| 0 <= i < f.len() implies #[trigger] f[i].len() == 0 by {
                    assert(self.iters@[i] is None);
                }
                assert(self.entries().len() == 0);
            },
        }
    }

    /// The merged entries are sorted and hold, for each key, the entry of
    /// the iterator with the smallest index among those holding the key,
    /// when every underlying iterator is sorted.
    pub proof fn lemma_merged_output(&self)
        requires
            self.wf(),
            all_sorted(self.frontier()),
        ensures
            sorted(self.entries()),
            forall|x: Entry| #[trigger] self.entries().contains(x) <==> first_holder(self.frontier(), x),
    {
        lemma_merge_sorted(self.frontier());
    }

    pub fn create(iters: Vec<Box<I>>) -> (it: Self)
        requires
            forall|i: int| 0 <= i < iters@.len() ==> (#[trigger] iters@[i]).wf(),
        ensures
            it.wf(),
            it.frontier() == Seq::new(iters@.len(), |i: int| iters@[i].entries()),
            it.entries() == merge_entries(Seq::new(iters@.len(), |i: int| iters@[i].entries())),
            it.sources() == Seq::new(
                iters@.len(),
                |i: int|
                    if iters@[i].entries().len() > 0 {
                        Some(*iters@[i])
                    } else {
                        None
                    },
            ),
            (forall|i: int| 0 <= i < iters@.len() ==> (#[trigger] iters@[i]).infallible()) ==> it.infallible(),
    {
        let ghost inf = forall|i: int| 0 <= i < iters@.len() ==> (#[trigger] iters@[i]).infallible();
        let ghost f = Seq::new(iters@.len(), |i: int| iters@[i].entries());
        let n = iters.len();
        let mut rest = iters;
        let mut heap: Vec<Option<HeapWrapper<I>>> = Vec::new();
        let mut i: usize = 0;
        while i < n
            invariant
                i <= n,
                n == f.len(),
                rest@ =~= iters@.skip(i as int),
                heap@.len() == i,
                slots_wf(heap@),
                inf == forall|i: int| 0 <= i < iters@.len() ==> (#[trigger] iters@[i]).infallible(),
                inf ==> slots_infallible(heap@),
                forall|j: int| 0 <= j < i ==> #[trigger] slots_of(heap@)[j] == f[j],
                forall|j: int|
                    0 <= j < i ==> #[trigger] source_of(heap@[j]) == if iters@[j].entries().len() > 0 {
                        Some(*iters@[j])
                    } else {
                        None
                    },
                forall|j: int| 0 <= j < iters@.len() ==> (#[trigger] iters@[j]).wf(),
                f == Seq::new(iters@.len(), |i: int| iters@[i].entries()),
            decreases n - i,
        {
            let ghost old_heap = heap@;
            let x = rest.remove(0);
            assert(x == iters@[i as int]);
            let h = HeapWrapper(i, x);
            if h.1.is_valid() {
                heap.push(Some(h));
            } else {
                heap.push(None);
            }
            proof {
                assert forall|j: int| 0 <= j < i + 1 implies #[trigger] slots_of(heap@)[j] == f[j] by {
                    assert(heap@[j] == if j < i { old_heap[j] } else { heap@[i as int] });
                    if j < i {
                        assert(slots_of(old_heap)[j] == f[j]);
                    }
                }
                assert forall|j: int| 0 <= j < i + 1 implies #[trigger] source_of(heap@[j]) == if iters@[j].entries().len() > 0 {
                    Some(*iters@[j])
                } else {
                    None
                } by {
                    assert(heap@[j] == if j < i { old_heap[j] } else { heap@[i as int] });
                }
            }
            i = i + 1;
        }
        assert(slots_of(heap@) =~= f);
        let ghost before = heap@;
        let current = match heap_min(&heap) {
            Some(j) => heap[j].take(),
            None => None,
        };
        let it = Self { iters: heap, current };
        proof {
            lemma_min_index(f, f.len() as int);
            assert(it.frontier() =~= f);
            let want = Seq::new(
                iters@.len(),
                |i: int|
                    if iters@[i].entries().len() > 0 {
                        Some(*iters@[i])
                    } else {
                        None
                    },
            );
            assert forall|i: int| 0 <= i < want.len() implies #[trigger] it.sources()[i] == want[i] by {
                assert(source_of(before[i]) == want[i]);
                match it.current {
                    Some(w) => {
                        if i != w.0 {
                            assert(it.iters@[i] == before[i]);
                        }
                    },
                    None => {
                        assert(it.iters@[i] == before[i]);
                    },
                }
            }
            assert(it.sources() =~= want);
        }
        it
    }
}

impl<I: StorageIterator> StorageIterator for MergeIterator<I> {
    closed spec fn wf(&self) -> bool {
        &&& slots_wf(self.iters@)
        &&& match self.current {
            Some(w) => {
                &&& w.0 < self.iters@.len()
                &&& self.iters@[w.0 as int] is None
                &&& w.1.wf()
                &&& w.1.entries().len() > 0 ==> least(self.frontier()) == w.0
                &&& w.1.entries().len() == 0 ==> forall|i: int|
                    0 <= i < self.iters@.len() ==> #[trigger] self.iters@[i] is None
            },
            None => forall|i: int| 0 <= i < self.iters@.len() ==> #[trigger] self.iters@[i] is None,
        }
    }

    closed spec fn entries(&self) -> Seq<Entry> {
        merge_entries(self.frontier())
    }

    closed spec fn can_advance(&self) -> bool {
        self.current matches Some(w) && w.1.entries().len() > 0
    }

    closed spec fn active_count(&self) -> nat {
        1
    }

    closed spec fn fails_next(&self) -> bool {
        match self.current {
            Some(c) => {
                &&& c.1.entries().len() > 0
                &&& all_sorted(self.frontier())
                &&& exists|i: int|
                    0 <= i < self.sources().len() && #[trigger] fails_at(
                        self.sources()[i],
                        c.1.entries()[0].0,
                    )
            },
            None => false,
        }
    }

    closed spec fn infallible(&self) -> bool {
        &&& slots_infallible(self.iters@)
        &&& match self.current {
            Some(w) => w.1.infallible(),
            None => true,
        }
    }

    proof fn lemma_valid_can_advance(&self) {
        let f = self.frontier();
        lemma_min_index(f, f.len() as int);
        if !self.can_advance() {
            assert forall|i: int| 0 <= i < f.len() implies #[trigger] f[i].len() == 0 by {
                match self.current {
                    Some(w) => {
                        if i != w.0 {
                            assert(self.iters@[i] is None);
                        }
                    },
                    None => {
                        assert(self.iters@[i] is None);
                    },
                }
            }
        }
    }

    fn key(&self) -> (k: &[u8]) {
        proof {
            self.lemma_valid_can_advance();
        }
        self.current.as_ref().unwrap().1.key()
    }

    fn value(&self) -> (v: &[u8]) {
        proof {
            self.lemma_valid_can_advance();
        }
        self.current.as_ref().unwrap().1.value()
    }

    fn is_valid(&self) -> (b: bool) {
        proof {
            if !self.can_advance() {
                let f = self.frontier();
                lemma_min_index(f, f.len() as int);
                if self.entries().len() > 0 {
                    self.lemma_valid_can_advance();
                }
            } else {
                let f = self.frontier();
                lemma_min_index(f, f.len() as int);
            }
        }
        match &self.current {
            Some(x) => x.1.is_valid(),
            None => false,
        }
    }

    fn next(&mut self) -> (r: Result<(), StorageError>) {
        let ghost f0 = self.frontier();
        let ghost n = self.iters@.len();
        let mut current = self.current.take().unwrap();
        let ghost c = current.0 as int;
        let ghost cur0 = current;
        let ghost k = current.1.entries()[0].0;
        let ghost g0 = self.slots();
        let ghost inf = old(self).infallible();
        let ghost fails = old(self).fails_next();
        proof {
            lemma_min_index(f0, f0.len() as int);
            assert(f0.update(c, Seq::empty()) =~= g0);
            lemma_key_order();
            if fails {
                assert forall|i: int| 0 <= i < g0.len() implies sorted(#[trigger] g0[i]) by {
                    if i != c {
                        assert(g0[i] == f0[i]);
                    } else {
                        assert(g0[i].len() == 0);
                    }
                }
                assert forall|i: int| 0 <= i < g0.len() && (#[trigger] g0[i]).len() > 0 implies !key_lt(
                    g0[i][0].0,
                    k,
                ) by {
                    assert(g0[i] == f0[i]);
                    assert(!precedes(f0[i][0].0, i, f0[c][0].0, c));
                }
                let i = choose|i: int|
                    0 <= i < old(self).sources().len() && #[trigger] fails_at(old(self).sources()[i], k);
                if i != c {
                    assert(old(self).sources()[i] == source_of(self.iters@[i]));
                    assert(pending(self.iters@, k));
                }
            }
        }
        // Handle duplicates
        loop
            invariant
                current == cur0,
                cur0.1.wf(),
                cur0.1.entries().len() > 0,
                k == cur0.1.entries()[0].0,
                c == current.0,
                current.0 < self.iters@.len(),
                self.iters@.len() == n,
                self.iters@[c] is None,
                slots_wf(self.iters@),
                skip_key(self.slots(), k) == skip_key(g0, k),
                self.current is None,
                inf ==> slots_infallible(self.iters@) && cur0.1.infallible(),
                inf == old(self).infallible(),
                fails == old(self).fails_next(),
                old(self).current == Some(cur0),
                fails ==> all_sorted(self.slots()),
                fails ==> heads_at_least(self.slots(), k),
                fails ==> pending(self.iters@, k) || cur0.1.fails_next(),
            ensures
                inf ==> slots_infallible(self.iters@) && cur0.1.infallible(),
                fails ==> cur0.1.fails_next(),
                current == cur0,
                self.current is None,
                self.iters@.len() == n,
                self.iters@[c] is None,
                slots_wf(self.iters@),
                skip_key(self.slots(), k) == skip_key(g0, k),
                skip_key(self.slots(), k) == self.slots(),
            decreases total_len(self.slots()),
        {
            let j = match heap_min(&self.iters) {
                Some(j) => j,
                None => {
                    proof {
                        if fails && pending(self.iters@, k) {
                            let i = choose|i: int|
                                0 <= i < self.iters@.len() && #[trigger] fails_at(source_of(self.iters@[i]), k);
                            assert(self.iters@[i] is None);
                        }
                    }
                    break;
                },
            };
            let same = {
                let inner = self.iters[j].as_ref().unwrap();
                key_eq(current.1.key(), inner.1.key())
            };
            if !same {
                proof {
                    if fails && pending(self.iters@, k) {
                        let s = self.slots();
                        lemma_min_index(s, s.len() as int);
                        lemma_key_order();
                        let i = choose|i: int|
                            0 <= i < self.iters@.len() && #[trigger] fails_at(source_of(self.iters@[i]), k);
                        assert(s[i].len() > 0 && s[i][0].0 == k);
                        assert(!precedes(s[i][0].0, i, s[j as int][0].0, j as int));
                        assert(!key_lt(s[j as int][0].0, k));
                    }
                }
                break;
            }
            let ghost s = self.slots();
            let ghost old_iters = self.iters@;
            let mut inner = self.iters[j].take().unwrap();
            assert(self.iters@ == old_iters.update(j as int, None));
            assert(Some(inner) == old_iters[j as int]);
            assert(inner.1.entries() == s[j as int]);
            assert(inf ==> inner.1.infallible()) by {
                if inf {
                    assert(match old_iters[j as int] {
                        Some(w) => w.1.infallible(),
                        None => true,
                    });
                }
            }
            proof {
                inner.1.lemma_valid_can_advance();
            }
            let ghost inner0 = inner;
            match inner.1.next() {
                Err(e) => {
                    self.current = Some(current);
                    return Err(e);
                },
                Ok(()) => {},
            }
            if inner.1.is_valid() {
                self.iters.set(j, Some(inner));
            }
            proof {
                if fails {
                    lemma_key_order();
                    assert(sorted(s[j as int]));
                    lemma_sorted_tail(s[j as int]);
                    if pending(old_iters, k) {
                        let i = choose|i: int|
                            0 <= i < old_iters.len() && #[trigger] fails_at(source_of(old_iters[i]), k);
                        assert(i != j);
                        assert(self.iters@[i] == old_iters[i]);
                        assert(fails_at(source_of(self.iters@[i]), k));
                    }
                }
                lemma_min_index(s, s.len() as int);
                assert(inner.1.entries() == s[j as int].drop_first());
                assert(self.slots()[j as int] == s[j as int].drop_first());
                assert forall|i: int| 0 <= i < s.len() && i != j implies self.slots()[i] == s[i] by {
                    assert(self.iters@[i] == old_iters[i]);
                }
                assert(self.slots() =~= s.update(j as int, s[j as int].drop_first()));
                lemma_total_len_update(s, j as int, s[j as int].drop_first());
                if fails {
                    let t = self.slots();
                    assert forall|i: int| 0 <= i < t.len() implies sorted(#[trigger] t[i]) by {
                        if i != j {
                            assert(t[i] == s[i]);
                        }
                    }
                    assert forall|i: int| 0 <= i < t.len() && (#[trigger] t[i]).len() > 0 implies !key_lt(
                        t[i][0].0,
                        k,
                    ) by {
                        if i == j {
                            assert(t[i][0] == t[i][0]);
                            assert(has_key(s[j as int].drop_first(), t[i][0].0));
                        } else {
                            assert(t[i] == s[i]);
                        }
                    }
                }
            }
        }
        let ghost s1 = self.slots();
        proof {
            lemma_min_index(s1, s1.len() as int);
            lemma_skip_key(g0, k);
        }
        proof {
            current.1.lemma_valid_can_advance();
        }
        // advance next key
        match current.1.next() {
            Err(e) => {
                self.current = Some(current);
                return Err(e);
            },
            Ok(()) => {},
        }
        let ghost e1 = current.1.entries();
        let ghost f1 = s1.update(c, e1);
        proof {
            assert(f1 == merge_step(f0));
            lemma_merge_entries_unfold(f0);
            lemma_precedes_order();
        }
        // check if key is still valid
        if !current.1.is_valid() {
            // pop the next iter
            match heap_min(&self.iters) {
                Some(j) => {
                    let ghost old_iters = self.iters@;
                    let w = self.iters[j].take();
                    self.current = w;
                    proof {
                        assert(s1[c].len() == 0);
                        assert(e1 =~= s1[c]);
                        assert(f1 =~= s1);
                        assert forall|i: int| 0 <= i < n implies self.frontier()[i] == s1[i] by {
                            if i != j {
                                assert(self.iters@[i] == old_iters[i]);
                            }
                        }
                        assert(self.frontier() =~= f1);
                    }
                },
                None => {
                    self.current = Some(current);
                    proof {
                        assert forall|i: int| 0 <= i < self.iters@.len() implies #[trigger] self.iters@[i] is None by {
                            assert(s1[i].len() == 0);
                        }
                        assert(self.frontier() =~= f1);
                    }
                },
            }
            return Ok(());
        }
        // compare and swap with next iterator is valid
        match heap_min(&self.iters) {
            Some(j) => {
                let swap = {
                    let inner = self.iters[j].as_ref().unwrap();
                    key_less(inner.1.key(), current.1.key()) || (key_eq(inner.1.key(), current.1.key())
                        && j < current.0)
                };
                if swap {
                    let w = self.iters[j].take();
                    let ci = current.0;
                    self.iters.set(ci, Some(current));
                    self.current = w;
                    proof {
                        assert(self.frontier() =~= f1);
                        lemma_min_index_unique(f1, f1.len() as int, j as int);
                    }
                } else {
                    self.current = Some(current);
                    proof {
                        assert(self.frontier() =~= f1);
                        let jj = j as int;
                        assert(!precedes(s1[jj][0].0, jj, e1[0].0, c));
                        assert forall|i: int| 0 <= i < n && i != c && #[trigger] f1[i].len() > 0 implies !precedes(
                            f1[i][0].0,
                            i,
                            f1[c][0].0,
                            c,
                        ) by {
                            assert(f1[i] == s1[i]);
                            if i != jj {
                                assert(!precedes(s1[i][0].0, i, s1[jj][0].0, jj));
                                assert(precedes(s1[i][0].0, i, s1[jj][0].0, jj) || precedes(
                                    s1[jj][0].0,
                                    jj,
                                    s1[i][0].0,
                                    i,
                                ));
                                if precedes(s1[i][0].0, i, e1[0].0, c) {
                                    assert(precedes(s1[jj][0].0, jj, e1[0].0, c));
                                }
                            }
                        }
                        lemma_min_index_unique(f1, f1.len() as int, c);
                    }
                }
            },
            None => {
                self.current = Some(current);
                proof {
                    assert(self.frontier() =~= f1);
                    assert forall|i: int| 0 <= i < n && i != c implies #[trigger] f1[i].len() == 0 by {
                        assert(self.iters@[i] is None);
                        assert(s1[i] == slot_entries(self.iters@[i]));
                    }
                    lemma_min_index_unique(f1, f1.len() as int, c);
                }
            },
        }
        Ok(())
    }

    fn num_active_iterators(&self) -> (n: usize) {
        1
    }
}

} // verus!
