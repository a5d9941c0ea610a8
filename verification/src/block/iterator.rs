//! Walks the entries of a block in order.
use std::sync::Arc;
use vstd::prelude::*;
use crate::block::{
    block_key, block_value, entry_fits, entry_pos, stored_key_len, stored_value_len, Block, Entry, LEN_SIZE,
};
use crate::iterators::{StorageError, StorageIterator};
use crate::codec::get_u16_at;
use crate::key::{key_less, key_lt};

verus! {

/// Where `seek_to_key` stops when it starts at entry `idx` holding `cur`:
/// `Some(q)` when entry `q` is the first from there whose key is not less than
/// `target`; `None` when it runs off the end or meets an empty key first.
pub open spec fn seek_from(data: Seq<u8>, offsets: Seq<u16>, idx: int, cur: Seq<u8>, target: Seq<u8>) -> Option<int>
    decreases offsets.len() - idx,
{
    if !key_lt(cur, target) {
        Some(idx)
    } else if idx + 1 >= offsets.len() {
        None
    } else if block_key(data, offsets, idx + 1).len() == 0 {
        None
    } else {
        seek_from(data, offsets, idx + 1, block_key(data, offsets, idx + 1), target)
    }
}

/// The entries from `i` on, up to the end of the block or the first entry
/// with an empty key, whichever comes first.
pub open spec fn block_entries_from(data: Seq<u8>, offsets: Seq<u16>, i: int) -> Seq<Entry>
    decreases offsets.len() - i,
{
    if i < 0 || i >= offsets.len() || block_key(data, offsets, i).len() == 0 {
        Seq::empty()
    } else {
        seq![(block_key(data, offsets, i), block_value(data, offsets, i))] + block_entries_from(
            data,
            offsets,
            i + 1,
        )
    }
}

/// Iterates on a block.
pub struct BlockIterator {
    /// The internal `Block`, wrapped by an `Arc`
    block: Arc<Block>,
    /// The current key, empty represents the iterator is invalid
    key: Vec<u8>,
    /// the current value range in the block.data, corresponds to the current key
    value_range: (usize, usize),
    /// Current index of the key-value pair, should be in range of [0, num_of_elements)
    idx: usize,
    /// The first key in the block
    first_key: Vec<u8>,
}

impl BlockIterator {
    /// The block walked.
    pub closed spec fn block_view(&self) -> Block {
        *self.block
    }

    /// The index of the current entry.
    pub closed spec fn position(&self) -> int {
        self.idx as int
    }

    /// The current key; empty once the iterator has run past the end.
    pub closed spec fn current_key(&self) -> Seq<u8> {
        self.key@
    }

    /// The current value.
    pub closed spec fn current_value(&self) -> Seq<u8> {
        self.block.data@.subrange(self.value_range.0 as int, self.value_range.1 as int)
    }

    /// The iterator holds entry `i` of its block.
    pub open spec fn at(&self, i: int) -> bool {
        &&& self.position() == i
        &&& self.current_key() == self.block_view().key_at(i)
        &&& self.current_value() == self.block_view().value_at(i)
    }

    spec fn holds_entry(&self, i: int) -> bool {
        let p = entry_pos(self.block.offsets@, i);
        let data = self.block.data@;
        &&& self.key@ == self.block.key_at(i)
        &&& self.value_range.0 == p + 4 + stored_key_len(data, p)
        &&& self.value_range.1 == p + 4 + stored_key_len(data, p)
            + stored_value_len(data, p)
    }

    /// The block can be read; the position is an entry's or the block is
    /// empty; a non-empty key is the key of the entry at the position.
    pub closed spec fn wf(&self) -> bool {
        &&& self.block.readable()
        &&& self.value_range.0 <= self.value_range.1 <= self.block.data@.len()
        &&& (self.idx < self.block.offsets@.len() || (self.block.offsets@.len() == 0 && self.idx == 0))
        &&& self.key@.len() > 0 ==> self.holds_entry(self.idx as int) && self.idx < self.block.offsets@.len()
    }

    proof fn lemma_holds_entry_at(&self, i: int)
        requires
            self.wf(),
            self.idx == i,
            self.holds_entry(i),
        ensures
            self.at(i),
    {
    }

    fn new(block: Arc<Block>) -> (it: Self)
        requires
            block.readable(),
        ensures
            it.wf(),
            it.block_view() == *block,
            it.position() == 0,
            it.current_key().len() == 0,
    {
        Self { block, key: Vec::new(), value_range: (0, 0), idx: 0, first_key: Vec::new() }
    }

    /// Creates a block iterator and seek to the first entry.
    pub fn create_and_seek_to_first(block: Arc<Block>) -> (it: Self)
        requires
            block.readable(),
        ensures
            it.wf(),
            it.block_view() == *block,
            block.offsets@.len() > 0 ==> it.at(0),
            block.offsets@.len() == 0 ==> it.position() == 0 && it.current_key().len() == 0,
            it.entries() == block_entries_from(block.data@, block.offsets@, 0),
    {
        let mut iter = Self::new(block);
        iter.seek_to_first();
        iter
    }

    /// Creates a block iterator and seek to the first key that >= `key`.
    pub fn create_and_seek_to_key(block: Arc<Block>, key: &[u8]) -> (it: Self)
        requires
            block.readable(),
        ensures
            it.wf(),
            it.block_view() == *block,
            ({
                let n = block.offsets@.len();
                let first = if n > 0 { block.key_at(0) } else { Seq::empty() };
                match seek_from(block.data@, block.offsets@, 0, first, key@) {
                    Some(q) => it.position() == q && (n > 0 ==> it.at(q)) && (n == 0
                        ==> it.current_key().len() == 0),
                    None => it.position() == 0 && (n > 0 ==> it.at(0)) && (n == 0
                        ==> it.current_key().len() == 0),
                }
            }),
    {
        let mut iter = Self::create_and_seek_to_first(block);
        iter.seek_to_key(key);
        iter
    }

    /// Returns the key of the current entry.
    pub fn key(&self) -> (k: &[u8])
        ensures
            k@ == self.current_key(),
    {
        self.key.as_slice()
    }

    /// Returns the value of the current entry.
    pub fn value(&self) -> (v: &[u8])
        requires
            self.wf(),
        ensures
            v@ == self.current_value(),
    {
        let data = self.block.data.as_slice();
        vstd::slice::slice_subrange(data, self.value_range.0, self.value_range.1)
    }

    /// Returns true if the iterator is valid.
    pub fn is_valid(&self) -> (r: bool)
        ensures
            r == (self.current_key().len() > 0),
    {
        !self.key.is_empty()
    }

    /// Seeks to the first key in the block.
    pub fn seek_to_first(&mut self)
        requires
            old(self).wf(),
        ensures
            final(self).wf(),
            final(self).block_view() == old(self).block_view(),
            old(self).block_view().offsets@.len() > 0 ==> final(self).at(0),
            old(self).block_view().offsets@.len() == 0 ==> *final(self) == *old(self),
    {
        if self.block.offsets.is_empty() {
            return;
        }
        let data = self.block.data.as_slice();
        proof {
            assert(entry_fits(data@, entry_pos(self.block.offsets@, 0)));
        }
        let key_len = get_u16_at(data, 0) as usize;
        let value_len = get_u16_at(data, LEN_SIZE) as usize;
        let start_of_kv = LEN_SIZE * 2;
        let key = vstd::slice::slice_to_vec(vstd::slice::slice_subrange(data, start_of_kv, start_of_kv + key_len));
        let first_key = vstd::slice::slice_to_vec(vstd::slice::slice_subrange(data, start_of_kv, start_of_kv + key_len));
        let value_range = (start_of_kv + key_len, start_of_kv + key_len + value_len);
        self.key = key;
        self.value_range = value_range;
        self.idx = 0;
        self.first_key = first_key;
        proof {
            self.lemma_holds_entry_at(0);
        }
    }

    /// Move to the next key in the block.
    pub fn next(&mut self)
        requires
            old(self).wf(),
        ensures
            final(self).wf(),
            final(self).block_view() == old(self).block_view(),
            old(self).position() + 1 >= old(self).block_view().offsets@.len() ==> {
                &&& final(self).position() == old(self).position()
                &&& final(self).current_key().len() == 0
                &&& final(self).current_value() == old(self).current_value()
            },
            old(self).position() + 1 < old(self).block_view().offsets@.len() ==> final(self).at(
                old(self).position() + 1,
            ),
    {
        let len = self.block.offsets.len();
        let next_idx = self.idx + 1;
        if next_idx >= len {
            self.key.clear();
            return;
        }
        self.idx = next_idx;
        let data = self.block.data.as_slice();
        let offset = self.block.offsets[self.idx] as usize;
        proof {
            assert(entry_fits(data@, entry_pos(self.block.offsets@, self.idx as int)));
        }
        let key_len = get_u16_at(data, offset) as usize;
        let value_len = get_u16_at(data, offset + LEN_SIZE) as usize;
        let start_of_kv = offset + (LEN_SIZE * 2);
        let start_of_value_offset = start_of_kv + key_len;
        self.key = vstd::slice::slice_to_vec(vstd::slice::slice_subrange(data, start_of_kv, start_of_value_offset));
        self.value_range = (start_of_value_offset, start_of_value_offset + value_len);
        proof {
            self.lemma_holds_entry_at(self.idx as int);
        }
    }

    /// Seeks to the first key of the block that is >= `key`, counting from
    /// the block's first entry; when none is, stays at the first entry. Keys
    /// are taken to be sorted.
    pub fn seek_to_key(&mut self, key: &[u8])
        requires
            old(self).wf(),
        ensures
            final(self).wf(),
            final(self).block_view() == old(self).block_view(),
            ({
                let b = old(self).block_view();
                if b.offsets@.len() == 0 {
                    &&& final(self).current_key().len() == 0
                    &&& final(self).position() == old(self).position()
                    &&& final(self).current_value() == old(self).current_value()
                } else {
                    match seek_from(b.data@, b.offsets@, 0, b.key_at(0), key@) {
                        Some(q) => final(self).at(q),
                        None => final(self).at(0),
                    }
                }
            }),
    {
        let ghost b = self.block_view();
        let ghost n = b.offsets@.len();
        self.seek_to_first();
        let ghost goal = seek_from(b.data@, b.offsets@, self.idx as int, self.key@, key@);
        loop
            invariant
                b == old(self).block_view(),
                n == b.offsets@.len(),
                self.wf(),
                self.block_view() == b,
                goal == seek_from(b.data@, b.offsets@, self.idx as int, self.key@, key@),
                n > 0 ==> goal == seek_from(b.data@, b.offsets@, 0, b.key_at(0), key@),
                n > 0 ==> self.at(self.idx as int) && (self.idx > 0 ==> self.key@.len() > 0),
                n == 0 ==> self.idx == old(self).idx && self.key@.len() == 0 && self.value_range
                    == old(self).value_range,
            decreases b.offsets@.len() - self.idx,
        {
            if !key_less(self.key.as_slice(), key) {
                return;
            }
            self.next();
            if !self.is_valid() {
                self.seek_to_first();
                return;
            }
        }
    }
}

impl StorageIterator for BlockIterator {
    open spec fn wf(&self) -> bool {
        BlockIterator::wf(self)
    }

    open spec fn entries(&self) -> Seq<Entry> {
        if self.current_key().len() == 0 {
            Seq::empty()
        } else {
            block_entries_from(self.block_view().data@, self.block_view().offsets@, self.position())
        }
    }

    open spec fn can_advance(&self) -> bool {
        self.current_key().len() > 0
    }

    open spec fn active_count(&self) -> nat {
        1
    }

    open spec fn fails_next(&self) -> bool {
        false
    }

    open spec fn infallible(&self) -> bool {
        true
    }

    proof fn lemma_valid_can_advance(&self) {
    }

    fn key(&self) -> (k: &[u8]) {
        proof {
            self.lemma_holds_entry_at(self.idx as int);
        }
        BlockIterator::key(self)
    }

    fn value(&self) -> (v: &[u8]) {
        proof {
            self.lemma_holds_entry_at(self.idx as int);
        }
        BlockIterator::value(self)
    }

    fn is_valid(&self) -> (b: bool) {
        proof {
            if self.key@.len() > 0 {
                self.lemma_holds_entry_at(self.idx as int);
            }
        }
        BlockIterator::is_valid(self)
    }

    fn next(&mut self) -> (r: Result<(), StorageError>) {
        proof {
            if self.key@.len() > 0 {
                self.lemma_holds_entry_at(self.idx as int);
            }
        }
        let ghost d = self.block.data@;
        let ghost o = self.block.offsets@;
        let ghost i = self.idx as int;
        BlockIterator::next(self);
        proof {
            let rest = block_entries_from(d, o, i + 1);
            assert((seq![(block_key(d, o, i), block_value(d, o, i))] + rest).drop_first() =~= rest);
            if self.key@.len() > 0 {
                self.lemma_holds_entry_at(self.idx as int);
            }
        }
        Ok(())
    }

    fn num_active_iterators(&self) -> (n: usize) {
        1
    }
}

/// Seeking from entry `idx` of a block with no empty key, when every earlier
/// key is less than the target.
proof fn lemma_seek_scan(data: Seq<u8>, offsets: Seq<u16>, idx: int, target: Seq<u8>)
    requires
        0 <= idx < offsets.len(),
        forall|i: int| 0 <= i < offsets.len() ==> (#[trigger] block_key(data, offsets, i)).len() > 0,
        forall|j: int| 0 <= j < idx ==> key_lt(#[trigger] block_key(data, offsets, j), target),
    ensures
        match seek_from(data, offsets, idx, block_key(data, offsets, idx), target) {
            Some(q) => idx <= q < offsets.len() && !key_lt(block_key(data, offsets, q), target)
                && forall|j: int| 0 <= j < q ==> key_lt(#[trigger] block_key(data, offsets, j), target),
            None => forall|j: int| 0 <= j < offsets.len() ==> key_lt(#[trigger] block_key(data, offsets, j), target),
        },
    decreases offsets.len() - idx,
{
    if key_lt(block_key(data, offsets, idx), target) && idx + 1 < offsets.len() {
        assert(block_key(data, offsets, idx + 1).len() > 0);
        lemma_seek_scan(data, offsets, idx + 1, target);
    }
}

/// In a block whose keys are all non-empty, seeking from the first entry
/// stops at the first entry whose key is not less than the target; when
/// every key is less than the target, it goes back to the first entry.
pub proof fn lemma_seek_finds_first_not_less(data: Seq<u8>, offsets: Seq<u16>, target: Seq<u8>)
    requires
        offsets.len() > 0,
        forall|i: int| 0 <= i < offsets.len() ==> (#[trigger] block_key(data, offsets, i)).len() > 0,
    ensures
        match seek_from(data, offsets, 0, block_key(data, offsets, 0), target) {
            Some(q) => 0 <= q < offsets.len() && !key_lt(block_key(data, offsets, q), target)
                && forall|j: int| 0 <= j < q ==> key_lt(#[trigger] block_key(data, offsets, j), target),
            None => forall|j: int| 0 <= j < offsets.len() ==> key_lt(#[trigger] block_key(data, offsets, j), target),
        },
{
    lemma_seek_scan(data, offsets, 0, target);
}

} // verus!
