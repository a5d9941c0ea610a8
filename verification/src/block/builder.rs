//! Lays key-value entries out into a block of a target size.
use vstd::prelude::*;
use crate::block::iterator::block_entries_from;
use crate::block::{
    block_key, block_readable, block_value, encode_block, encode_entries, encode_entry, entry_offsets,
    lemma_encode_offsets_len,
    lemma_block_reads_back, lemma_encode_entries_split, lemma_encode_entry_len, Block, Entry, LEN_SIZE,
};
use crate::codec::{lemma_uint_roundtrips, put_slice, put_u16};

verus! {

/// The first non-empty key among `es`, or the empty key when there is none.
pub open spec fn first_nonempty_key(es: Seq<Entry>) -> Seq<u8>
    decreases es.len(),
{
    if es.len() == 0 {
        Seq::empty()
    } else {
        let prev = first_nonempty_key(es.drop_last());
        if prev.len() > 0 {
            prev
        } else {
            es.last().0
        }
    }
}

proof fn lemma_entries_from(data: Seq<u8>, offsets: Seq<u16>, es: Seq<Entry>, i: int)
    requires
        0 <= i <= es.len(),
        offsets.len() == es.len(),
        forall|j: int|
            0 <= j < es.len() ==> block_key(data, offsets, j) == (#[trigger] es[j]).0 && block_value(
                data,
                offsets,
                j,
            ) == es[j].1 && es[j].0.len() > 0,
    ensures
        block_entries_from(data, offsets, i) == es.skip(i),
    decreases es.len() - i,
{
    if i < es.len() {
        lemma_entries_from(data, offsets, es, i + 1);
        assert(es.skip(i) =~= seq![es[i]] + es.skip(i + 1));
    } else {
        assert(es.skip(i) =~= Seq::<Entry>::empty());
    }
}

/// The entries of the calls in `calls` that were accepted, in order; each
/// call is a key, a value and whether `add` returned `true`.
pub open spec fn accepted(calls: Seq<(Seq<u8>, Seq<u8>, bool)>) -> Seq<Entry>
    decreases calls.len(),
{
    if calls.len() == 0 {
        Seq::empty()
    } else {
        let prev = accepted(calls.drop_last());
        if calls.last().2 {
            prev.push((calls.last().0, calls.last().1))
        } else {
            prev
        }
    }
}

/// `after` is what `add(call.0, call.1)` leaves from `before` when it
/// returns `call.2`, as far as the entries go.
pub open spec fn add_step(before: BlockBuilder, after: BlockBuilder, call: (Seq<u8>, Seq<u8>, bool)) -> bool {
    &&& call.2 ==> after.entries() == before.entries().push((call.0, call.1))
    &&& !call.2 ==> after == before
}

/// Builds a block.
pub struct BlockBuilder {
    /// Offsets of each key-value entries.
    offsets: Vec<u16>,
    /// All serialized key-value pairs in the block.
    data: Vec<u8>,
    /// The expected block size.
    block_size: usize,
    /// The first key in the block
    first_key: Vec<u8>,
    /// The entries added so far, in order.
    entries: Ghost<Seq<Entry>>,
}

impl BlockBuilder {
    /// The entries added so far, in order.
    pub closed spec fn entries(&self) -> Seq<Entry> {
        self.entries@
    }

    /// The size the block is meant to stay within.
    pub closed spec fn target_size(&self) -> nat {
        self.block_size as nat
    }

    /// The size of the encoded block as it stands: the entry count, one offset
    /// per entry, and the entries.
    pub open spec fn estimated(&self) -> nat {
        2 + 2 * self.entries().len() + encode_entries(self.entries()).len()
    }

    /// `add` takes an entry of these lengths: the block is empty, or it stays
    /// within its target size with the entry and its offset.
    pub open spec fn accepts(&self, key_len: nat, value_len: nat) -> bool {
        self.entries().len() == 0 || self.estimated() + key_len + value_len + 6 <= self.target_size()
    }

    /// `add` can run without overflow: the new estimate fits in a `usize`, and
    /// an accepted entry starts at an offset that fits in a `u16`.
    pub open spec fn can_add(&self, key_len: nat, value_len: nat) -> bool {
        &&& self.estimated() + key_len + value_len + 6 <= usize::MAX
        &&& self.accepts(key_len, value_len) ==> encode_entries(self.entries()).len() <= u16::MAX
    }

    /// The builder's fields hold the entries laid out, one exact `u16` offset
    /// each; a block of two or more entries is within its target size.
    pub closed spec fn wf(&self) -> bool {
        &&& self.data@ == encode_entries(self.entries@)
        &&& self.offsets@.len() == self.entries@.len()
        &&& forall|i: int|
            0 <= i < self.offsets@.len() ==> #[trigger] self.offsets@[i] as int == encode_entries(
                self.entries@.take(i),
            ).len()
        &&& self.first_key@ == first_nonempty_key(self.entries@)
        &&& self.estimated() <= usize::MAX
        &&& self.entries@.len() > 1 ==> self.estimated() <= self.block_size
    }

    /// The first non-empty key added, or the empty key.
    pub closed spec fn first_key_view(&self) -> Seq<u8> {
        self.first_key@
    }

    /// A block holding two or more entries stays within its target size.
    pub proof fn lemma_full_block_within_target(&self)
        requires
            self.wf(),
            self.entries().len() > 1,
        ensures
            self.estimated() <= self.target_size(),
    {
    }

    /// The block built from the entries added reads back exactly those
    /// entries, when every key and value is at most `u16::MAX` bytes long.
    pub proof fn lemma_built_block_reads_back(&self)
        requires
            self.wf(),
            forall|i: int|
                0 <= i < self.entries().len() ==> (#[trigger] self.entries()[i]).0.len() <= u16::MAX
                    && self.entries()[i].1.len() <= u16::MAX,
        ensures
            block_readable(encode_entries(self.entries()), entry_offsets(self.entries())),
            forall|i: int|
                0 <= i < self.entries().len() ==> block_key(
                    encode_entries(self.entries()),
                    entry_offsets(self.entries()),
                    i,
                ) == (#[trigger] self.entries()[i]).0 && block_value(
                    encode_entries(self.entries()),
                    entry_offsets(self.entries()),
                    i,
                ) == self.entries()[i].1,
    {
        let es = self.entries@;
        assert forall|i: int| 0 <= i < es.len() implies #[trigger] encode_entries(es.take(i)).len() <= u16::MAX by {
            assert(self.offsets@[i] as int == encode_entries(es.take(i)).len());
        }
        lemma_block_reads_back(es);
    }

    /// An iterator over the block built from the entries added yields
    /// exactly those entries, when no key is empty and every key and value
    /// is at most `u16::MAX` bytes long.
    pub proof fn lemma_built_block_iterates(&self)
        requires
            self.wf(),
            forall|i: int|
                0 <= i < self.entries().len() ==> (#[trigger] self.entries()[i]).0.len() > 0
                    && self.entries()[i].0.len() <= u16::MAX && self.entries()[i].1.len() <= u16::MAX,
        ensures
            block_entries_from(encode_entries(self.entries()), entry_offsets(self.entries()), 0)
                == self.entries(),
    {
        self.lemma_built_block_reads_back();
        lemma_entries_from(encode_entries(self.entries()), entry_offsets(self.entries()), self.entries(), 0);
        assert(self.entries().skip(0) =~= self.entries());
    }

    /// How the built block is laid out: one offset per entry added, the
    /// first at 0, strictly increasing and each within the data; entry `i`
    /// is encoded at its offset, the entries lying back to back in the order
    /// they were added.
    pub proof fn lemma_built_block_layout(&self)
        requires
            self.wf(),
        ensures
            entry_offsets(self.entries()).len() == self.entries().len(),
            self.entries().len() > 0 ==> entry_offsets(self.entries())[0] == 0,
            forall|i: int|
                0 <= i < self.entries().len() ==> #[trigger] entry_offsets(self.entries())[i] as int
                    == encode_entries(self.entries().take(i)).len(),
            forall|i: int, j: int|
                0 <= i < j < self.entries().len() ==> #[trigger] entry_offsets(self.entries())[i]
                    < #[trigger] entry_offsets(self.entries())[j],
            forall|i: int|
                0 <= i < self.entries().len() ==> (#[trigger] entry_offsets(self.entries())[i]) as int + 4
                    + self.entries()[i].0.len() + self.entries()[i].1.len() <= encode_entries(
                    self.entries(),
                ).len(),
            forall|i: int|
                0 <= i < self.entries().len() ==> encode_entries(self.entries()).subrange(
                    #[trigger] entry_offsets(self.entries())[i] as int,
                    entry_offsets(self.entries())[i] + 4 + self.entries()[i].0.len() + self.entries()[i].1.len(),
                ) == encode_entry(self.entries()[i].0, self.entries()[i].1),
    {
        let es = self.entries@;
        let offs = entry_offsets(es);
        assert forall|i: int| 0 <= i < es.len() implies #[trigger] offs[i] as int == encode_entries(es.take(i)).len() by {
            assert(self.offsets@[i] as int == encode_entries(es.take(i)).len());
        }
        if es.len() > 0 {
            assert(es.take(0) =~= Seq::<Entry>::empty());
        }
        assert forall|i: int| 0 <= i < es.len() implies {
            &&& (#[trigger] offs[i]) as int + 4 + es[i].0.len() + es[i].1.len() <= encode_entries(es).len()
            &&& encode_entries(es).subrange(offs[i] as int, offs[i] + 4 + es[i].0.len() + es[i].1.len())
                == encode_entry(es[i].0, es[i].1)
        } by {
            lemma_encode_entries_split(es, i);
            lemma_encode_entry_len(es[i].0, es[i].1);
            assert(offs[i] as int == encode_entries(es.take(i)).len());
        }
        assert forall|i: int, j: int| 0 <= i < j < es.len() implies #[trigger] offs[i] < #[trigger] offs[j] by {
            let t = es.take(j);
            lemma_encode_entries_split(t, i);
            assert(t.take(i) =~= es.take(i));
            assert(t[i] == es[i]);
            lemma_encode_entry_len(es[i].0, es[i].1);
            assert(offs[i] as int == encode_entries(es.take(i)).len());
            assert(offs[j] as int == encode_entries(es.take(j)).len());
        }
    }

    /// `add` refuses an entry only when the block is full: it takes the
    /// entry exactly when the block is empty or the encoded block holding
    /// the entries so far and the new one (data, offsets and count) stays
    /// within the target size.
    pub proof fn lemma_accepts_when_it_fits(&self, key: Seq<u8>, value: Seq<u8>)
        ensures
            self.accepts(key.len(), value.len()) <==> (self.entries().len() == 0 || encode_block(
                encode_entries(self.entries().push((key, value))),
                entry_offsets(self.entries().push((key, value))),
            ).len() <= self.target_size()),
    {
        let es = self.entries().push((key, value));
        assert(es.drop_last() =~= self.entries());
        lemma_encode_entry_len(key, value);
        lemma_encode_offsets_len(entry_offsets(es));
        lemma_uint_roundtrips();
    }

    /// Over any sequence of calls of `add` on a new builder, the builder
    /// holds exactly the accepted entries, in order: it is empty exactly
    /// when no call returned `true`, and the block it builds has one offset
    /// per accepted entry.
    pub proof fn lemma_add_sequence(states: Seq<BlockBuilder>, calls: Seq<(Seq<u8>, Seq<u8>, bool)>)
        requires
            states.len() == calls.len() + 1,
            states[0].entries() == Seq::<Entry>::empty(),
            forall|t: int| 0 <= t < calls.len() ==> #[trigger] add_step(states[t], states[t + 1], calls[t]),
        ensures
            states.last().entries() == accepted(calls),
            (states.last().entries().len() == 0) <==> (forall|t: int| 0 <= t < calls.len() ==> !(#[trigger] calls[t]).2),
            entry_offsets(states.last().entries()).len() == accepted(calls).len(),
        decreases calls.len(),
    {
        if calls.len() == 0 {
        } else {
            let ps = states.drop_last();
            let pc = calls.drop_last();
            assert forall|t: int| 0 <= t < pc.len() implies #[trigger] add_step(ps[t], ps[t + 1], pc[t]) by {
                assert(add_step(states[t], states[t + 1], calls[t]));
            }
            Self::lemma_add_sequence(ps, pc);
            let n = calls.len() - 1;
            assert(add_step(states[n], states[n + 1], calls[n]));
            assert(ps.last() == states[n]);
            if forall|t: int| 0 <= t < calls.len() ==> !(#[trigger] calls[t]).2 {
                assert forall|t: int| 0 <= t < pc.len() implies !(#[trigger] pc[t]).2 by {
                    assert(!calls[t].2);
                }
            }
            if states.last().entries().len() == 0 {
                assert(!calls[n].2);
                assert forall|t: int| 0 <= t < calls.len() implies !(#[trigger] calls[t]).2 by {
                    if t < n {
                        assert(pc[t] == calls[t]);
                    }
                }
            }
        }
    }

    /// Creates a new block builder.
    pub fn new(block_size: usize) -> (b: Self)
        ensures
            b.wf(),
            b.entries() == Seq::<Entry>::empty(),
            b.target_size() == block_size,
    {
        let b = Self {
            offsets: Vec::new(),
            data: Vec::with_capacity(block_size),
            block_size,
            first_key: Vec::new(),
            entries: Ghost(Seq::empty()),
        };
        assert(b.data@ =~= encode_entries(b.entries@));
        b
    }

    fn estimated_size(&self) -> (n: usize)
        requires
            self.wf(),
        ensures
            n == self.estimated(),
    {
        LEN_SIZE + (self.offsets.len() * LEN_SIZE) + self.data.len()
    }

    /// Adds a key-value pair to the block. Returns false when the block is full.
    pub fn add(&mut self, key: &[u8], value: &[u8]) -> (added: bool)
        requires
            old(self).wf(),
            old(self).can_add(key@.len(), value@.len()),
        ensures
            final(self).wf(),
            final(self).target_size() == old(self).target_size(),
            added == old(self).accepts(key@.len(), value@.len()),
            added ==> final(self).entries() == old(self).entries().push((key@, value@)),
            !added ==> *final(self) == *old(self),
    {
        let offset = self.data.len();
        let key_len = key.len();
        let value_len = value.len();
        let total_size = self.estimated_size() + key_len + value_len + LEN_SIZE * 3;
        if total_size > self.block_size && !self.is_empty() {
            return false;
        }
        let ghost old_es = self.entries@;
        let ghost new_es = old_es.push((key@, value@));
        put_u16(&mut self.data, key_len as u16);
        put_u16(&mut self.data, value_len as u16);
        put_slice(&mut self.data, key);
        put_slice(&mut self.data, value);
        self.offsets.push(offset as u16);
        if self.first_key.is_empty() {
            self.first_key = vstd::slice::slice_to_vec(key);
        }
        self.entries = Ghost(new_es);
        proof {
            assert(new_es.drop_last() =~= old_es);
            assert(self.data@ =~= encode_entries(new_es));
            lemma_encode_entry_len(key@, value@);
            assert forall|i: int| 0 <= i < self.offsets@.len() implies #[trigger] self.offsets@[i] as int
                == encode_entries(new_es.take(i)).len() by {
                if i < old_es.len() {
                    assert(new_es.take(i) =~= old_es.take(i));
                } else {
                    assert(new_es.take(i) =~= old_es);
                }
            }
        }
        true
    }

    /// Check if there is no key-value pair in the block.
    pub fn is_empty(&self) -> (r: bool)
        requires
            self.wf(),
        ensures
            r == (self.entries().len() == 0),
    {
        self.offsets.is_empty()
    }

    /// Finalize the block.
    pub fn build(self) -> (b: Block)
        requires
            self.wf(),
        ensures
            b.data@ == encode_entries(self.entries()),
            b.offsets@ == entry_offsets(self.entries()),
    {
        let b = Block { data: self.data, offsets: self.offsets };
        assert(b.offsets@ =~= entry_offsets(self.entries@));
        b
    }
}

} // verus!
