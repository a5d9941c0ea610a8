//! Blocks: the unit in which a table stores its key-value entries.
//!
//! An entry is `[key_len: u16][value_len: u16][key][value]`; a block holds its
//! entries back to back, then the offset of each entry as a `u16`, then the
//! number of entries as a `u16`, all big-endian.
use vstd::prelude::*;
use crate::codec::{be_value, get_u16_at, lemma_uint_roundtrips, put_slice, put_u16, u16_bytes};

pub mod builder;
pub mod iterator;


verus! {

/// The width of each length and offset field in a block.
pub const LEN_SIZE: usize = 2;

/// A key-value pair as byte strings.
pub type Entry = (Seq<u8>, Seq<u8>);

/// The bytes that one entry occupies in a block's data section.
pub open spec fn encode_entry(key: Seq<u8>, value: Seq<u8>) -> Seq<u8> {
    u16_bytes(key.len() as u16) + u16_bytes(value.len() as u16) + key + value
}

/// The data section holding `es` back to back.
pub open spec fn encode_entries(es: Seq<Entry>) -> Seq<u8>
    decreases es.len(),
{
    if es.len() == 0 {
        Seq::empty()
    } else {
        encode_entries(es.drop_last()) + encode_entry(es.last().0, es.last().1)
    }
}

/// Where each of `es` starts in `encode_entries(es)`.
pub open spec fn entry_offsets(es: Seq<Entry>) -> Seq<u16> {
    Seq::new(es.len(), |i: int| encode_entries(es.take(i)).len() as u16)
}

/// The key length stored at `p`.
pub open spec fn stored_key_len(data: Seq<u8>, p: int) -> nat {
    be_value(data.subrange(p, p + 2))
}

/// The value length stored at `p`.
pub open spec fn stored_value_len(data: Seq<u8>, p: int) -> nat {
    be_value(data.subrange(p + 2, p + 4))
}

/// An entry starting at `p` lies wholly within `data`.
pub open spec fn entry_fits(data: Seq<u8>, p: int) -> bool {
    &&& 0 <= p
    &&& p + 4 <= data.len()
    &&& p + 4 + stored_key_len(data, p) + stored_value_len(data, p) <= data.len()
}

/// The key of the entry at `p`.
pub open spec fn entry_key_at(data: Seq<u8>, p: int) -> Seq<u8> {
    data.subrange(p + 4, p + 4 + stored_key_len(data, p))
}

/// The value of the entry at `p`.
pub open spec fn entry_value_at(data: Seq<u8>, p: int) -> Seq<u8> {
    data.subrange(
        p + 4 + stored_key_len(data, p),
        p + 4 + stored_key_len(data, p) + stored_value_len(data, p),
    )
}

/// The bytes of a sequence of offsets.
pub open spec fn encode_offsets(offsets: Seq<u16>) -> Seq<u8>
    decreases offsets.len(),
{
    if offsets.len() == 0 {
        Seq::empty()
    } else {
        encode_offsets(offsets.drop_last()) + u16_bytes(offsets.last())
    }
}

/// The encoded form of a block with these data and offsets.
pub open spec fn encode_block(data: Seq<u8>, offsets: Seq<u16>) -> Seq<u8> {
    data + encode_offsets(offsets) + u16_bytes(offsets.len() as u16)
}

/// What `Block::decode` reads from `bytes`: `None` when the trailer does not fit.
pub open spec fn decode_block(bytes: Seq<u8>) -> Option<(Seq<u8>, Seq<u16>)> {
    if bytes.len() < 2 {
        None
    } else {
        let n = be_value(bytes.subrange(bytes.len() - 2, bytes.len() as int));
        if 2 + 2 * n > bytes.len() {
            None
        } else {
            let start = bytes.len() - 2 - 2 * n;
            Some(
                (
                    bytes.subrange(0, start),
                    Seq::new(
                        n,
                        |i: int| be_value(bytes.subrange(start + 2 * i, start + 2 * i + 2)) as u16,
                    ),
                ),
            )
        }
    }
}

/// A block: its entries' bytes and the offset of each entry.
pub struct Block {
    pub data: Vec<u8>,
    pub offsets: Vec<u16>,
}

/// The position an iterator reads entry `i` from: the first entry is read
/// at the start of the data, every later one at its offset.
pub open spec fn entry_pos(offsets: Seq<u16>, i: int) -> int {
    if i == 0 {
        0
    } else {
        offsets[i] as int
    }
}

/// Every entry that an iterator can reach lies within the data.
pub open spec fn block_readable(data: Seq<u8>, offsets: Seq<u16>) -> bool {
    forall|i: int| 0 <= i < offsets.len() ==> entry_fits(data, #[trigger] entry_pos(offsets, i))
}

/// The key of entry `i`, as an iterator reads it.
pub open spec fn block_key(data: Seq<u8>, offsets: Seq<u16>, i: int) -> Seq<u8> {
    entry_key_at(data, entry_pos(offsets, i))
}

/// The value of entry `i`, as an iterator reads it.
pub open spec fn block_value(data: Seq<u8>, offsets: Seq<u16>, i: int) -> Seq<u8> {
    entry_value_at(data, entry_pos(offsets, i))
}

impl Block {
    /// Every entry that an iterator can reach lies within the data.
    pub open spec fn readable(&self) -> bool {
        block_readable(self.data@, self.offsets@)
    }

    /// The key of entry `i`, as an iterator reads it.
    pub open spec fn key_at(&self, i: int) -> Seq<u8> {
        block_key(self.data@, self.offsets@, i)
    }

    /// The value of entry `i`, as an iterator reads it.
    pub open spec fn value_at(&self, i: int) -> Seq<u8> {
        block_value(self.data@, self.offsets@, i)
    }

    /// Tells whether every entry that an iterator can reach lies within the
    /// data, as an iterator over the block needs.
    pub fn is_readable(&self) -> (r: bool)
        ensures
            r == self.readable(),
    {
        let len = self.data.len();
        let mut i: usize = 0;
        while i < self.offsets.len()
            invariant
                i <= self.offsets@.len(),
                len == self.data@.len(),
                forall|j: int| 0 <= j < i ==> entry_fits(self.data@, #[trigger] entry_pos(self.offsets@, j)),
            decreases self.offsets@.len() - i,
        {
            let p: usize = if i == 0 {
                0
            } else {
                self.offsets[i] as usize
            };
            assert(p == entry_pos(self.offsets@, i as int));
            if p > len || len - p < 4 {
                return false;
            }
            let key_len = get_u16_at(self.data.as_slice(), p) as usize;
            let value_len = get_u16_at(self.data.as_slice(), p + 2) as usize;
            if len - p - 4 < key_len || len - p - 4 - key_len < value_len {
                return false;
            }
            i = i + 1;
        }
        true
    }

    /// Encodes the block: the data, each offset, then the number of offsets.
    pub fn encode(&self) -> (out: Vec<u8>)
        ensures
            out@ == encode_block(self.data@, self.offsets@),
    {
        let mut buf: Vec<u8> = Vec::new();
        put_slice(&mut buf, self.data.as_slice());
        let mut i: usize = 0;
        while i < self.offsets.len()
            invariant
                i <= self.offsets@.len(),
                buf@ == self.data@ + encode_offsets(self.offsets@.take(i as int)),
            decreases self.offsets@.len() - i,
        {
            put_u16(&mut buf, self.offsets[i]);
            proof {
                let t = self.offsets@.take(i + 1);
                assert(t.drop_last() =~= self.offsets@.take(i as int));
            }
            i = i + 1;
        }
        assert(self.offsets@.take(i as int) =~= self.offsets@);
        put_u16(&mut buf, self.offsets.len() as u16);
        buf
    }

    /// Decodes a block; `None` when `bytes` is too short for the trailer it names.
    pub fn decode(bytes: &[u8]) -> (out: Option<Block>)
        ensures
            match decode_block(bytes@) {
                Some((d, o)) => out matches Some(b) && b.data@ == d && b.offsets@ == o,
                None => out is None,
            },
    {
        let len = bytes.len();
        if len < LEN_SIZE {
            return None;
        }
        let n = get_u16_at(bytes, len - LEN_SIZE) as usize;
        if len < 2 + 2 * n {
            return None;
        }
        let start = len - 2 - 2 * n;
        let data = vstd::slice::slice_to_vec(vstd::slice::slice_subrange(bytes, 0, start));
        let mut offsets: Vec<u16> = Vec::new();
        let mut i: usize = 0;
        while i < n
            invariant
                i <= n,
                n == be_value(bytes@.subrange(len - 2, len as int)),
                start == len - 2 - 2 * n,
                len == bytes@.len(),
                offsets@.len() == i,
                forall|j: int|
                    0 <= j < i ==> offsets@[j] == be_value(
                        bytes@.subrange(start + 2 * j, start + 2 * j + 2),
                    ) as u16,
            decreases n - i,
        {
            let off = get_u16_at(bytes, start + 2 * i);
            offsets.push(off);
            i = i + 1;
        }
        let b = Block { data, offsets };
        proof {
            let (d, o) = decode_block(bytes@).unwrap();
            assert(b.offsets@ =~= o);
        }
        Some(b)
    }
}

pub proof fn lemma_encode_offsets_len(offsets: Seq<u16>)
    ensures
        encode_offsets(offsets).len() == 2 * offsets.len(),
    decreases offsets.len(),
{
    lemma_uint_roundtrips();
    if offsets.len() > 0 {
        lemma_encode_offsets_len(offsets.drop_last());
    }
}

proof fn lemma_encode_offsets_index(offsets: Seq<u16>, i: int)
    requires
        0 <= i < offsets.len(),
    ensures
        encode_offsets(offsets).subrange(2 * i, 2 * i + 2) == u16_bytes(offsets[i]),
    decreases offsets.len(),
{
    lemma_uint_roundtrips();
    lemma_encode_offsets_len(offsets.drop_last());
    let prev = encode_offsets(offsets.drop_last());
    if i < offsets.len() - 1 {
        lemma_encode_offsets_index(offsets.drop_last(), i);
        assert(encode_offsets(offsets).subrange(2 * i, 2 * i + 2) =~= prev.subrange(2 * i, 2 * i + 2));
    } else {
        assert(encode_offsets(offsets).subrange(2 * i, 2 * i + 2) =~= u16_bytes(offsets.last()));
    }
}

/// Decoding an encoded block gives back its data and offsets, for any block
/// with at most `u16::MAX` entries.
pub proof fn lemma_block_codec_roundtrip(data: Seq<u8>, offsets: Seq<u16>)
    requires
        offsets.len() <= u16::MAX,
    ensures
        decode_block(encode_block(data, offsets)) == Some((data, offsets)),
{
    lemma_uint_roundtrips();
    lemma_encode_offsets_len(offsets);
    let bytes = encode_block(data, offsets);
    let n = offsets.len();
    assert(bytes.subrange(bytes.len() - 2, bytes.len() as int) =~= u16_bytes(n as u16));
    let start = bytes.len() - 2 - 2 * n;
    assert(start == data.len());
    let (d, o) = decode_block(bytes).unwrap();
    assert(d =~= data);
    assert forall|i: int| 0 <= i < n implies #[trigger] o[i] == offsets[i] by {
        lemma_encode_offsets_index(offsets, i);
        assert(bytes.subrange(start + 2 * i, start + 2 * i + 2)
            =~= encode_offsets(offsets).subrange(2 * i, 2 * i + 2));
    }
    assert(o =~= offsets);
}


pub proof fn lemma_encode_entry_len(key: Seq<u8>, value: Seq<u8>)
    ensures
        encode_entry(key, value).len() == 4 + key.len() + value.len(),
{
    lemma_uint_roundtrips();
}

/// The data section of a prefix of the entries is a prefix of the data section.
pub proof fn lemma_encode_entries_prefix(es: Seq<Entry>, j: int)
    requires
        0 <= j <= es.len(),
    ensures
        encode_entries(es.take(j)).len() <= encode_entries(es).len(),
        encode_entries(es).subrange(0, encode_entries(es.take(j)).len() as int) == encode_entries(
            es.take(j),
        ),
    decreases es.len(),
{
    if j == es.len() {
        assert(es.take(j) =~= es);
        assert(encode_entries(es).subrange(0, encode_entries(es).len() as int) =~= encode_entries(es));
    } else {
        let p = es.drop_last();
        assert(p.take(j) =~= es.take(j));
        lemma_encode_entries_prefix(p, j);
        let a = encode_entries(p);
        let b = encode_entry(es.last().0, es.last().1);
        let k = encode_entries(es.take(j)).len() as int;
        assert((a + b).subrange(0, k) =~= a.subrange(0, k));
    }
}

/// Entry `i` sits at the end of the data section of the first `i` entries.
pub proof fn lemma_encode_entries_split(es: Seq<Entry>, i: int)
    requires
        0 <= i < es.len(),
    ensures
        ({
            let p = encode_entries(es.take(i)).len() as int;
            let e = encode_entry(es[i].0, es[i].1);
            &&& p + e.len() <= encode_entries(es).len()
            &&& encode_entries(es).subrange(p, p + e.len()) == e
        }),
{
    let t = es.take(i + 1);
    assert(t.drop_last() =~= es.take(i));
    assert(es.take(i + 1).take(i) =~= es.take(i));
    lemma_encode_entries_prefix(es, i + 1);
    let p = encode_entries(es.take(i)).len() as int;
    let e = encode_entry(es[i].0, es[i].1);
    let whole = encode_entries(es);
    let q = encode_entries(t).len() as int;
    assert(encode_entries(t) == encode_entries(es.take(i)) + e);
    assert(whole.subrange(p, p + e.len()) =~= whole.subrange(0, q).subrange(p, p + e.len()));
    assert(encode_entries(t).subrange(p, p + e.len()) =~= e);
}

/// A block laid out from a sequence of entries reads back exactly those
/// entries, when every key, every value and every offset fits in a `u16`.
pub proof fn lemma_block_reads_back(es: Seq<Entry>)
    requires
        forall|i: int| 0 <= i < es.len() ==> (#[trigger] es[i]).0.len() <= u16::MAX && es[i].1.len() <= u16::MAX,
        forall|i: int| 0 <= i < es.len() ==> #[trigger] encode_entries(es.take(i)).len() <= u16::MAX,
    ensures
        block_readable(encode_entries(es), entry_offsets(es)),
        forall|i: int|
            0 <= i < es.len() ==> block_key(encode_entries(es), entry_offsets(es), i) == (#[trigger] es[i]).0
                && block_value(encode_entries(es), entry_offsets(es), i) == es[i].1,
{
    lemma_uint_roundtrips();
    let data = encode_entries(es);
    let offs = entry_offsets(es);
    assert forall|i: int| 0 <= i < es.len() implies {
        &&& entry_fits(data, #[trigger] entry_pos(offs, i))
        &&& block_key(data, offs, i) == es[i].0
        &&& block_value(data, offs, i) == es[i].1
    } by {
        lemma_encode_entries_split(es, i);
        let p = encode_entries(es.take(i)).len() as int;
        if i == 0 {
            assert(es.take(0) =~= Seq::<Entry>::empty());
        }
        assert(entry_pos(offs, i) == p);
        let k = es[i].0;
        let v = es[i].1;
        let e = encode_entry(k, v);
        lemma_encode_entry_len(k, v);
        assert(data.subrange(p, p + 2) =~= e.subrange(0, 2));
        assert(e.subrange(0, 2) =~= u16_bytes(k.len() as u16));
        assert(data.subrange(p + 2, p + 4) =~= e.subrange(2, 4));
        assert(e.subrange(2, 4) =~= u16_bytes(v.len() as u16));
        assert(stored_key_len(data, p) == k.len());
        assert(stored_value_len(data, p) == v.len());
        assert(data.subrange(p + 4, p + 4 + k.len()) =~= e.subrange(4, 4 + k.len() as int));
        assert(e.subrange(4, 4 + k.len() as int) =~= k);
        assert(data.subrange(p + 4 + k.len(), p + 4 + k.len() + v.len()) =~= e.subrange(
            4 + k.len() as int,
            (4 + k.len() + v.len()) as int,
        ));
        assert(e.subrange(4 + k.len() as int, (4 + k.len() + v.len()) as int) =~= v);
    }
}

} // verus!
