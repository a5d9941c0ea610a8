//! Sorted string tables: the index of their blocks, its encoding, and the
//! table metadata read back from a file.
use vstd::prelude::*;
use crate::codec::{be_value, get_u16_at, get_u32_at, get_u64_at, lemma_uint_roundtrips, put_slice, put_u16, put_u64, u16_bytes, u64_bytes};
use crate::key::{key_less, key_lt};

pub mod builder;

verus! {

/// The size of a table file's footer: four `u32`s.
pub const FOOTER_SIZE: usize = 16;

/// A block's index entry as plain values: offset, first key, last key.
pub type MetaView = (usize, Seq<u8>, Seq<u8>);

#[derive(Clone, Debug, PartialEq, Eq)]
pub struct BlockMeta {
    /// Offset of this data block.
    pub offset: usize,
    /// The first key of the data block.
    pub first_key: Vec<u8>,
    /// The last key of the data block.
    pub last_key: Vec<u8>,
}

impl BlockMeta {
    pub open spec fn view_of(&self) -> MetaView {
        (self.offset, self.first_key@, self.last_key@)
    }
}

/// The index entries of `ms` as plain values.
pub open spec fn metas_view(ms: Seq<BlockMeta>) -> Seq<MetaView> {
    Seq::new(ms.len(), |i: int| ms[i].view_of())
}

/// The bytes of one index entry: the offset as a `u64`, the two key lengths
/// as `u16`s, then the two keys.
pub open spec fn encode_meta_entry(m: MetaView) -> Seq<u8> {
    u64_bytes(m.0 as u64) + u16_bytes(m.1.len() as u16) + u16_bytes(m.2.len() as u16) + m.1 + m.2
}

/// The bytes of index entries back to back.
pub open spec fn encode_meta_entries(ms: Seq<MetaView>) -> Seq<u8>
    decreases ms.len(),
{
    if ms.len() == 0 {
        Seq::empty()
    } else {
        encode_meta_entries(ms.drop_last()) + encode_meta_entry(ms.last())
    }
}

/// The encoded index: the number of entries as a `u16`, then the entries.
pub open spec fn encode_block_meta_spec(ms: Seq<MetaView>) -> Seq<u8> {
    u16_bytes(ms.len() as u16) + encode_meta_entries(ms)
}

/// The `count` index entries that start at `pos`, or `None` when they run
/// past the end of `buf`.
pub open spec fn parse_meta_entries(buf: Seq<u8>, pos: int, count: nat) -> Option<Seq<MetaView>>
    decreases count,
{
    if count == 0 {
        Some(Seq::empty())
    } else if pos < 0 || pos + 12 > buf.len() {
        None
    } else {
        let offset = be_value(buf.subrange(pos, pos + 8));
        let first_len = be_value(buf.subrange(pos + 8, pos + 10));
        let last_len = be_value(buf.subrange(pos + 10, pos + 12));
        let end = pos + 12 + first_len + last_len;
        if end > buf.len() {
            None
        } else {
            match parse_meta_entries(buf, end, (count - 1) as nat) {
                Some(rest) => Some(
                    seq![
                        (
                            offset as u64 as usize,
                            buf.subrange(pos + 12, pos + 12 + first_len),
                            buf.subrange(pos + 12 + first_len, end),
                        ),
                    ] + rest,
                ),
                None => None,
            }
        }
    }
}

/// What `decode_block_meta` reads from `buf`; `None` when it would run past
/// the end. Bytes after the last entry are ignored.
pub open spec fn decode_block_meta_spec(buf: Seq<u8>) -> Option<Seq<MetaView>> {
    if buf.len() < 2 {
        None
    } else {
        parse_meta_entries(buf, 2, be_value(buf.subrange(0, 2)))
    }
}

/// The index can be encoded: at most `u16::MAX` entries, keys of at most
/// `u16::MAX` bytes.
pub open spec fn meta_encodable(ms: Seq<MetaView>) -> bool {
    &&& ms.len() <= u16::MAX
    &&& forall|i: int| 0 <= i < ms.len() ==> (#[trigger] ms[i]).1.len() <= u16::MAX && ms[i].2.len() <= u16::MAX
}

impl BlockMeta {
    /// Encode block meta to a buffer: the number of entries, then each
    /// entry's offset, key lengths and keys.
    pub fn encode_block_meta(block_meta: &[BlockMeta], buf: &mut Vec<u8>)
        requires
            meta_encodable(metas_view(block_meta@)),
        ensures
            final(buf)@ == old(buf)@ + encode_block_meta_spec(metas_view(block_meta@)),
    {
        let ghost ms = metas_view(block_meta@);
        let ghost start = buf@;
        put_u16(buf, block_meta.len() as u16);
        let mut i: usize = 0;
        while i < block_meta.len()
            invariant
                i <= block_meta@.len(),
                ms == metas_view(block_meta@),
                meta_encodable(ms),
                buf@ == start + u16_bytes(ms.len() as u16) + encode_meta_entries(ms.take(i as int)),
            decreases block_meta@.len() - i,
        {
            let m = &block_meta[i];
            assert(m.view_of() == ms[i as int]);
            put_u64(buf, m.offset as u64);
            put_u16(buf, m.first_key.len() as u16);
            put_u16(buf, m.last_key.len() as u16);
            put_slice(buf, m.first_key.as_slice());
            put_slice(buf, m.last_key.as_slice());
            proof {
                assert(ms.take(i + 1).drop_last() =~= ms.take(i as int));
                assert(buf@ =~= start + u16_bytes(ms.len() as u16) + encode_meta_entries(ms.take(i + 1)));
            }
            i = i + 1;
        }
        assert(ms.take(i as int) =~= ms);
    }

    /// Tells whether `decode_block_meta` can read `buf` to the end of its
    /// last entry.
    pub fn is_decodable(buf: &[u8]) -> (r: bool)
        ensures
            r == decode_block_meta_spec(buf@) is Some,
    {
        if buf.len() < 2 {
            return false;
        }
        let len = get_u16_at(buf, 0);
        let mut pos: usize = 2;
        let mut i: u16 = 0;
        while i < len
            invariant
                i <= len,
                pos <= buf@.len(),
                len as nat == be_value(buf@.subrange(0, 2)),
                decode_block_meta_spec(buf@) is Some <==> parse_meta_entries(
                    buf@,
                    pos as int,
                    (len - i) as nat,
                ) is Some,
            decreases len - i,
        {
            if buf.len() < 12 || pos > buf.len() - 12 {
                return false;
            }
            let first_key_len = get_u16_at(buf, pos + 8) as usize;
            let last_key_len = get_u16_at(buf, pos + 10) as usize;
            if buf.len() - pos - 12 < first_key_len + last_key_len {
                return false;
            }
            pos = pos + 12 + first_key_len + last_key_len;
            i = i + 1;
        }
        true
    }

    /// Decode block meta from a buffer.
    pub fn decode_block_meta(buf: &[u8]) -> (out: Vec<BlockMeta>)
        requires
            decode_block_meta_spec(buf@) is Some,
        ensures
            metas_view(out@) == decode_block_meta_spec(buf@).unwrap(),
    {
        let buf_len = buf.len();
        let len = get_u16_at(buf, 0);
        let mut block_meta: Vec<BlockMeta> = Vec::new();
        let mut pos: usize = 2;
        let mut i: u16 = 0;
        while i < len
            invariant
                i <= len,
                pos <= buf@.len(),
                buf_len == buf@.len(),
                len as nat == be_value(buf@.subrange(0, 2)),
                parse_meta_entries(buf@, pos as int, (len - i) as nat) is Some,
                decode_block_meta_spec(buf@).unwrap() == metas_view(block_meta@) + parse_meta_entries(
                    buf@,
                    pos as int,
                    (len - i) as nat,
                ).unwrap(),
            decreases len - i,
        {
            let offset = get_u64_at(buf, pos);
            let first_key_len = get_u16_at(buf, pos + 8) as usize;
            let last_key_len = get_u16_at(buf, pos + 10) as usize;
            let first_start = pos + 12;
            let last_start = first_start + first_key_len;
            let end = last_start + last_key_len;
            let first_key = vstd::slice::slice_to_vec(vstd::slice::slice_subrange(buf, first_start, last_start));
            let last_key = vstd::slice::slice_to_vec(vstd::slice::slice_subrange(buf, last_start, end));
            let ghost before = metas_view(block_meta@);
            block_meta.push(BlockMeta { offset: offset as usize, first_key, last_key });
            proof {
                let rest = parse_meta_entries(buf@, end as int, (len - i - 1) as nat).unwrap();
                assert(metas_view(block_meta@) =~= before.push(block_meta@.last().view_of()));
                assert(metas_view(block_meta@) + rest =~= before + parse_meta_entries(
                    buf@,
                    pos as int,
                    (len - i) as nat,
                ).unwrap());
            }
            pos = end;
            i = i + 1;
        }
        assert(metas_view(block_meta@) =~= decode_block_meta_spec(buf@).unwrap());
        block_meta
    }
}

proof fn lemma_encode_meta_entries_first(ms: Seq<MetaView>)
    requires
        ms.len() > 0,
    ensures
        encode_meta_entries(ms) == encode_meta_entry(ms[0]) + encode_meta_entries(ms.drop_first()),
    decreases ms.len(),
{
    if ms.len() == 1 {
        assert(ms.drop_first() =~= Seq::<MetaView>::empty());
        assert(ms.drop_last() =~= Seq::<MetaView>::empty());
        assert(encode_meta_entries(ms.drop_last()) =~= Seq::<u8>::empty());
        assert(encode_meta_entries(ms.drop_first()) =~= Seq::<u8>::empty());
        assert(encode_meta_entries(ms) =~= encode_meta_entry(ms[0]) + encode_meta_entries(ms.drop_first()));
    } else {
        lemma_encode_meta_entries_first(ms.drop_last());
        assert(ms.drop_last().drop_first() =~= ms.drop_first().drop_last());
        assert(ms.drop_first().last() == ms.last());
        assert(ms.drop_last()[0] == ms[0]);
        assert(encode_meta_entries(ms) =~= encode_meta_entry(ms[0]) + encode_meta_entries(ms.drop_first()));
    }
}

proof fn lemma_meta_entry_fields(m: MetaView)
    requires
        m.1.len() <= u16::MAX,
        m.2.len() <= u16::MAX,
    ensures
        ({
            let e = encode_meta_entry(m);
            let fl = m.1.len() as int;
            let ll = m.2.len() as int;
            &&& e.len() == 12 + fl + ll
            &&& be_value(e.subrange(0, 8)) as u64 as usize == m.0
            &&& be_value(e.subrange(8, 10)) == fl
            &&& be_value(e.subrange(10, 12)) == ll
            &&& e.subrange(12, 12 + fl) == m.1
            &&& e.subrange(12 + fl, 12 + fl + ll) == m.2
        }),
{
    lemma_uint_roundtrips();
    let e = encode_meta_entry(m);
    let fl = m.1.len() as int;
    assert(e.subrange(0, 8) =~= u64_bytes(m.0 as u64));
    assert(e.subrange(8, 10) =~= u16_bytes(m.1.len() as u16));
    assert(e.subrange(10, 12) =~= u16_bytes(m.2.len() as u16));
    assert(e.subrange(12, 12 + fl) =~= m.1);
    assert(e.subrange(12 + fl, e.len() as int) =~= m.2);
}

#[verifier::rlimit(30)]
proof fn lemma_parse_encoded_entries(pre: Seq<u8>, ms: Seq<MetaView>, post: Seq<u8>)
    requires
        forall|i: int| 0 <= i < ms.len() ==> (#[trigger] ms[i]).1.len() <= u16::MAX && ms[i].2.len() <= u16::MAX,
    ensures
        parse_meta_entries(pre + encode_meta_entries(ms) + post, pre.len() as int, ms.len()) == Some(ms),
    decreases ms.len(),
{
    if ms.len() == 0 {
        assert(Seq::<MetaView>::empty() =~= ms);
    } else {
        lemma_encode_meta_entries_first(ms);
        let m = ms[0];
        let e = encode_meta_entry(m);
        let rest = ms.drop_first();
        let tail = encode_meta_entries(rest) + post;
        let buf = pre + encode_meta_entries(ms) + post;
        let p = pre.len() as int;
        assert(buf =~= pre + (e + tail));
        assert(buf =~= (pre + e) + encode_meta_entries(rest) + post);
        assert forall|i: int| 0 <= i < rest.len() implies (#[trigger] rest[i]).1.len() <= u16::MAX
            && rest[i].2.len() <= u16::MAX by {
            assert(rest[i] == ms[i + 1]);
        }
        lemma_parse_encoded_entries(pre + e, rest, post);
        lemma_meta_entry_fields(m);
        let fl = m.1.len() as int;
        let ll = m.2.len() as int;
        assert(buf.subrange(p, p + 8) =~= e.subrange(0, 8));
        assert(buf.subrange(p + 8, p + 10) =~= e.subrange(8, 10));
        assert(buf.subrange(p + 10, p + 12) =~= e.subrange(10, 12));
        assert(buf.subrange(p + 12, p + 12 + fl) =~= e.subrange(12, 12 + fl));
        assert(buf.subrange(p + 12 + fl, p + 12 + fl + ll) =~= e.subrange(12 + fl, 12 + fl + ll));
        assert(seq![m] + rest =~= ms);
    }
}

/// Decoding an encoded index gives back the index, when it can be encoded.
pub proof fn lemma_block_meta_roundtrip(ms: Seq<MetaView>, trailing: Seq<u8>)
    requires
        meta_encodable(ms),
    ensures
        decode_block_meta_spec(encode_block_meta_spec(ms) + trailing) == Some(ms),
{
    lemma_uint_roundtrips();
    let head = u16_bytes(ms.len() as u16);
    let buf = encode_block_meta_spec(ms) + trailing;
    assert(buf =~= head + encode_meta_entries(ms) + trailing);
    assert(buf.subrange(0, 2) =~= head);
    lemma_parse_encoded_entries(head, ms, trailing);
}

/// Why a table could not be opened.
pub enum TableError {
    /// The table's index has no entries, so the table has no first key.
    NoFirstKey,
}

/// An SSTable's metadata: the index of its blocks and where that index starts.
pub struct SsTable {
    /// The meta blocks that hold info for data blocks.
    block_meta: Vec<BlockMeta>,
    /// The offset that indicates the start point of meta blocks in `file`.
    block_meta_offset: usize,
    id: usize,
    first_key: Vec<u8>,
    last_key: Vec<u8>,
    /// The maximum timestamp stored in this SST.
    max_ts: u64,
    /// The size of the table's file.
    table_size: u64,
}

impl SsTable {
    /// The index of the table's blocks.
    pub closed spec fn index(&self) -> Seq<MetaView> {
        metas_view(self.block_meta@)
    }

    /// Where the index starts in the file.
    pub closed spec fn meta_offset(&self) -> usize {
        self.block_meta_offset
    }

    pub closed spec fn id_view(&self) -> usize {
        self.id
    }

    pub closed spec fn first_key_view(&self) -> Seq<u8> {
        self.first_key@
    }

    pub closed spec fn last_key_view(&self) -> Seq<u8> {
        self.last_key@
    }

    pub closed spec fn max_ts_view(&self) -> u64 {
        self.max_ts
    }

    pub closed spec fn size_view(&self) -> u64 {
        self.table_size
    }

    /// Reads where the index starts from a table file's footer, its last
    /// `FOOTER_SIZE` bytes: the index length, the index offset, the bloom
    /// filter length and the bloom filter offset, as `u32`s. The offset is
    /// the second of them.
    pub fn decode_meta_offset(footer: &[u8]) -> (offset: u64)
        requires
            footer@.len() >= 8,
        ensures
            offset == be_value(footer@.subrange(4, 8)),
    {
        get_u32_at(footer, 4) as u64
    }

    /// Opens a table from its size, where its index starts, and the bytes
    /// from there to the end of the file.
    pub fn open(id: usize, table_size: u64, block_meta_offset: u64, meta_data: &[u8]) -> (r: Result<Self, TableError>)
        requires
            decode_block_meta_spec(meta_data@) is Some,
        ensures
            ({
                let ms = decode_block_meta_spec(meta_data@).unwrap();
                match r {
                    Ok(t) => {
                        &&& ms.len() > 0
                        &&& t.index() == ms
                        &&& t.meta_offset() == block_meta_offset as usize
                        &&& t.id_view() == id
                        &&& t.first_key_view() == ms[0].1
                        &&& t.last_key_view() == ms.last().2
                        &&& t.max_ts_view() == 0
                        &&& t.size_view() == table_size
                    },
                    Err(e) => ms.len() == 0 && e is NoFirstKey,
                }
            }),
    {
        let block_meta = BlockMeta::decode_block_meta(meta_data);
        if block_meta.len() == 0 {
            return Err(TableError::NoFirstKey);
        }
        let first_key = vstd::slice::slice_to_vec(block_meta[0].first_key.as_slice());
        let last_key = vstd::slice::slice_to_vec(block_meta[block_meta.len() - 1].last_key.as_slice());
        proof {
            assert(block_meta@[0].view_of() == metas_view(block_meta@)[0]);
            assert(block_meta@.last().view_of() == metas_view(block_meta@).last());
        }
        Ok(Self {
            block_meta,
            block_meta_offset: block_meta_offset as usize,
            id,
            first_key,
            last_key,
            max_ts: 0,
            table_size,
        })
    }

    /// Create a mock SST with only first key + last key metadata
    pub fn create_meta_only(id: usize, file_size: u64, first_key: Vec<u8>, last_key: Vec<u8>) -> (t: Self)
        ensures
            t.index() == Seq::<MetaView>::empty(),
            t.meta_offset() == 0,
            t.id_view() == id,
            t.first_key_view() == first_key@,
            t.last_key_view() == last_key@,
            t.max_ts_view() == 0,
            t.size_view() == file_size,
    {
        let t = Self {
            block_meta: Vec::new(),
            block_meta_offset: 0,
            id,
            first_key,
            last_key,
            max_ts: 0,
            table_size: file_size,
        };
        assert(t.index() =~= Seq::<MetaView>::empty());
        t
    }

    /// Where block `block_idx` lies in the file: its offset and its length,
    /// which runs to the next block, or to the index for the last block.
    pub fn block_location(&self, block_idx: usize) -> (r: (usize, usize))
        requires
            block_idx < self.index().len(),
            block_idx == self.index().len() - 1 ==> self.index()[block_idx as int].0 <= self.meta_offset(),
            block_idx < self.index().len() - 1 ==> self.index()[block_idx as int].0 <= self.index()[block_idx + 1].0,
        ensures
            r.0 == self.index()[block_idx as int].0,
            block_idx == self.index().len() - 1 ==> r.1 == self.meta_offset() - r.0,
            block_idx < self.index().len() - 1 ==> r.1 == self.index()[block_idx + 1].0 - r.0,
    {
        let n = self.block_meta.len();
        let offset = self.block_meta[block_idx].offset;
        proof {
            assert(self.block_meta@[block_idx as int].view_of() == self.index()[block_idx as int]);
        }
        let len = if block_idx == n - 1 {
            self.block_meta_offset - offset
        } else {
            proof {
                assert(self.block_meta@[block_idx + 1].view_of() == self.index()[block_idx + 1]);
            }
            self.block_meta[block_idx + 1].offset - offset
        };
        (offset, len)
    }

    /// Finds the block that may contain `key`: with blocks sorted by first
    /// key, the last block whose first key is not greater than `key`; the
    /// first block when every first key is greater.
    pub fn find_block_idx(&self, key: &[u8]) -> (r: usize)
        ensures
            ({
                let ms = self.index();
                ||| r == 0 && (ms.len() == 0 || key_lt(key@, ms[0].1))
                ||| r < ms.len() && (forall|j: int| 0 <= j <= r ==> !key_lt(key@, #[trigger] ms[j].1)) && (r
                    + 1 == ms.len() || key_lt(key@, ms[r + 1].1))
            }),
    {
        let ghost ms = self.index();
        let mut i: usize = 0;
        while i < self.block_meta.len() && !key_less(key, self.block_meta[i].first_key.as_slice())
            invariant
                i <= self.block_meta@.len(),
                ms == self.index(),
                forall|j: int| 0 <= j < i ==> !key_lt(key@, #[trigger] ms[j].1),
            decreases self.block_meta@.len() - i,
        {
            proof {
                assert(self.block_meta@[i as int].view_of() == ms[i as int]);
            }
            i = i + 1;
        }
        proof {
            if i < self.block_meta@.len() {
                assert(self.block_meta@[i as int].view_of() == ms[i as int]);
            }
        }
        if i == 0 {
            0
        } else {
            i - 1
        }
    }

    /// The index of the table's blocks.
    pub fn block_meta(&self) -> (m: &[BlockMeta])
        ensures
            metas_view(m@) == self.index(),
    {
        self.block_meta.as_slice()
    }

    /// Where the index starts in the file.
    pub fn block_meta_offset(&self) -> (o: usize)
        ensures
            o == self.meta_offset(),
    {
        self.block_meta_offset
    }

    /// Get number of data blocks.
    pub fn num_of_blocks(&self) -> (n: usize)
        ensures
            n == self.index().len(),
    {
        self.block_meta.len()
    }

    pub fn first_key(&self) -> (k: &[u8])
        ensures
            k@ == self.first_key_view(),
    {
        self.first_key.as_slice()
    }

    pub fn last_key(&self) -> (k: &[u8])
        ensures
            k@ == self.last_key_view(),
    {
        self.last_key.as_slice()
    }

    pub fn table_size(&self) -> (n: u64)
        ensures
            n == self.size_view(),
    {
        self.table_size
    }

    pub fn sst_id(&self) -> (n: usize)
        ensures
            n == self.id_view(),
    {
        self.id
    }

    pub fn max_ts(&self) -> (n: u64)
        ensures
            n == self.max_ts_view(),
    {
        self.max_ts
    }
}

} // verus!
