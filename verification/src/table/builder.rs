//! Builds a table: entries go into blocks of a target size, each finished
//! block is appended to the data and indexed.
use vstd::prelude::*;
use crate::block::{decode_block, encode_block, encode_entries, entry_offsets, lemma_block_codec_roundtrip, Entry};
use crate::block::builder::{first_nonempty_key, BlockBuilder};
use crate::codec::{be_value, lemma_uint_roundtrips, put_slice, put_u32, u32_bytes};
use crate::iterators::sorted;
use crate::key::key_lt;
use crate::table::{
    decode_block_meta_spec, encode_block_meta_spec, lemma_block_meta_roundtrip, meta_encodable, metas_view,
    BlockMeta, MetaView,
};

verus! {

/// The value `farmhash::fingerprint32` gives for these bytes.
pub uninterp spec fn farmhash_fingerprint32(bytes: Seq<u8>) -> u32;

/// The little-endian `u32` at `i`, as farmhash reads words.
pub open spec fn le_u32_at(s: Seq<u8>, i: int) -> int {
    s[i] + 256 * s[i + 1] + 65536 * s[i + 2] + 16777216 * s[i + 3]
}

/// `farmhash::fingerprint32` adds with unchecked `+` for keys of 5 to 24
/// bytes; these are the keys where such an addition overflows, which panics
/// in a build with overflow checks.
pub open spec fn fingerprint32_overflows(key: Seq<u8>) -> bool {
    let len = key.len() as int;
    if 5 <= len <= 12 {
        ||| len + le_u32_at(key, 0) > u32::MAX
        ||| 5 * len + le_u32_at(key, len - 4) > u32::MAX
        ||| 9 + le_u32_at(key, if len >= 8 { 4 } else { 0 }) > u32::MAX
    } else if 13 <= len <= 24 {
        (le_u32_at(key, len / 2) * 0xcc9e2d51) % 0x1_0000_0000 + len > u32::MAX
    } else {
        false
    }
}

/// The little-endian `u32` at `i`, widened.
fn le_word(key: &[u8], i: usize) -> (w: u64)
    requires
        i + 4 <= key@.len(),
    ensures
        w == le_u32_at(key@, i as int),
        w <= u32::MAX,
{
    key[i] as u64 + 256 * (key[i + 1] as u64) + 65536 * (key[i + 2] as u64) + 16777216 * (key[i + 3] as u64)
}

/// Tells whether a key can be hashed: `false` exactly on the keys that
/// `fingerprint32_overflows` names.
pub fn can_hash_key(key: &[u8]) -> (r: bool)
    ensures
        r == !fingerprint32_overflows(key@),
{
    let len = key.len();
    let max: u64 = 0xffff_ffff;
    if 5 <= len && len <= 12 {
        let n = len as u64;
        let second = if len >= 8 { 4 } else { 0 };
        !(n + le_word(key, 0) > max || 5 * n + le_word(key, len - 4) > max || 9 + le_word(key, second) > max)
    } else if 13 <= len && len <= 24 {
        let w = le_word(key, len / 2);
        assert(w * 0xcc9e2d51 <= 0xffff_ffff * 0xcc9e2d51) by (nonlinear_arith)
            requires
                w <= 0xffff_ffff,
        ;
        let m = (w * 0xcc9e2d51) % 0x1_0000_0000;
        !(m + len as u64 > max)
    } else {
        true
    }
}

/// Hashes a key with `farmhash::fingerprint32`.
/// Claimed: the result is the fingerprint of the bytes of `key` and of
/// nothing else, stable across runs and machines. The call panics, in a
/// build with overflow checks, on the keys `fingerprint32_overflows` names
/// (an unchecked `+` in the 5-12 and 13-24 byte paths); `requires` leaves
/// them out.
#[verifier::external_body]
fn fingerprint32(key: &[u8]) -> (h: u32)
    requires
        !fingerprint32_overflows(key@),
    ensures
        h == farmhash_fingerprint32(key@),
{
    farmhash::fingerprint32(key)
}

/// The bytes of a finished block holding `es`.
pub open spec fn encoded_block_of(es: Seq<Entry>) -> Seq<u8> {
    encode_block(encode_entries(es), entry_offsets(es))
}

/// Finished blocks back to back.
pub open spec fn concat_blocks(bs: Seq<Seq<Entry>>) -> Seq<u8>
    decreases bs.len(),
{
    if bs.len() == 0 {
        Seq::empty()
    } else {
        concat_blocks(bs.drop_last()) + encoded_block_of(bs.last())
    }
}

/// The key of the last of `es`, or the empty key.
pub open spec fn last_key_of(es: Seq<Entry>) -> Seq<u8> {
    if es.len() == 0 {
        Seq::empty()
    } else {
        es.last().0
    }
}

/// The bytes of a table file: the blocks, the index, the bloom filter, then
/// the index length, the index offset, the filter length and the filter
/// offset as `u32`s.
pub open spec fn table_file(blocks: Seq<u8>, index: Seq<MetaView>, bloom: Seq<u8>) -> Seq<u8> {
    let meta = encode_block_meta_spec(index);
    blocks + meta + bloom + u32_bytes(meta.len() as u32) + u32_bytes(blocks.len() as u32) + u32_bytes(
        bloom.len() as u32,
    ) + u32_bytes((blocks.len() + meta.len()) as u32)
}

/// The blocks of a prefix of `bs` are a prefix of the blocks of `bs`.
proof fn lemma_concat_blocks_prefix(bs: Seq<Seq<Entry>>, j: int)
    requires
        0 <= j <= bs.len(),
    ensures
        concat_blocks(bs.take(j)).len() <= concat_blocks(bs).len(),
        concat_blocks(bs).subrange(0, concat_blocks(bs.take(j)).len() as int) == concat_blocks(bs.take(j)),
    decreases bs.len(),
{
    if j == bs.len() {
        assert(bs.take(j) =~= bs);
        assert(concat_blocks(bs).subrange(0, concat_blocks(bs).len() as int) =~= concat_blocks(bs));
    } else {
        let p = bs.drop_last();
        assert(p.take(j) =~= bs.take(j));
        lemma_concat_blocks_prefix(p, j);
        let a = concat_blocks(p);
        let b = encoded_block_of(bs.last());
        let k = concat_blocks(bs.take(j)).len() as int;
        assert((a + b).subrange(0, k) =~= a.subrange(0, k));
    }
}

/// Block `i` sits right after the first `i` blocks.
proof fn lemma_concat_blocks_split(bs: Seq<Seq<Entry>>, i: int)
    requires
        0 <= i < bs.len(),
    ensures
        ({
            let p = concat_blocks(bs.take(i)).len() as int;
            let e = encoded_block_of(bs[i]);
            &&& concat_blocks(bs.take(i + 1)).len() == p + e.len()
            &&& p + e.len() <= concat_blocks(bs).len()
            &&& concat_blocks(bs).subrange(p, p + e.len()) == e
        }),
{
    let t = bs.take(i + 1);
    assert(t.drop_last() =~= bs.take(i));
    lemma_concat_blocks_prefix(bs, i + 1);
    let p = concat_blocks(bs.take(i)).len() as int;
    let e = encoded_block_of(bs[i]);
    let whole = concat_blocks(bs);
    let q = concat_blocks(t).len() as int;
    assert(concat_blocks(t) == concat_blocks(bs.take(i)) + e);
    assert(whole.subrange(p, p + e.len()) =~= whole.subrange(0, q).subrange(p, p + e.len()));
    assert(concat_blocks(t).subrange(p, p + e.len()) =~= e);
}

/// A table file reads back: its footer's second `u32` gives where the index
/// starts, the bytes before are the blocks, and the bytes from there on
/// decode to the index, when the index can be encoded and the blocks take
/// less than 4 GiB.
pub proof fn lemma_table_file_reopens(blocks: Seq<u8>, index: Seq<MetaView>, bloom: Seq<u8>)
    requires
        meta_encodable(index),
        blocks.len() < 0x1_0000_0000,
    ensures
        ({
            let f = table_file(blocks, index, bloom);
            &&& f.len() >= 16
            &&& be_value(f.subrange(f.len() - 12, f.len() - 8)) == blocks.len()
            &&& f.subrange(0, blocks.len() as int) == blocks
            &&& decode_block_meta_spec(f.subrange(blocks.len() as int, f.len() as int)) == Some(index)
        }),
{
    lemma_uint_roundtrips();
    let meta = encode_block_meta_spec(index);
    let f = table_file(blocks, index, bloom);
    let w1 = u32_bytes(meta.len() as u32);
    let w2 = u32_bytes(blocks.len() as u32);
    let w3 = u32_bytes(bloom.len() as u32);
    let w4 = u32_bytes((blocks.len() + meta.len()) as u32);
    assert(f == blocks + meta + bloom + w1 + w2 + w3 + w4);
    assert(f.subrange(f.len() - 12, f.len() - 8) =~= w2);
    assert(f.subrange(0, blocks.len() as int) =~= blocks);
    let tail = bloom + w1 + w2 + w3 + w4;
    assert(f.subrange(blocks.len() as int, f.len() as int) =~= meta + tail);
    lemma_block_meta_roundtrip(index, tail);
}

/// The footer of a table file records the sections before it: the index's
/// length, the index's offset (the blocks' length), the bloom filter's
/// length and the bloom filter's offset, each a big-endian `u32`; the
/// sections sit back to back in that order, blocks first.
pub proof fn lemma_table_file_footer(blocks: Seq<u8>, index: Seq<MetaView>, bloom: Seq<u8>)
    requires
        blocks.len() + encode_block_meta_spec(index).len() < 0x1_0000_0000,
        bloom.len() < 0x1_0000_0000,
    ensures
        ({
            let f = table_file(blocks, index, bloom);
            let meta = encode_block_meta_spec(index);
            let n = f.len() as int;
            &&& n == blocks.len() + meta.len() + bloom.len() + 16
            &&& be_value(f.subrange(n - 16, n - 12)) == meta.len()
            &&& be_value(f.subrange(n - 12, n - 8)) == blocks.len()
            &&& be_value(f.subrange(n - 8, n - 4)) == bloom.len()
            &&& be_value(f.subrange(n - 4, n)) == blocks.len() + meta.len()
            &&& f.subrange(0, blocks.len() as int) == blocks
            &&& f.subrange(blocks.len() as int, (blocks.len() + meta.len()) as int) == meta
            &&& f.subrange((blocks.len() + meta.len()) as int, (blocks.len() + meta.len() + bloom.len()) as int) == bloom
        }),
{
    lemma_uint_roundtrips();
    let meta = encode_block_meta_spec(index);
    let f = table_file(blocks, index, bloom);
    let w1 = u32_bytes(meta.len() as u32);
    let w2 = u32_bytes(blocks.len() as u32);
    let w3 = u32_bytes(bloom.len() as u32);
    let w4 = u32_bytes((blocks.len() + meta.len()) as u32);
    assert(f == blocks + meta + bloom + w1 + w2 + w3 + w4);
    let n = f.len() as int;
    assert(f.subrange(n - 16, n - 12) =~= w1);
    assert(f.subrange(n - 12, n - 8) =~= w2);
    assert(f.subrange(n - 8, n - 4) =~= w3);
    assert(f.subrange(n - 4, n) =~= w4);
    assert(f.subrange(0, blocks.len() as int) =~= blocks);
    assert(f.subrange(blocks.len() as int, (blocks.len() + meta.len()) as int) =~= meta);
    assert(f.subrange((blocks.len() + meta.len()) as int, (blocks.len() + meta.len() + bloom.len()) as int) =~= bloom);
}

/// The entries of `bs`, one block after another.
pub open spec fn flatten(bs: Seq<Seq<Entry>>) -> Seq<Entry>
    decreases bs.len(),
{
    if bs.len() == 0 {
        Seq::empty()
    } else {
        flatten(bs.drop_last()) + bs.last()
    }
}

/// The entries of a prefix of `bs` are a prefix of the entries of `bs`.
proof fn lemma_flatten_prefix(bs: Seq<Seq<Entry>>, j: int)
    requires
        0 <= j <= bs.len(),
    ensures
        flatten(bs.take(j)).len() <= flatten(bs).len(),
        forall|p: int| 0 <= p < flatten(bs.take(j)).len() ==> #[trigger] flatten(bs.take(j))[p] == flatten(bs)[p],
    decreases bs.len(),
{
    if j == bs.len() {
        assert(bs.take(j) =~= bs);
    } else {
        let q = bs.drop_last();
        assert(q.take(j) =~= bs.take(j));
        lemma_flatten_prefix(q, j);
    }
}

/// Entry `k` of block `i` comes right after the entries of the blocks before it.
proof fn lemma_flatten_position(bs: Seq<Seq<Entry>>, i: int, k: int)
    requires
        0 <= i < bs.len(),
        0 <= k < bs[i].len(),
    ensures
        flatten(bs.take(i)).len() + bs[i].len() == flatten(bs.take(i + 1)).len(),
        flatten(bs.take(i)).len() + k < flatten(bs).len(),
        flatten(bs)[flatten(bs.take(i)).len() + k] == bs[i][k],
{
    assert(bs.take(i + 1).drop_last() =~= bs.take(i));
    lemma_flatten_prefix(bs, i + 1);
    let p = flatten(bs.take(i)).len() + k;
    assert(flatten(bs.take(i + 1))[p] == bs[i][k]);
}

/// The first non-empty key of entries whose first key is non-empty is that key.
proof fn lemma_first_nonempty_key(es: Seq<Entry>)
    requires
        es.len() > 0,
        es[0].0.len() > 0,
    ensures
        first_nonempty_key(es) == es[0].0,
    decreases es.len(),
{
    if es.len() > 1 {
        assert(es.drop_last()[0] == es[0]);
        lemma_first_nonempty_key(es.drop_last());
    } else {
        assert(es.drop_last() =~= Seq::<Entry>::empty());
        assert(first_nonempty_key(es.drop_last()).len() == 0);
        assert(es.last() == es[0]);
    }
}

/// `m` records the last key of the entries `es`, and their first non-empty
/// key when they have one.
spec fn records_keys(m: BlockMeta, es: Seq<Entry>) -> bool {
    &&& m.last_key@ == last_key_of(es)
    &&& first_nonempty_key(es).len() > 0 ==> m.first_key@ == first_nonempty_key(es)
}

/// Builds an SSTable from key-value pairs.
pub struct SsTableBuilder {
    builder: BlockBuilder,
    first_key: Vec<u8>,
    last_key: Vec<u8>,
    data: Vec<u8>,
    meta: Vec<BlockMeta>,
    block_size: usize,
    key_hashes: Vec<u32>,
    /// The entries of each finished block, in order.
    blocks: Ghost<Seq<Seq<Entry>>>,
}

impl SsTableBuilder {
    /// The block being filled.
    pub closed spec fn block_builder(&self) -> BlockBuilder {
        self.builder
    }

    /// The entries of each finished block.
    pub closed spec fn finished_blocks(&self) -> Seq<Seq<Entry>> {
        self.blocks@
    }

    /// The finished blocks' bytes.
    pub closed spec fn data_view(&self) -> Seq<u8> {
        self.data@
    }

    /// The index of the finished blocks.
    pub closed spec fn index(&self) -> Seq<MetaView> {
        metas_view(self.meta@)
    }

    /// The hash of every key added, in order.
    pub closed spec fn hashes(&self) -> Seq<u32> {
        self.key_hashes@
    }

    /// The first key of the block being filled, as the index will record it.
    pub closed spec fn first_key_view(&self) -> Seq<u8> {
        self.first_key@
    }

    /// The last key of the block being filled.
    pub closed spec fn last_key_view(&self) -> Seq<u8> {
        self.last_key@
    }

    /// The target block size.
    pub closed spec fn target_size(&self) -> nat {
        self.block_size as nat
    }

    /// The data is the finished blocks back to back, each indexed at its
    /// start; the keys recorded for the open block are its first non-empty
    /// key and its last key.
    pub closed spec fn wf(&self) -> bool {
        &&& self.layout_wf()
        &&& self.first_key@ == first_nonempty_key(self.builder.entries())
        &&& self.blocks_nonempty()
    }

    /// Every entry added so far, in order: those of the finished blocks,
    /// then those of the open block.
    pub closed spec fn added(&self) -> Seq<Entry> {
        flatten(self.blocks@) + self.builder.entries()
    }

    spec fn blocks_nonempty(&self) -> bool {
        forall|i: int| 0 <= i < self.blocks@.len() ==> (#[trigger] self.blocks@[i]).len() > 0
    }

    /// When the keys are added in increasing order, the index lists the
    /// blocks in key order: each records the last key of its block, every
    /// block after the first records its own first key, and a block's last
    /// key is below the first key of every later block.
    pub proof fn lemma_index_ordered(&self)
        requires
            self.wf(),
            sorted(self.added()),
        ensures
            forall|i: int|
                0 <= i < self.index().len() ==> (#[trigger] self.index()[i]).2 == self.finished_blocks()[i].last().0,
            forall|j: int|
                0 < j < self.index().len() ==> (#[trigger] self.index()[j]).1 == self.finished_blocks()[j][0].0,
            forall|i: int, j: int|
                0 <= i < j < self.index().len() ==> key_lt(
                    #[trigger] self.index()[i].2,
                    #[trigger] self.index()[j].1,
                ),
    {
        let bs = self.blocks@;
        let all = self.added();
        let f = flatten(bs);
        self.lemma_index_records_keys();
        assert forall|p: int| 0 <= p < f.len() implies #[trigger] f[p] == all[p] by {
        }
        assert forall|i: int| 0 <= i < self.index().len() implies (#[trigger] self.index()[i]).2
            == self.finished_blocks()[i].last().0 by {
            assert(bs[i].len() > 0);
        }
        assert forall|j: int| 0 < j < self.index().len() implies (#[trigger] self.index()[j]).1
            == self.finished_blocks()[j][0].0 by {
            assert(bs[j].len() > 0 && bs[0].len() > 0);
            lemma_flatten_position(bs, 0, 0);
            lemma_flatten_position(bs, j, 0);
            lemma_flatten_prefix(bs, j);
            assert(bs.take(0) =~= Seq::<Seq<Entry>>::empty());
            assert(flatten(bs.take(1)).len() <= flatten(bs.take(j)).len()) by {
                lemma_flatten_prefix(bs.take(j), 1);
                assert(bs.take(j).take(1) =~= bs.take(1));
            }
            let p = flatten(bs.take(j)).len() as int;
            assert(key_lt(all[0].0, all[p].0));
            assert(bs[j][0].0.len() > 0);
            lemma_first_nonempty_key(bs[j]);
        }
        assert forall|i: int, j: int| 0 <= i < j < self.index().len() implies key_lt(
            #[trigger] self.index()[i].2,
            #[trigger] self.index()[j].1,
        ) by {
            assert(bs[i].len() > 0 && bs[j].len() > 0);
            lemma_flatten_position(bs, i, bs[i].len() - 1);
            lemma_flatten_position(bs, j, 0);
            assert(flatten(bs.take(i + 1)).len() <= flatten(bs.take(j)).len()) by {
                lemma_flatten_prefix(bs.take(j), i + 1);
                assert(bs.take(j).take(i + 1) =~= bs.take(i + 1));
            }
            let p = flatten(bs.take(i)).len() + bs[i].len() - 1;
            let q = flatten(bs.take(j)).len() as int;
            assert(key_lt(all[p].0, all[q].0));
            if j > 0 {
                assert(self.index()[j].1 == bs[j][0].0);
            }
        }
    }

    spec fn layout_wf(&self) -> bool {
        &&& self.builder.wf()
        &&& self.builder.target_size() == self.block_size
        &&& self.data@ == concat_blocks(self.blocks@)
        &&& self.meta@.len() == self.blocks@.len()
        &&& forall|i: int|
            0 <= i < self.meta@.len() ==> #[trigger] self.meta@[i].offset as int == concat_blocks(
                self.blocks@.take(i),
            ).len()
        &&& self.last_key@ == last_key_of(self.builder.entries())
        &&& forall|i: int| 0 <= i < self.meta@.len() ==> #[trigger] records_keys(self.meta@[i], self.blocks@[i])
    }

    /// Each index entry records the last key of its block, and its first
    /// non-empty key when it has one.
    pub proof fn lemma_index_records_keys(&self)
        requires
            self.wf(),
        ensures
            forall|i: int|
                0 <= i < self.index().len() ==> (#[trigger] self.index()[i]).2 == last_key_of(
                    self.finished_blocks()[i],
                ) && (first_nonempty_key(self.finished_blocks()[i]).len() > 0 ==> self.index()[i].1
                    == first_nonempty_key(self.finished_blocks()[i])),
    {
        assert forall|i: int| 0 <= i < self.index().len() implies (#[trigger] self.index()[i]).2 == last_key_of(
            self.finished_blocks()[i],
        ) && (first_nonempty_key(self.finished_blocks()[i]).len() > 0 ==> self.index()[i].1
            == first_nonempty_key(self.finished_blocks()[i])) by {
            assert(self.index()[i] == self.meta@[i].view_of());
            assert(records_keys(self.meta@[i], self.blocks@[i]));
        }
    }

    /// The open block is filled up to the builder's target size.
    pub proof fn lemma_open_block_target(&self)
        requires
            self.wf(),
        ensures
            self.block_builder().target_size() == self.target_size(),
            self.block_builder().wf(),
    {
    }

    /// The data is the finished blocks back to back, and each index entry
    /// records where its block starts: the size of the blocks before it.
    pub proof fn lemma_index_is_running_size(&self)
        requires
            self.wf(),
        ensures
            self.data_view() == concat_blocks(self.finished_blocks()),
            self.index().len() == self.finished_blocks().len(),
            forall|i: int|
                0 <= i < self.index().len() ==> (#[trigger] self.index()[i]).0 as int == concat_blocks(
                    self.finished_blocks().take(i),
                ).len(),
    {
        assert forall|i: int| 0 <= i < self.index().len() implies (#[trigger] self.index()[i]).0 as int
            == concat_blocks(self.finished_blocks().take(i)).len() by {
            assert(self.index()[i] == self.meta@[i].view_of());
        }
    }

    /// Each index entry gives where its block starts; the block runs to the
    /// next entry's offset, or to the end of the data for the last one; and
    /// those bytes decode to the block's entries.
    pub proof fn lemma_index_locates_blocks(&self)
        requires
            self.wf(),
        ensures
            forall|i: int|
                0 <= i < self.index().len() ==> {
                    let start = (#[trigger] self.index()[i]).0 as int;
                    let end = if i + 1 < self.index().len() {
                        self.index()[i + 1].0 as int
                    } else {
                        self.data_view().len() as int
                    };
                    &&& start <= end <= self.data_view().len()
                    &&& self.data_view().subrange(start, end) == encoded_block_of(self.finished_blocks()[i])
                    &&& self.finished_blocks()[i].len() <= u16::MAX ==> decode_block(
                        self.data_view().subrange(start, end),
                    ) == Some(
                        (
                            encode_entries(self.finished_blocks()[i]),
                            entry_offsets(self.finished_blocks()[i]),
                        ),
                    )
                },
    {
        let bs = self.blocks@;
        assert forall|i: int| 0 <= i < self.index().len() implies {
            let start = (#[trigger] self.index()[i]).0 as int;
            let end = if i + 1 < self.index().len() {
                self.index()[i + 1].0 as int
            } else {
                self.data_view().len() as int
            };
            &&& start <= end <= self.data_view().len()
            &&& self.data_view().subrange(start, end) == encoded_block_of(self.finished_blocks()[i])
            &&& self.finished_blocks()[i].len() <= u16::MAX ==> decode_block(
                self.data_view().subrange(start, end),
            ) == Some((encode_entries(self.finished_blocks()[i]), entry_offsets(self.finished_blocks()[i])))
        } by {
            lemma_concat_blocks_split(bs, i);
            assert(self.index()[i] == self.meta@[i].view_of());
            assert(self.meta@[i].offset as int == concat_blocks(bs.take(i)).len());
            if i + 1 < self.index().len() {
                assert(self.index()[i + 1] == self.meta@[i + 1].view_of());
                assert(self.meta@[i + 1].offset as int == concat_blocks(bs.take(i + 1)).len());
            } else {
                assert(bs.take(i + 1) =~= bs);
            }
            if bs[i].len() <= u16::MAX {
                lemma_block_codec_roundtrip(encode_entries(bs[i]), entry_offsets(bs[i]));
            }
        }
    }

    /// The file `build` lays out reads back: its footer gives where the
    /// index starts, and the bytes from there decode to the index of every
    /// block, the open one included; the blocks come first.
    pub proof fn lemma_built_file_reopens(&self, bloom: Seq<u8>)
        requires
            self.wf(),
            meta_encodable(
                self.index().push(
                    (self.data_view().len() as usize, self.first_key_view(), self.last_key_view()),
                ),
            ),
            self.data_view().len() + encoded_block_of(self.block_builder().entries()).len() < 0x1_0000_0000,
        ensures
            ({
                let blocks = self.data_view() + encoded_block_of(self.block_builder().entries());
                let index = self.index().push(
                    (self.data_view().len() as usize, self.first_key_view(), self.last_key_view()),
                );
                let f = table_file(blocks, index, bloom);
                &&& be_value(f.subrange(f.len() - 12, f.len() - 8)) == blocks.len()
                &&& f.subrange(0, blocks.len() as int) == blocks
                &&& decode_block_meta_spec(f.subrange(blocks.len() as int, f.len() as int)) == Some(index)
            }),
    {
        let blocks = self.data_view() + encoded_block_of(self.block_builder().entries());
        let index = self.index().push(
            (self.data_view().len() as usize, self.first_key_view(), self.last_key_view()),
        );
        lemma_table_file_reopens(blocks, index, bloom);
    }

    /// Create a builder based on target block size.
    pub fn new(block_size: usize) -> (b: Self)
        ensures
            b.wf(),
            b.block_builder().entries() == Seq::<Entry>::empty(),
            b.finished_blocks() == Seq::<Seq<Entry>>::empty(),
            b.index() == Seq::<MetaView>::empty(),
            b.hashes() == Seq::<u32>::empty(),
            b.data_view() == Seq::<u8>::empty(),
            b.added() == Seq::<Entry>::empty(),
            b.target_size() == block_size,
            b.block_builder().target_size() == block_size,
    {
        let b = Self {
            builder: BlockBuilder::new(block_size),
            first_key: Vec::new(),
            last_key: Vec::new(),
            data: Vec::new(),
            meta: Vec::new(),
            block_size,
            key_hashes: Vec::new(),
            blocks: Ghost(Seq::empty()),
        };
        assert(b.data@ =~= concat_blocks(b.blocks@));
        assert(b.index() =~= Seq::<MetaView>::empty());
        assert(b.added() =~= Seq::<Entry>::empty());
        b
    }

    /// Adds a key-value pair to SSTable, finishing the open block first when
    /// the pair does not fit in it.
    pub fn add(&mut self, key: &[u8], value: &[u8])
        requires
            old(self).wf(),
            old(self).block_builder().can_add(key@.len(), value@.len()),
            !fingerprint32_overflows(key@),
        ensures
            final(self).wf(),
            final(self).target_size() == old(self).target_size(),
            final(self).hashes() == old(self).hashes().push(farmhash_fingerprint32(key@)),
            old(self).data_view().len() <= final(self).data_view().len(),
            final(self).added() == old(self).added().push((key@, value@)),
            old(self).adds_to_open_block(final(self), key@, value@) || old(self).splits_before(
                final(self),
                key@,
                value@,
            ),
            old(self).adds_to_open_block(final(self), key@, value@) <==> old(self).block_builder().accepts(
                key@.len(),
                value@.len(),
            ),
    {
        let key_hash = fingerprint32(key);
        self.add_hashed(key, value, key_hash);
    }

    /// The entry went into the open block.
    pub open spec fn adds_to_open_block(&self, after: &Self, key: Seq<u8>, value: Seq<u8>) -> bool {
        &&& self.block_builder().accepts(key.len(), value.len())
        &&& after.block_builder().entries() == self.block_builder().entries().push((key, value))
        &&& after.finished_blocks() == self.finished_blocks()
        &&& after.data_view() == self.data_view()
        &&& after.index() == self.index()
        &&& after.last_key_view() == key
        &&& after.first_key_view() == if self.first_key_view().len() == 0 {
            key
        } else {
            self.first_key_view()
        }
    }

    /// The open block was full: it was finished and indexed, and the entry
    /// opened a new block.
    pub open spec fn splits_before(&self, after: &Self, key: Seq<u8>, value: Seq<u8>) -> bool {
        let es = self.block_builder().entries();
        &&& !self.block_builder().accepts(key.len(), value.len())
        &&& after.finished_blocks() == self.finished_blocks().push(es)
        &&& after.data_view() == self.data_view() + encoded_block_of(es)
        &&& after.index() == self.index().push(
            (
                self.data_view().len() as usize,
                if self.first_key_view().len() == 0 {
                    key
                } else {
                    self.first_key_view()
                },
                self.last_key_view(),
            ),
        )
        &&& after.block_builder().entries() == seq![(key, value)]
        &&& after.first_key_view() == key
        &&& after.last_key_view() == key
    }

    /// Adds a key-value pair whose key hashes to `key_hash`.
    pub fn add_hashed(&mut self, key: &[u8], value: &[u8], key_hash: u32)
        requires
            old(self).wf(),
            old(self).block_builder().can_add(key@.len(), value@.len()),
        ensures
            final(self).wf(),
            final(self).target_size() == old(self).target_size(),
            final(self).hashes() == old(self).hashes().push(key_hash),
            old(self).data_view().len() <= final(self).data_view().len(),
            final(self).added() == old(self).added().push((key@, value@)),
            old(self).adds_to_open_block(final(self), key@, value@) || old(self).splits_before(
                final(self),
                key@,
                value@,
            ),
            old(self).adds_to_open_block(final(self), key@, value@) <==> old(self).block_builder().accepts(
                key@.len(),
                value@.len(),
            ),
    {
        let ghost before = *self;
        if self.first_key.is_empty() {
            self.first_key = vstd::slice::slice_to_vec(key);
        }
        self.key_hashes.push(key_hash);
        if self.builder.add(key, value) {
            self.last_key = vstd::slice::slice_to_vec(key);
            proof {
                let es = before.builder.entries();
                assert(es.push((key@, value@)).drop_last() =~= es);
                assert(self.added() =~= before.added().push((key@, value@)));
            }
            return;
        }
        let ghost fk = self.first_key@;
        self.finish_block();
        let added = self.builder.add(key, value);
        assert(added);
        self.first_key = vstd::slice::slice_to_vec(key);
        self.last_key = vstd::slice::slice_to_vec(key);
        proof {
            assert(self.builder.entries() =~= seq![(key@, value@)]);
            assert(self.added() =~= before.added().push((key@, value@)));
            assert(Seq::<Entry>::empty().push((key@, value@)).drop_last() =~= Seq::<Entry>::empty());
        }
    }

    fn finish_block(&mut self)
        requires
            old(self).layout_wf(),
            first_nonempty_key(old(self).builder.entries()).len() > 0 ==> old(self).first_key@
                == first_nonempty_key(old(self).builder.entries()),
        ensures
            final(self).layout_wf(),
            final(self).first_key@ == first_nonempty_key(final(self).builder.entries()),
            old(self).blocks_nonempty() && old(self).builder.entries().len() > 0 ==> final(self).blocks_nonempty(),
            final(self).added() == old(self).added(),
            final(self).target_size() == old(self).target_size(),
            final(self).hashes() == old(self).hashes(),
            final(self).block_builder().entries() == Seq::<Entry>::empty(),
            final(self).block_builder().target_size() == old(self).target_size(),
            final(self).finished_blocks() == old(self).finished_blocks().push(
                old(self).block_builder().entries(),
            ),
            final(self).data_view() == old(self).data_view() + encoded_block_of(
                old(self).block_builder().entries(),
            ),
            final(self).index() == old(self).index().push(
                (
                    old(self).data_view().len() as usize,
                    old(self).first_key_view(),
                    old(self).last_key_view(),
                ),
            ),
            final(self).first_key_view() == Seq::<u8>::empty(),
            final(self).last_key_view() == Seq::<u8>::empty(),
    {
        let ghost before = *self;
        let mut builder = BlockBuilder::new(self.block_size);
        std::mem::swap(&mut builder, &mut self.builder);
        let ghost es = builder.entries();
        let mut encoded_block = builder.build().encode();
        let mut first_key: Vec<u8> = Vec::new();
        std::mem::swap(&mut first_key, &mut self.first_key);
        let mut last_key: Vec<u8> = Vec::new();
        std::mem::swap(&mut last_key, &mut self.last_key);
        let offset = self.data.len();
        self.meta.push(BlockMeta { offset, first_key, last_key });
        self.data.append(&mut encoded_block);
        self.blocks = Ghost(self.blocks@.push(es));
        proof {
            let bs = self.blocks@;
            assert(bs.drop_last() =~= before.blocks@);
            assert forall|i: int| 0 <= i < self.meta@.len() implies #[trigger] self.meta@[i].offset as int
                == concat_blocks(bs.take(i)).len() by {
                if i < before.meta@.len() {
                    assert(bs.take(i) =~= before.blocks@.take(i));
                } else {
                    assert(bs.take(i) =~= before.blocks@);
                }
            }
            assert forall|i: int| 0 <= i < self.meta@.len() implies #[trigger] records_keys(
                self.meta@[i],
                self.blocks@[i],
            ) by {
                if i < before.meta@.len() {
                    assert(records_keys(before.meta@[i], before.blocks@[i]));
                }
            }
            assert(self.index() =~= before.index().push(
                (before.data@.len() as usize, before.first_key@, before.last_key@),
            ));
            assert(self.first_key@ =~= first_nonempty_key(self.builder.entries()));
            assert(flatten(bs) == flatten(before.blocks@) + es);
            assert(self.added() =~= before.added());
            assert(self.last_key@ =~= last_key_of(self.builder.entries()));
        }
    }

    /// Get the estimated size of the SSTable.
    ///
    /// Since the data blocks contain much more data than meta blocks, just return the size of data
    /// blocks here.
    pub fn estimated_size(&self) -> (n: usize)
        ensures
            n == self.data_view().len(),
    {
        self.data.len()
    }

    /// The hash of every key added, in order, from which a bloom filter is built.
    pub fn key_hashes(&self) -> (h: &[u32])
        ensures
            h@ == self.hashes(),
    {
        self.key_hashes.as_slice()
    }

    /// Tells whether `build` can encode the index: at most `u16::MAX` blocks,
    /// counting the open one, and no recorded key longer than `u16::MAX` bytes.
    pub fn can_build(&self) -> (r: bool)
        ensures
            r == meta_encodable(
                self.index().push(
                    (self.data_view().len() as usize, self.first_key_view(), self.last_key_view()),
                ),
            ),
    {
        let ghost ms = self.index().push(
            (self.data_view().len() as usize, self.first_key_view(), self.last_key_view()),
        );
        if self.meta.len() >= 0xffff {
            return false;
        }
        if self.first_key.len() > 0xffff || self.last_key.len() > 0xffff {
            assert(ms[ms.len() - 1].1.len() > u16::MAX || ms[ms.len() - 1].2.len() > u16::MAX);
            return false;
        }
        let mut i: usize = 0;
        while i < self.meta.len()
            invariant
                i <= self.meta@.len(),
                ms == self.index().push(
                    (self.data_view().len() as usize, self.first_key_view(), self.last_key_view()),
                ),
                forall|j: int| 0 <= j < i ==> (#[trigger] ms[j]).1.len() <= u16::MAX && ms[j].2.len() <= u16::MAX,
            decreases self.meta@.len() - i,
        {
            let m = &self.meta[i];
            assert(m.view_of() == ms[i as int]);
            if m.first_key.len() > 0xffff || m.last_key.len() > 0xffff {
                return false;
            }
            i = i + 1;
        }
        true
    }

    /// Finishes the open block and lays out the table file: the blocks, the
    /// index, the encoded bloom filter `bloom_block`, then the footer.
    pub fn build(self, bloom_block: &[u8]) -> (out: Vec<u8>)
        requires
            self.wf(),
            meta_encodable(
                self.index().push(
                    (self.data_view().len() as usize, self.first_key_view(), self.last_key_view()),
                ),
            ),
        ensures
            out@ == table_file(
                self.data_view() + encoded_block_of(self.block_builder().entries()),
                self.index().push(
                    (self.data_view().len() as usize, self.first_key_view(), self.last_key_view()),
                ),
                bloom_block@,
            ),
    {
        let ghost index = self.index().push(
            (self.data_view().len() as usize, self.first_key_view(), self.last_key_view()),
        );
        let ghost blocks = self.data_view() + encoded_block_of(self.block_builder().entries());
        let mut this = self;
        this.finish_block();
        let mut data = this.data;
        // data blocks
        // index blocks
        let meta_block_off = data.len();
        BlockMeta::encode_block_meta(this.meta.as_slice(), &mut data);
        let meta_block_len = data.len() - meta_block_off;
        // bloom filter
        let bloom_block_off = data.len();
        put_slice(&mut data, bloom_block);
        let bloom_block_len = data.len() - bloom_block_off;
        // meta block len
        put_u32(&mut data, meta_block_len as u32);
        // meta block file offset
        put_u32(&mut data, meta_block_off as u32);
        // bloom block len
        put_u32(&mut data, bloom_block_len as u32);
        // bloom block file offset
        put_u32(&mut data, bloom_block_off as u32);
        data
    }
}

} // verus!
