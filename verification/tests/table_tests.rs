use mini_lsm::table::builder::{can_hash_key, SsTableBuilder};
use mini_lsm::block::Block;
use mini_lsm::table::{BlockMeta, SsTable, TableError, FOOTER_SIZE};

fn meta(offset: usize, first: &[u8], last: &[u8]) -> BlockMeta {
    BlockMeta { offset, first_key: first.to_vec(), last_key: last.to_vec() }
}

#[test]
fn test_block_meta_layout() {
    let mut buf = Vec::new();
    BlockMeta::encode_block_meta(&[meta(258, b"a", b"bc")], &mut buf);
    assert_eq!(buf, vec![0, 1, 0, 0, 0, 0, 0, 0, 1, 2, 0, 1, 0, 2, b'a', b'b', b'c']);
}

#[test]
fn test_block_meta_roundtrip() {
    let metas = vec![meta(0, b"a", b"k"), meta(4096, b"l", b"zz"), meta(9000, b"", b"")];
    let mut buf = vec![42];
    BlockMeta::encode_block_meta(&metas, &mut buf);
    let encoded = &buf[1..];
    assert!(BlockMeta::is_decodable(encoded));
    assert_eq!(BlockMeta::decode_block_meta(encoded), metas);
    let mut with_trailer = encoded.to_vec();
    with_trailer.extend_from_slice(&[1, 2, 3]);
    assert_eq!(BlockMeta::decode_block_meta(&with_trailer), metas);
}

#[test]
fn test_block_meta_truncated_is_not_decodable() {
    let metas = vec![meta(7, b"abc", b"def")];
    let mut buf = Vec::new();
    BlockMeta::encode_block_meta(&metas, &mut buf);
    for len in 0..buf.len() {
        assert!(!BlockMeta::is_decodable(&buf[..len]));
    }
    assert!(BlockMeta::is_decodable(&buf));
    assert!(BlockMeta::is_decodable(&[0, 0]));
    assert!(BlockMeta::decode_block_meta(&[0, 0]).is_empty());
}

#[test]
fn test_sst_open_and_getters() {
    let metas = vec![meta(0, b"a", b"k"), meta(100, b"l", b"z")];
    let mut buf = Vec::new();
    BlockMeta::encode_block_meta(&metas, &mut buf);
    let table = match SsTable::open(7, 500, 300, &buf) {
        Ok(t) => t,
        Err(_) => panic!("a table with two blocks opens"),
    };
    assert_eq!(table.num_of_blocks(), 2);
    assert_eq!(table.first_key(), b"a");
    assert_eq!(table.last_key(), b"z");
    assert_eq!(table.table_size(), 500);
    assert_eq!(table.sst_id(), 7);
    assert_eq!(table.max_ts(), 0);
    assert_eq!(table.block_location(0), (0, 100));
    assert_eq!(table.block_location(1), (100, 200));
}

#[test]
fn test_sst_open_empty_index() {
    assert!(matches!(SsTable::open(1, 10, 0, &[0, 0]), Err(TableError::NoFirstKey)));
}

fn u32_at(bytes: &[u8], pos: usize) -> u32 {
    u32::from_be_bytes([bytes[pos], bytes[pos + 1], bytes[pos + 2], bytes[pos + 3]])
}

#[test]
fn test_decode_meta_offset() {
    assert_eq!(SsTable::decode_meta_offset(&[9, 9, 9, 9, 0, 0, 1, 2, 7, 7, 7, 7, 5, 5, 5, 5]), 258);
    assert_eq!(SsTable::decode_meta_offset(&[0, 0, 0, 0, 1, 0, 0, 0]), 1 << 24);
}

#[test]
fn test_find_block_idx() {
    let metas = vec![meta(0, b"b", b"c"), meta(10, b"d", b"f"), meta(20, b"g", b"h")];
    let mut buf = Vec::new();
    BlockMeta::encode_block_meta(&metas, &mut buf);
    let table = SsTable::open(0, 40, 30, &buf).ok().unwrap();
    assert_eq!(table.find_block_idx(b"a"), 0);
    assert_eq!(table.find_block_idx(b"b"), 0);
    assert_eq!(table.find_block_idx(b"c"), 0);
    assert_eq!(table.find_block_idx(b"d"), 1);
    assert_eq!(table.find_block_idx(b"e"), 1);
    assert_eq!(table.find_block_idx(b"g"), 2);
    assert_eq!(table.find_block_idx(b"z"), 2);
}

#[test]
fn test_create_meta_only() {
    let table = SsTable::create_meta_only(3, 1234, b"aa".to_vec(), b"zz".to_vec());
    assert_eq!(table.sst_id(), 3);
    assert_eq!(table.table_size(), 1234);
    assert_eq!(table.first_key(), b"aa");
    assert_eq!(table.last_key(), b"zz");
    assert_eq!(table.num_of_blocks(), 0);
    assert_eq!(table.find_block_idx(b"a"), 0);
}

#[test]
fn test_sst_builder_hashes_keys() {
    let mut builder = SsTableBuilder::new(128);
    builder.add(b"hello world", b"v");
    assert_eq!(builder.key_hashes(), &[430397466u32][..]);
}

#[test]
fn test_sst_builder_add_hashed() {
    let mut builder = SsTableBuilder::new(128);
    builder.add_hashed(b"k", b"v", 99);
    builder.add_hashed(b"l", b"w", 7);
    assert_eq!(builder.key_hashes(), &[99u32, 7][..]);
}

#[test]
fn test_sst_builder_splits_blocks() {
    let mut builder = SsTableBuilder::new(16);
    assert_eq!(builder.estimated_size(), 0);
    builder.add(b"11", b"11");
    assert_eq!(builder.estimated_size(), 0);
    // the second entry does not fit: the first block is finished
    builder.add(b"22", b"22");
    // block: data 8 bytes, one offset, the count
    assert_eq!(builder.estimated_size(), 12);
    builder.add(b"33", b"33");
    assert_eq!(builder.estimated_size(), 24);
}

#[test]
fn test_sst_build_layout() {
    let mut builder = SsTableBuilder::new(16);
    builder.add(b"11", b"11");
    builder.add(b"22", b"22");
    let bloom = vec![0xAA, 0xBB, 0xCC];
    let file = builder.build(&bloom);
    let block1 = vec![0, 2, 0, 2, b'1', b'1', b'1', b'1', 0, 0, 0, 1];
    let block2 = vec![0, 2, 0, 2, b'2', b'2', b'2', b'2', 0, 0, 0, 1];
    assert_eq!(&file[..12], &block1[..]);
    assert_eq!(&file[12..24], &block2[..]);
    let metas = BlockMeta::decode_block_meta(&file[24..]);
    assert_eq!(metas, vec![meta(0, b"11", b"11"), meta(12, b"22", b"22")]);
    let meta_len = 2 + 2 * (8 + 2 + 2 + 2 + 2);
    assert_eq!(&file[24 + meta_len..24 + meta_len + 3], &bloom[..]);
    let footer = &file[file.len() - FOOTER_SIZE..];
    assert_eq!(u32_at(footer, 0), meta_len as u32);
    assert_eq!(SsTable::decode_meta_offset(footer), 24);
    assert_eq!(u32_at(footer, 8), 3);
    assert_eq!(u32_at(footer, 12), (24 + meta_len) as u32);
    assert_eq!(file.len(), 24 + meta_len + 3 + 16);
}

#[test]
fn test_built_table_reopens() {
    let mut builder = SsTableBuilder::new(16);
    builder.add(b"11", b"11");
    builder.add(b"22", b"22");
    let file = builder.build(&[1, 2, 3]);
    let size = file.len();
    let offset = SsTable::decode_meta_offset(&file[size - FOOTER_SIZE..]) as usize;
    assert_eq!(offset, 24);
    let rest = &file[offset..];
    assert!(BlockMeta::is_decodable(rest));
    let table = SsTable::open(5, size as u64, offset as u64, rest).ok().unwrap();
    assert_eq!(table.first_key(), b"11");
    assert_eq!(table.last_key(), b"22");
    assert_eq!(table.num_of_blocks(), 2);
    assert_eq!(table.block_location(0), (0, 12));
    assert_eq!(table.block_location(1), (12, 12));
    let block = Block::decode(&file[12..24]).unwrap();
    assert_eq!(block.data, vec![0, 2, 0, 2, b'2', b'2', b'2', b'2']);
    assert_eq!(block.offsets, vec![0]);
}

#[test]
fn test_can_hash_key() {
    assert!(can_hash_key(b""));
    assert!(can_hash_key(b"abcd"));
    assert!(can_hash_key(b"abcde"));
    assert!(can_hash_key(b"key_000_with_more_bytes_"));
    // A 5-byte key whose first word plus the length overflows a u32.
    assert!(!can_hash_key(&[0xff; 5]));
    // A 13-byte key of 0xff bytes stays in range.
    assert!(can_hash_key(&[0xff; 13]));
    // A 13-byte key whose middle word is chosen so that the mixed word plus
    // the length overflows a u32.
    let mut key = [0u8; 13];
    key[6..10].copy_from_slice(&[3, 248, 143, 174]);
    assert!(!can_hash_key(&key));
    assert!(can_hash_key(&[0xff; 25]));
}
