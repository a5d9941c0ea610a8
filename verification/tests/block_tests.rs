use std::sync::Arc;

use mini_lsm::block::builder::BlockBuilder;
use mini_lsm::block::iterator::BlockIterator;
use mini_lsm::block::Block;

fn key_of(i: usize) -> Vec<u8> {
    format!("key_{:03}", i * 5).into_bytes()
}

fn value_of(i: usize) -> Vec<u8> {
    format!("value_{:010}", i).into_bytes()
}

fn generate_block(n: usize) -> Block {
    let mut builder = BlockBuilder::new(10000);
    for i in 0..n {
        assert!(builder.add(&key_of(i), &value_of(i)));
    }
    builder.build()
}

#[test]
fn test_block_build_single_key() {
    let mut builder = BlockBuilder::new(16);
    assert!(builder.is_empty());
    assert!(builder.add(b"233", b"233333"));
    assert!(!builder.is_empty());
    builder.build();
}

#[test]
fn test_block_build_full() {
    let mut builder = BlockBuilder::new(16);
    assert!(builder.add(b"11", b"11"));
    assert!(!builder.add(b"22", b"22"));
    builder.build();
}

#[test]
fn test_block_first_entry_always_added() {
    let mut builder = BlockBuilder::new(4);
    assert!(builder.add(b"a-long-key", b"a-long-value"));
    assert!(!builder.add(b"b", b"c"));
}

#[test]
fn test_block_exact_fit_is_accepted() {
    // estimated size 2 + 2 + 6 = 10; a second entry of 1 + 1 bytes needs 8 more
    let mut builder = BlockBuilder::new(18);
    assert!(builder.add(b"a", b"b"));
    assert!(builder.add(b"c", b"d"));
    assert!(!builder.add(b"e", b"f"));
}

#[test]
fn test_block_layout() {
    let mut builder = BlockBuilder::new(100);
    assert!(builder.add(b"a", b"bc"));
    assert!(builder.add(b"de", b""));
    let block = builder.build();
    assert_eq!(block.data, vec![0, 1, 0, 2, b'a', b'b', b'c', 0, 2, 0, 0, b'd', b'e']);
    assert_eq!(block.offsets, vec![0, 7]);
    let encoded = block.encode();
    assert_eq!(
        encoded,
        vec![0, 1, 0, 2, b'a', b'b', b'c', 0, 2, 0, 0, b'd', b'e', 0, 0, 0, 7, 0, 2]
    );
}

#[test]
fn test_block_encode_decode() {
    let block = generate_block(100);
    let encoded = block.encode();
    let decoded = Block::decode(&encoded).expect("a well-formed block");
    assert_eq!(block.data, decoded.data);
    assert_eq!(block.offsets, decoded.offsets);
}

#[test]
fn test_block_decode_rejects_short_input() {
    assert!(Block::decode(&[]).is_none());
    assert!(Block::decode(&[7]).is_none());
    // claims three offsets but holds room for none
    assert!(Block::decode(&[0, 3]).is_none());
    let empty = Block::decode(&[9, 9, 0, 0]).expect("no offsets");
    assert_eq!(empty.data, vec![9, 9]);
    assert!(empty.offsets.is_empty());
}

#[test]
fn test_block_iterator() {
    let block = Arc::new(generate_block(100));
    let mut iter = BlockIterator::create_and_seek_to_first(block);
    for _ in 0..5 {
        for i in 0..100 {
            assert!(iter.is_valid());
            assert_eq!(iter.key(), &key_of(i)[..]);
            assert_eq!(iter.value(), &value_of(i)[..]);
            iter.next();
        }
        assert!(!iter.is_valid());
        iter.seek_to_first();
    }
}

#[test]
fn test_block_iterator_empty_block() {
    let block = Arc::new(BlockBuilder::new(10).build());
    let mut iter = BlockIterator::create_and_seek_to_first(block);
    assert!(!iter.is_valid());
    iter.next();
    assert!(!iter.is_valid());
    iter.seek_to_key(b"a");
    assert!(!iter.is_valid());
}

#[test]
fn test_block_seek_key() {
    let block = Arc::new(generate_block(100));
    let mut iter = BlockIterator::create_and_seek_to_key(block, &key_of(0));
    for offset in 1..=5 {
        for i in 0..100 {
            assert!(iter.is_valid());
            assert_eq!(iter.key(), &key_of(i)[..]);
            assert_eq!(iter.value(), &value_of(i)[..]);
            iter.seek_to_key(format!("key_{:03}", i * 5 + offset).as_bytes());
        }
        iter.seek_to_key(b"k");
    }
}

#[test]
fn test_block_seek_missing_key_returns_to_first() {
    let block = Arc::new(generate_block(10));
    let iter = BlockIterator::create_and_seek_to_key(block.clone(), b"zzz");
    assert!(iter.is_valid());
    assert_eq!(iter.key(), &key_of(0)[..]);
    let iter = BlockIterator::create_and_seek_to_key(block, b"key_012");
    assert_eq!(iter.key(), &key_of(3)[..]);
    assert_eq!(iter.value(), &value_of(3)[..]);
}

#[test]
fn test_block_seek_goes_back() {
    let block = Arc::new(generate_block(10));
    let mut iter = BlockIterator::create_and_seek_to_key(block, &key_of(5));
    assert_eq!(iter.key(), &key_of(5)[..]);
    iter.seek_to_key(&key_of(1));
    assert_eq!(iter.key(), &key_of(1)[..]);
    assert_eq!(iter.value(), &value_of(1)[..]);
    iter.next();
    iter.next();
    iter.seek_to_key(b"a");
    assert_eq!(iter.key(), &key_of(0)[..]);
}

#[test]
fn test_block_is_readable() {
    let built = generate_block(10);
    assert!(built.is_readable());
    let empty = Block { data: vec![], offsets: vec![] };
    assert!(empty.is_readable());
    // The key length runs past the end of the data.
    let short = Block { data: vec![0, 5, 0, 0, 1], offsets: vec![0] };
    assert!(!short.is_readable());
    // The second offset points past the data.
    let past = Block { data: vec![0, 1, 0, 1, 97, 49], offsets: vec![0, 10] };
    assert!(!past.is_readable());
    let two = Block { data: vec![0, 1, 0, 1, 97, 49, 0, 1, 0, 1, 99, 51], offsets: vec![0, 6] };
    assert!(two.is_readable());
}

#[test]
fn test_block_builder_refused_add_changes_nothing() {
    let mut builder = BlockBuilder::new(20);
    assert!(builder.add(b"a", b"1"));
    assert!(!builder.add(b"b", b"a value far too long for the block"));
    assert!(!builder.is_empty());
    let block = builder.build();
    assert_eq!(block.data, vec![0, 1, 0, 1, 97, 49]);
    assert_eq!(block.offsets, vec![0]);
}

#[test]
fn test_built_block_offsets_increase() {
    let block = generate_block(20);
    assert_eq!(block.offsets[0], 0);
    for i in 1..block.offsets.len() {
        assert!(block.offsets[i - 1] < block.offsets[i]);
        assert!((block.offsets[i] as usize) < block.data.len());
    }
}
