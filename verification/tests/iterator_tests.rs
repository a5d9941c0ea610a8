use std::sync::Arc;

use mini_lsm::block::builder::BlockBuilder;
use mini_lsm::block::iterator::BlockIterator;
use mini_lsm::iterators::merge_iterator::MergeIterator;
use mini_lsm::iterators::two_merge_iterator::TwoMergeIterator;
use mini_lsm::iterators::StorageIterator;
use mini_lsm::lsm_iterator::{EndBound, FusedIterator, LsmIterator};

fn block_iter(entries: &[(&str, &str)]) -> BlockIterator {
    let mut builder = BlockBuilder::new(4096);
    for (k, v) in entries {
        assert!(builder.add(k.as_bytes(), v.as_bytes()));
    }
    BlockIterator::create_and_seek_to_first(Arc::new(builder.build()))
}

fn collect<I: StorageIterator>(iter: &mut I) -> Vec<(String, String)> {
    let mut out = Vec::new();
    while StorageIterator::is_valid(iter) {
        let k = String::from_utf8(StorageIterator::key(iter).to_vec()).unwrap();
        let v = String::from_utf8(StorageIterator::value(iter).to_vec()).unwrap();
        out.push((k, v));
        assert!(StorageIterator::next(iter).is_ok());
    }
    out
}

fn pairs(entries: &[(&str, &str)]) -> Vec<(String, String)> {
    entries.iter().map(|(k, v)| (k.to_string(), v.to_string())).collect()
}

#[test]
fn test_block_iterator_as_storage_iterator() {
    let mut iter = block_iter(&[("a", "1"), ("b", "2")]);
    assert_eq!(StorageIterator::num_active_iterators(&iter), 1);
    assert_eq!(collect(&mut iter), pairs(&[("a", "1"), ("b", "2")]));
}

#[test]
fn test_merge_prefers_smaller_index() {
    let i1 = block_iter(&[("a", "1.1"), ("b", "2.1"), ("c", "3.1")]);
    let i2 = block_iter(&[("a", "1.2"), ("b", "2.2"), ("c", "3.2"), ("d", "4.2")]);
    let i3 = block_iter(&[("b", "2.3"), ("c", "3.3"), ("d", "4.3")]);
    let mut iter = MergeIterator::create(vec![Box::new(i1), Box::new(i2), Box::new(i3)]);
    assert_eq!(
        collect(&mut iter),
        pairs(&[("a", "1.1"), ("b", "2.1"), ("c", "3.1"), ("d", "4.2")])
    );
}

#[test]
fn test_merge_interleaved() {
    let i1 = block_iter(&[("a", "1"), ("e", "5")]);
    let i2 = block_iter(&[("b", "2"), ("d", "4")]);
    let i3 = block_iter(&[("c", "3"), ("e", "x")]);
    let mut iter = MergeIterator::create(vec![Box::new(i1), Box::new(i2), Box::new(i3)]);
    assert_eq!(
        collect(&mut iter),
        pairs(&[("a", "1"), ("b", "2"), ("c", "3"), ("d", "4"), ("e", "5")])
    );
}

#[test]
fn test_merge_empty_inputs() {
    let empty = block_iter(&[]);
    let mut iter = MergeIterator::create(vec![Box::new(empty)]);
    assert!(!StorageIterator::is_valid(&iter));
    assert_eq!(StorageIterator::num_active_iterators(&iter), 1);
    let mut none: MergeIterator<BlockIterator> = MergeIterator::create(vec![]);
    assert!(collect(&mut none).is_empty());
    let i1 = block_iter(&[]);
    let i2 = block_iter(&[("a", "1")]);
    let mut iter = MergeIterator::create(vec![Box::new(i1), Box::new(i2)]);
    assert_eq!(collect(&mut iter), pairs(&[("a", "1")]));
}

#[test]
fn test_two_merge_prefers_a() {
    let a = block_iter(&[("a", "1.a"), ("c", "3.a")]);
    let b = block_iter(&[("a", "1.b"), ("b", "2.b"), ("d", "4.b")]);
    let mut iter = TwoMergeIterator::create(a, b).ok().unwrap();
    assert_eq!(StorageIterator::num_active_iterators(&iter), 2);
    assert_eq!(
        collect(&mut iter),
        pairs(&[("a", "1.a"), ("b", "2.b"), ("c", "3.a"), ("d", "4.b")])
    );
}

#[test]
fn test_two_merge_one_side_empty() {
    let a = block_iter(&[]);
    let b = block_iter(&[("x", "1"), ("y", "2")]);
    let mut iter = TwoMergeIterator::create(a, b).ok().unwrap();
    assert_eq!(collect(&mut iter), pairs(&[("x", "1"), ("y", "2")]));
    let a = block_iter(&[("x", "1")]);
    let b = block_iter(&[]);
    let mut iter = TwoMergeIterator::create(a, b).ok().unwrap();
    assert_eq!(collect(&mut iter), pairs(&[("x", "1")]));
}

#[test]
fn test_lsm_iterator_hides_deleted_keys() {
    let inner = block_iter(&[("a", "1"), ("b", ""), ("c", "3"), ("d", ""), ("e", "5")]);
    let mut iter = LsmIterator::new(inner, EndBound::Unbounded).ok().unwrap();
    assert_eq!(collect(&mut iter), pairs(&[("a", "1"), ("c", "3"), ("e", "5")]));
}

#[test]
fn test_lsm_iterator_skips_deleted_first_key() {
    let inner = block_iter(&[("a", ""), ("b", "2")]);
    let mut iter = LsmIterator::new(inner, EndBound::Unbounded).ok().unwrap();
    assert_eq!(collect(&mut iter), pairs(&[("b", "2")]));
}

#[test]
fn test_lsm_iterator_deletion_in_newer_layer() {
    let newer = block_iter(&[("a", ""), ("b", "2.new")]);
    let older = block_iter(&[("a", "1.old"), ("b", "2.old"), ("c", "3.old")]);
    let merged = MergeIterator::create(vec![Box::new(newer), Box::new(older)]);
    let mut iter = LsmIterator::new(merged, EndBound::Unbounded).ok().unwrap();
    assert_eq!(collect(&mut iter), pairs(&[("b", "2.new"), ("c", "3.old")]));
}

#[test]
fn test_lsm_iterator_end_bounds() {
    let entries = [("a", "1"), ("b", "2"), ("c", "3"), ("d", "4")];
    let mut included =
        LsmIterator::new(block_iter(&entries), EndBound::Included(b"c".to_vec())).ok().unwrap();
    assert_eq!(collect(&mut included), pairs(&[("a", "1"), ("b", "2"), ("c", "3")]));
    let mut excluded =
        LsmIterator::new(block_iter(&entries), EndBound::Excluded(b"c".to_vec())).ok().unwrap();
    assert_eq!(collect(&mut excluded), pairs(&[("a", "1"), ("b", "2")]));
}

#[test]
fn test_lsm_iterator_first_key_checked_against_bound() {
    let entries = [("m", "1"), ("n", "2")];
    let mut iter =
        LsmIterator::new(block_iter(&entries), EndBound::Excluded(b"a".to_vec())).ok().unwrap();
    assert!(collect(&mut iter).is_empty());
    let mut iter =
        LsmIterator::new(block_iter(&[("b", "2")]), EndBound::Included(b"a".to_vec())).ok().unwrap();
    assert!(!StorageIterator::is_valid(&iter));
    assert!(collect(&mut iter).is_empty());
}

#[test]
fn test_lsm_iterator_stops_when_keys_go_back() {
    let merged_like = block_iter(&[("b", "1"), ("a", "2"), ("c", "3")]);
    let mut iter = LsmIterator::new(merged_like, EndBound::Unbounded).ok().unwrap();
    assert_eq!(collect(&mut iter), pairs(&[("b", "1")]));
}

#[test]
fn test_lsm_iterator_empty() {
    let mut iter = LsmIterator::new(block_iter(&[]), EndBound::Unbounded).ok().unwrap();
    assert!(!StorageIterator::is_valid(&iter));
    assert_eq!(StorageIterator::num_active_iterators(&iter), 1);
    assert!(collect(&mut iter).is_empty());
}

#[test]
fn test_fused_iterator() {
    let inner = block_iter(&[("a", "1"), ("b", "2")]);
    let mut iter = FusedIterator::new(inner);
    assert_eq!(StorageIterator::num_active_iterators(&iter), 1);
    assert_eq!(collect(&mut iter), pairs(&[("a", "1"), ("b", "2")]));
    assert!(!StorageIterator::is_valid(&iter));
    assert!(StorageIterator::next(&mut iter).is_ok());
    assert!(StorageIterator::next(&mut iter).is_ok());
    assert!(!StorageIterator::is_valid(&iter));
}
