//! Tests of the crit-bit tree: lookup, extremes, removal and capacity.

use market_core::critbit::{CritBitNode, CritBitTree, ErrorCode};

#[test]
fn test_critbit_insert_and_find() {
    let mut tree = CritBitTree::new(100);

    tree.insert(100, 0).unwrap();
    tree.insert(200, 1).unwrap();
    tree.insert(150, 2).unwrap();

    assert_eq!(tree.find(100), Some(0));
    assert_eq!(tree.find(200), Some(1));
    assert_eq!(tree.find(150), Some(2));
    assert_eq!(tree.find(300), None);
}

#[test]
fn test_critbit_min_max() {
    let mut tree = CritBitTree::new(100);

    tree.insert(200, 1).unwrap();
    tree.insert(100, 0).unwrap();
    tree.insert(300, 2).unwrap();

    assert_eq!(tree.min(), Some((100, 0)));
    assert_eq!(tree.max(), Some((300, 2)));
}

#[test]
fn test_critbit_remove() {
    let mut tree = CritBitTree::new(100);

    tree.insert(100, 0).unwrap();
    tree.insert(200, 1).unwrap();
    tree.insert(150, 2).unwrap();

    assert_eq!(tree.remove(150).unwrap(), 2);
    assert_eq!(tree.find(150), None);
    assert_eq!(tree.find(100), Some(0));
    assert_eq!(tree.find(200), Some(1));
}

#[test]
fn test_critbit_empty_tree() {
    let mut tree = CritBitTree::new(10);
    assert_eq!(tree.find(1), None);
    assert_eq!(tree.min(), None);
    assert_eq!(tree.max(), None);
    assert_eq!(tree.remove(1), Err(ErrorCode::OrderNotFound));
}

#[test]
fn test_critbit_overwrite_payload() {
    let mut tree = CritBitTree::new(10);
    tree.insert(42, 1).unwrap();
    tree.insert(42, 7).unwrap();
    assert_eq!(tree.find(42), Some(7));
    assert_eq!(tree.min(), Some((42, 7)));
}

#[test]
fn test_critbit_capacity_exhausted() {
    // One node fits; the second key needs two more.
    let mut tree = CritBitTree::new(1);
    tree.insert(5, 0).unwrap();
    assert_eq!(tree.insert(6, 1), Err(ErrorCode::OrderBookFull));
    // The failed insertion left the tree untouched.
    assert_eq!(tree.find(5), Some(0));
    assert_eq!(tree.find(6), None);
    // A zero-capacity tree refuses even the first key.
    let mut empty = CritBitTree::new(0);
    assert_eq!(empty.insert(1, 0), Err(ErrorCode::OrderBookFull));
}

#[test]
fn test_critbit_adjacent_and_extreme_keys() {
    let mut tree = CritBitTree::new(100);
    tree.insert(0, 0).unwrap();
    tree.insert(1, 1).unwrap();
    tree.insert(u64::MAX, 2).unwrap();
    tree.insert(u64::MAX - 1, 3).unwrap();
    assert_eq!(tree.min(), Some((0, 0)));
    assert_eq!(tree.max(), Some((u64::MAX, 2)));
    assert_eq!(tree.remove(0).unwrap(), 0);
    assert_eq!(tree.min(), Some((1, 1)));
    assert_eq!(tree.remove(u64::MAX).unwrap(), 2);
    assert_eq!(tree.max(), Some((u64::MAX - 1, 3)));
}

#[test]
fn test_critbit_node_constructors() {
    let leaf = CritBitNode::new_leaf(9, 4);
    assert!(leaf.is_leaf);
    assert_eq!(leaf.key, 9);
    assert_eq!(leaf.order_index, 4);
    let inner = CritBitNode::new_inner(13);
    assert!(!inner.is_leaf);
    assert_eq!(inner.crit_bit, 13);
}
