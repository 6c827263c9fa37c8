//! The node store: reads, writes, the epoch index, and the read-after-epoch
//! discipline.

use akd::errors::StorageError;
use akd::hashing::hash_value;
use akd::history_tree_node::{
    get_empty_root, get_leaf_node, HistoryTreeNode, NodeKey,
};
use akd::label::{byte_arr_from_u64, NodeLabel};
use akd::storage::InMemoryDatabase;

fn sample_node(label: NodeLabel, last_epoch: u64) -> HistoryTreeNode {
    let db = InMemoryDatabase::new();
    let mut n = get_leaf_node(&db, label, &hash_value(&[1u8]), NodeLabel::root(), 0).unwrap();
    n.last_epoch = last_epoch;
    n
}

#[test]
fn set_then_get_returns_the_record() {
    let mut db = InMemoryDatabase::new();
    let label = NodeLabel::new(byte_arr_from_u64(0b1u64 << 63), 1u32);
    let node = sample_node(label, 3);
    db.set(node.clone()).unwrap();
    let read = db.get(&NodeKey(label)).unwrap();
    assert_eq!(read, node);
}

#[test]
fn get_of_an_unwritten_label_is_not_found() {
    let db = InMemoryDatabase::new();
    let label = NodeLabel::new(byte_arr_from_u64(0b1u64 << 63), 1u32);
    assert!(matches!(db.get(&NodeKey(label)), Err(StorageError::NotFound(_))));
}

#[test]
fn epoch_index_answers_largest_at_most() {
    let mut db = InMemoryDatabase::new();
    let label = NodeLabel::new(byte_arr_from_u64(0b1u64 << 63), 1u32);
    db.set(sample_node(label, 2)).unwrap();
    db.set(sample_node(label, 5)).unwrap();
    assert_eq!(db.get_epoch_lte_epoch(label, 1).ok(), None);
    assert_eq!(db.get_epoch_lte_epoch(label, 2).unwrap(), 2);
    assert_eq!(db.get_epoch_lte_epoch(label, 4).unwrap(), 2);
    assert_eq!(db.get_epoch_lte_epoch(label, 9).unwrap(), 5);
}

#[test]
fn reads_are_shielded_from_writes_past_their_epoch() {
    let mut db = InMemoryDatabase::new();
    let label = NodeLabel::new(byte_arr_from_u64(0b1u64 << 63), 1u32);
    db.set(sample_node(label, 2)).unwrap();
    db.set(sample_node(label, 5)).unwrap();
    // a reader at epoch 3 sees the record reported at the epoch of the last
    // write at or before its own
    let read = HistoryTreeNode::get_from_storage(&db, &NodeKey(label), 3).unwrap();
    assert_eq!(read.last_epoch, 2);
    // a reader at or past the stored last epoch sees the record as written
    let read = HistoryTreeNode::get_from_storage(&db, &NodeKey(label), 5).unwrap();
    assert_eq!(read.last_epoch, 5);
}

#[test]
fn batch_get_reads_many() {
    let mut db = InMemoryDatabase::new();
    let l1 = NodeLabel::new(byte_arr_from_u64(0b0u64), 1u32);
    let l2 = NodeLabel::new(byte_arr_from_u64(0b1u64 << 63), 1u32);
    db.set(sample_node(l1, 1)).unwrap();
    db.set(sample_node(l2, 2)).unwrap();
    let nodes =
        HistoryTreeNode::batch_get_from_storage(&db, &vec![NodeKey(l1), NodeKey(l2)], 9).unwrap();
    assert_eq!(nodes.len(), 2);
    assert!(nodes[0].label.label_eq(&l1));
    assert!(nodes[1].label.label_eq(&l2));
}

#[test]
fn every_node_on_the_inserted_path_is_stamped() {
    let mut db = InMemoryDatabase::new();
    let mut root = get_empty_root(&db, Option::Some(0u64)).unwrap();
    root.write_to_storage(&mut db).unwrap();
    let mut num_nodes = 1u64;
    for (i, bits) in [0b000u64, 0b111u64, 0b100u64].iter().enumerate() {
        let label = NodeLabel::new(byte_arr_from_u64(bits << 61), 3u32);
        let leaf = get_leaf_node(&db, label, &hash_value(&[*bits as u8]), NodeLabel::root(), i as u64 + 1)
            .unwrap();
        root.insert_single_leaf(&mut db, leaf, i as u64 + 1, &mut num_nodes).unwrap();
    }
    // after the third insertion, every node from that leaf up to the root
    // carries the insertion's epoch
    let mut cursor = db
        .get(&NodeKey(NodeLabel::new(byte_arr_from_u64(0b100u64 << 61), 3u32)))
        .unwrap();
    loop {
        assert_eq!(cursor.last_epoch, 3);
        if cursor.label.len == 0 {
            break;
        }
        cursor = db.get(&NodeKey(cursor.parent)).unwrap();
    }
}
