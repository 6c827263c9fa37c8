//! End-to-end insertions into the history tree, checked against explicitly
//! computed Merkle reductions, and the hashing primitives checked against
//! the backing hash implementation.

use akd::errors::{AkdError, HistoryTreeNodeError};
use akd::hashing::{hash_label, hash_value, merge, EMPTY_VALUE};
use akd::history_tree_node::{get_empty_root, get_leaf_node, HistoryTreeNode, NodeKey, NodeType};
use akd::label::{byte_arr_from_u64, NodeLabel};
use akd::storage::InMemoryDatabase;
use winter_crypto::{Digest, Hasher};

type Blake3 = winter_crypto::hashers::Blake3_256<winter_math::fields::f62::BaseElement>;

#[test]
fn hashing_matches_backend() {
    let h = hash_value(&[1u8, 2u8, 3u8]);
    let expected = Blake3::hash(&[1u8, 2u8, 3u8]).as_bytes();
    assert_eq!(h, expected);

    // the pair merge is the digest of the two digests concatenated
    let a = hash_value(&[1u8]);
    let b = hash_value(&[2u8]);
    let mut concatenated = Vec::new();
    concatenated.extend_from_slice(&a);
    concatenated.extend_from_slice(&b);
    let merged = merge(&a, &b);
    assert_eq!(merged, Blake3::hash(&concatenated).as_bytes());
}

#[test]
fn test_insert_single_leaf_root() {
    let mut db = InMemoryDatabase::new();

    let mut root = get_empty_root(&db, Option::Some(0u64)).unwrap();
    root.write_to_storage(&mut db).unwrap();

    // Num nodes in total (currently only the root).
    let mut num_nodes = 1u64;

    // Prepare the leaf to be inserted with label 0.
    let leaf_0 = get_leaf_node(
        &db,
        NodeLabel::new(byte_arr_from_u64(0b0u64), 1u32),
        &hash_value(&EMPTY_VALUE),
        NodeLabel::root(),
        0,
    )
    .unwrap();

    root.insert_single_leaf(&mut db, leaf_0, 0, &mut num_nodes).unwrap();
    assert_eq!(num_nodes, 2);

    // Prepare another leaf to insert with label 1.
    let leaf_1 = get_leaf_node(
        &db,
        NodeLabel::new(byte_arr_from_u64(0b1u64 << 63), 1u32),
        &hash_value(&[1u8]),
        NodeLabel::root(),
        0,
    )
    .unwrap();

    // Insert leaf 1.
    root.insert_single_leaf(&mut db, leaf_1, 0, &mut num_nodes).unwrap();

    // Calculate expected root hash.
    let leaf_0_hash = merge(
        &hash_value(&EMPTY_VALUE),
        &hash_label(NodeLabel::new(byte_arr_from_u64(0b0u64), 1u32)),
    );
    let leaf_1_hash = merge(
        &hash_value(&[1u8]),
        &hash_label(NodeLabel::new(byte_arr_from_u64(0b1u64 << 63), 1u32)),
    );

    // Merge leaves hash along with the root label.
    let leaves_hash = merge(&leaf_0_hash, &leaf_1_hash);
    let expected = merge(&leaves_hash, &hash_label(root.label));

    // Get root hash
    let stored_root = db.get(&NodeKey(NodeLabel::root())).expect("Root not found in storage.");
    assert_eq!(stored_root.hash, expected, "Root hash not equal to expected");
}

#[test]
fn test_insert_single_leaf_below_root() {
    let mut db = InMemoryDatabase::new();
    let mut root = get_empty_root(&db, Option::Some(0u64)).unwrap();
    let new_leaf = get_leaf_node(
        &db,
        NodeLabel::new(byte_arr_from_u64(0b00u64), 2u32),
        &hash_value(&EMPTY_VALUE),
        NodeLabel::root(),
        1,
    )
    .unwrap();

    let leaf_1 = get_leaf_node(
        &db,
        NodeLabel::new(byte_arr_from_u64(0b11u64 << 62), 2u32),
        &hash_value(&[1u8]),
        NodeLabel::root(),
        2,
    )
    .unwrap();

    let leaf_2 = get_leaf_node(
        &db,
        NodeLabel::new(byte_arr_from_u64(0b10u64 << 62), 2u32),
        &hash_value(&[1u8, 1u8]),
        NodeLabel::root(),
        3,
    )
    .unwrap();

    let leaf_0_hash = merge(&hash_value(&EMPTY_VALUE), &hash_label(new_leaf.label));
    let leaf_1_hash = merge(&hash_value(&[0b1u8]), &hash_label(leaf_1.label));
    let leaf_2_hash = merge(&hash_value(&[1u8, 1u8]), &hash_label(leaf_2.label));

    let right_child_expected_hash = merge(
        &merge(&leaf_2_hash, &leaf_1_hash),
        &hash_label(NodeLabel::new(byte_arr_from_u64(0b1u64 << 63), 1u32)),
    );

    root.write_to_storage(&mut db).unwrap();
    let mut num_nodes = 1u64;

    root.insert_single_leaf(&mut db, new_leaf, 1, &mut num_nodes).unwrap();
    root.insert_single_leaf(&mut db, leaf_1, 2, &mut num_nodes).unwrap();
    root.insert_single_leaf(&mut db, leaf_2, 3, &mut num_nodes).unwrap();

    let stored_root = db.get(&NodeKey(NodeLabel::root())).expect("Root not found in storage.");

    let expected = merge(
        &merge(&leaf_0_hash, &right_child_expected_hash),
        &hash_label(root.label),
    );
    assert!(stored_root.hash == expected, "Root hash not equal to expected");
}

#[test]
fn test_insert_single_leaf_below_root_both_sides() {
    let mut db = InMemoryDatabase::new();
    let mut root = get_empty_root(&db, Option::Some(0u64)).unwrap();

    let new_leaf = get_leaf_node(
        &db,
        NodeLabel::new(byte_arr_from_u64(0b000u64), 3u32),
        &hash_value(&EMPTY_VALUE),
        NodeLabel::root(),
        0,
    )
    .unwrap();

    let leaf_1 = get_leaf_node(
        &db,
        NodeLabel::new(byte_arr_from_u64(0b111u64 << 61), 3u32),
        &hash_value(&[1u8]),
        NodeLabel::root(),
        0,
    )
    .unwrap();

    let leaf_2 = get_leaf_node(
        &db,
        NodeLabel::new(byte_arr_from_u64(0b100u64 << 61), 3u32),
        &hash_value(&[1u8, 1u8]),
        NodeLabel::root(),
        0,
    )
    .unwrap();

    let leaf_3 = get_leaf_node(
        &db,
        NodeLabel::new(byte_arr_from_u64(0b010u64 << 61), 3u32),
        &hash_value(&[0u8, 1u8]),
        NodeLabel::root(),
        0,
    )
    .unwrap();

    let leaf_0_hash = merge(&hash_value(&EMPTY_VALUE), &hash_label(new_leaf.label));
    let leaf_1_hash = merge(&hash_value(&[1u8]), &hash_label(leaf_1.label));
    let leaf_2_hash = merge(&hash_value(&[1u8, 1u8]), &hash_label(leaf_2.label));
    let leaf_3_hash = merge(&hash_value(&[0u8, 1u8]), &hash_label(leaf_3.label));

    // Children: left: leaf2, right: leaf1, label: 1
    let right_child_expected_hash = merge(
        &merge(&leaf_2_hash, &leaf_1_hash),
        &hash_label(NodeLabel::new(byte_arr_from_u64(0b1u64 << 63), 1u32)),
    );

    // Children: left: new_leaf, right: leaf3, label: 0
    let left_child_expected_hash = merge(
        &merge(&leaf_0_hash, &leaf_3_hash),
        &hash_label(NodeLabel::new(byte_arr_from_u64(0b0u64), 1u32)),
    );

    root.write_to_storage(&mut db).unwrap();
    let mut num_nodes = 1u64;

    root.insert_single_leaf(&mut db, new_leaf, 1, &mut num_nodes).unwrap();
    root.insert_single_leaf(&mut db, leaf_1, 2, &mut num_nodes).unwrap();
    root.insert_single_leaf(&mut db, leaf_2, 3, &mut num_nodes).unwrap();
    root.insert_single_leaf(&mut db, leaf_3, 4, &mut num_nodes).unwrap();

    let stored_root = db.get(&NodeKey(NodeLabel::root())).expect("Root not found in storage.");

    let expected = merge(
        &merge(&left_child_expected_hash, &right_child_expected_hash),
        &hash_label(root.label),
    );
    assert!(stored_root.hash == expected, "Root hash not equal to expected");

    // the interior node the third insertion created exists with both
    // children in place
    let interior = db
        .get(&NodeKey(NodeLabel::new(byte_arr_from_u64(0b1u64 << 63), 1u32)))
        .unwrap();
    assert_eq!(interior.node_type, NodeType::Interior);
    assert_eq!(
        interior.left_child,
        Some(NodeLabel::new(byte_arr_from_u64(0b100u64 << 61), 3u32))
    );
    assert_eq!(
        interior.right_child,
        Some(NodeLabel::new(byte_arr_from_u64(0b111u64 << 61), 3u32))
    );
}

#[test]
fn test_insert_single_leaf_full_tree() {
    let mut db = InMemoryDatabase::new();
    let mut root = get_empty_root(&db, Option::Some(0u64)).unwrap();
    root.write_to_storage(&mut db).unwrap();
    let mut num_nodes = 1u64;
    let mut leaves = Vec::<HistoryTreeNode>::new();
    let mut leaf_hashes = Vec::new();
    for i in 0u64..8u64 {
        let leaf_u64 = i << 61;
        let new_leaf = get_leaf_node(
            &db,
            NodeLabel::new(byte_arr_from_u64(leaf_u64), 3u32),
            &hash_value(&leaf_u64.to_be_bytes()),
            NodeLabel::root(),
            7 - i,
        )
        .unwrap();
        leaf_hashes.push(merge(
            &hash_value(&leaf_u64.to_be_bytes()),
            &hash_label(new_leaf.label),
        ));
        leaves.push(new_leaf);
    }

    let mut layer_1_hashes = Vec::new();
    let mut j = 0u64;
    for i in 0..4 {
        let left_child_hash = leaf_hashes[2 * i];
        let right_child_hash = leaf_hashes[2 * i + 1];
        layer_1_hashes.push(merge(
            &merge(&left_child_hash, &right_child_hash),
            &hash_label(NodeLabel::new(byte_arr_from_u64(j << 62), 2u32)),
        ));
        j += 1;
    }

    let mut layer_2_hashes = Vec::new();
    let mut j = 0u64;
    for i in 0..2 {
        let left_child_hash = layer_1_hashes[2 * i];
        let right_child_hash = layer_1_hashes[2 * i + 1];
        layer_2_hashes.push(merge(
            &merge(&left_child_hash, &right_child_hash),
            &hash_label(NodeLabel::new(byte_arr_from_u64(j << 63), 1u32)),
        ));
        j += 1;
    }

    let expected = merge(
        &merge(&layer_2_hashes[0], &layer_2_hashes[1]),
        &hash_label(root.label),
    );

    for i in 0..8 {
        let ep: u64 = i as u64;
        root.insert_single_leaf(&mut db, leaves[7 - i].clone(), ep + 1, &mut num_nodes).unwrap();
    }

    let stored_root = db.get(&NodeKey(NodeLabel::root())).expect("Root not found in storage.");
    assert!(stored_root.hash == expected, "Root hash not equal to expected");
}

#[test]
fn node_getters_report_the_record() {
    let mut db = InMemoryDatabase::new();
    let mut root = get_empty_root(&db, Option::Some(2u64)).unwrap();
    root.write_to_storage(&mut db).unwrap();
    assert!(root.is_root());
    assert!(!root.is_leaf());
    assert_eq!(root.get_birth_epoch(), 2);
    assert_eq!(root.get_latest_epoch(), 2);
    assert_eq!(root.get_child(&db, Some(0)).unwrap(), None);
    assert!(root.get_child(&db, None).is_err());

    let mut num_nodes = 1u64;
    let label = NodeLabel::new(byte_arr_from_u64(0b1u64 << 63), 1u32);
    let leaf = get_leaf_node(&db, label, &hash_value(&[3u8]), NodeLabel::root(), 3).unwrap();
    root.insert_single_leaf(&mut db, leaf, 3, &mut num_nodes).unwrap();
    assert_eq!(root.get_child_label(Some(1)), Some(label));
    let stored_leaf = db.get(&NodeKey(label)).unwrap();
    assert!(stored_leaf.is_leaf());
    assert_eq!(root.get_direction(&stored_leaf), Some(1));
    assert_eq!(NodeType::from_u8(NodeType::Interior.as_u8()), NodeType::Interior);
    assert_eq!(NodeType::from_u8(0), NodeType::Leaf);
}

#[test]
fn duplicate_insert_is_rejected_and_changes_nothing() {
    let mut db = InMemoryDatabase::new();
    let mut root = get_empty_root(&db, Option::Some(0u64)).unwrap();
    root.write_to_storage(&mut db).unwrap();
    let mut num_nodes = 1u64;

    let label = NodeLabel::new(byte_arr_from_u64(0b01u64 << 62), 2u32);
    let leaf = get_leaf_node(&db, label, &hash_value(&[7u8]), NodeLabel::root(), 1).unwrap();
    root.insert_single_leaf(&mut db, leaf, 1, &mut num_nodes).unwrap();
    let hash_before = db.get(&NodeKey(NodeLabel::root())).unwrap().hash;

    // inserting the same label again is rejected and the tree is unchanged
    let duplicate = get_leaf_node(&db, label, &hash_value(&[9u8]), NodeLabel::root(), 2).unwrap();
    let result = root.insert_single_leaf(&mut db, duplicate, 2, &mut num_nodes);
    assert!(result.is_err());
    let hash_after = db.get(&NodeKey(NodeLabel::root())).unwrap().hash;
    assert_eq!(hash_before, hash_after);
}

#[test]
fn insert_below_existing_leaf_reports_missing_child() {
    let mut db = InMemoryDatabase::new();
    let mut root = get_empty_root(&db, Option::Some(0u64)).unwrap();
    root.write_to_storage(&mut db).unwrap();
    let mut num_nodes = 1u64;

    let shallow = NodeLabel::new(byte_arr_from_u64(0b0u64), 1u32);
    let leaf = get_leaf_node(&db, shallow, &hash_value(&[1u8]), NodeLabel::root(), 1).unwrap();
    root.insert_single_leaf(&mut db, leaf, 1, &mut num_nodes).unwrap();

    // a label that extends a stored leaf's label has no child to descend to
    let deeper = NodeLabel::new(byte_arr_from_u64(0b00u64), 2u32);
    let below = get_leaf_node(&db, deeper, &hash_value(&[2u8]), NodeLabel::root(), 2).unwrap();
    let result = root.insert_single_leaf(&mut db, below, 2, &mut num_nodes);
    assert!(matches!(
        result,
        Err(AkdError::HistoryTreeNode(HistoryTreeNodeError::NoChildAtEpoch(_, _)))
    ));
}

#[test]
fn insertion_order_does_not_change_the_root_hash() {
    let labels: [(u64, u32); 4] = [(0b000u64 << 61, 3), (0b111u64 << 61, 3), (0b100u64 << 61, 3), (0b010u64 << 61, 3)];
    let mut hashes = Vec::new();
    for order in [[0usize, 1, 2, 3], [3, 2, 1, 0], [2, 0, 3, 1]] {
        let mut db = InMemoryDatabase::new();
        let mut root = get_empty_root(&db, Option::Some(0u64)).unwrap();
        root.write_to_storage(&mut db).unwrap();
        let mut num_nodes = 1u64;
        for (step, idx) in order.iter().enumerate() {
            let (value, len) = labels[*idx];
            let label = NodeLabel::new(byte_arr_from_u64(value), len);
            let leaf =
                get_leaf_node(&db, label, &hash_value(&value.to_be_bytes()), NodeLabel::root(), step as u64 + 1)
                    .unwrap();
            root.insert_single_leaf(&mut db, leaf, step as u64 + 1, &mut num_nodes).unwrap();
        }
        hashes.push(db.get(&NodeKey(NodeLabel::root())).unwrap().hash);
    }
    assert_eq!(hashes[0], hashes[1]);
    assert_eq!(hashes[0], hashes[2]);
}
