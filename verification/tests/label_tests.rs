//! The label algebra and the binary key layout.

use akd::history_tree_node::{
    get_full_binary_key_id, key_from_full_binary, NodeKey, HISTORY_TREE_NODE_TAG,
};
use akd::label::{byte_arr_from_u64, NodeLabel};

#[test]
fn bits_are_counted_from_the_top() {
    let label = NodeLabel::new(byte_arr_from_u64(0b101u64 << 61), 3u32);
    assert!(label.get_bit_at(0));
    assert!(!label.get_bit_at(1));
    assert!(label.get_bit_at(2));
}

#[test]
fn new_clears_insignificant_bits() {
    let all_set = [0xffu8; 32];
    let label = NodeLabel::new(all_set, 4u32);
    assert_eq!(label.val[0], 0xf0u8);
    for i in 1..32 {
        assert_eq!(label.val[i], 0u8);
    }
}

#[test]
fn longest_common_prefix_and_dirs() {
    let a = NodeLabel::new(byte_arr_from_u64(0b1010u64 << 60), 4u32);
    let b = NodeLabel::new(byte_arr_from_u64(0b1001u64 << 60), 4u32);
    let (p, dir_b, dir_a) = a.get_longest_common_prefix_and_dirs(b);
    assert_eq!(p.len, 2);
    assert!(p.label_eq(&NodeLabel::new(byte_arr_from_u64(0b10u64 << 62), 2u32)));
    // a continues with bit 1, b with bit 0 after the shared prefix
    assert_eq!(dir_a, Some(1));
    assert_eq!(dir_b, Some(0));

    // a label against its own prefix descends on one side only
    let (p2, dir_other, dir_self) = p.get_longest_common_prefix_and_dirs(a);
    assert_eq!(p2.len, 2);
    assert_eq!(dir_self, None);
    assert_eq!(dir_other, Some(1));
}

#[test]
fn label_equality_is_material_equality() {
    let a = NodeLabel::new(byte_arr_from_u64(0b11u64 << 62), 2u32);
    let b = NodeLabel::new(byte_arr_from_u64(0b11u64 << 62), 2u32);
    let c = NodeLabel::new(byte_arr_from_u64(0b11u64 << 62), 3u32);
    assert!(a.label_eq(&b));
    assert!(!a.label_eq(&c));
}

#[test]
fn binary_key_round_trip() {
    let label = NodeLabel::new(byte_arr_from_u64(0xdead_beefu64 << 32), 37u32);
    let key = NodeKey(label);
    let bytes = get_full_binary_key_id(&key);
    assert_eq!(bytes.len(), 37);
    assert_eq!(bytes[0], HISTORY_TREE_NODE_TAG);
    let decoded = key_from_full_binary(&bytes).unwrap();
    assert_eq!(decoded, key);
}

#[test]
fn binary_key_rejects_bad_input() {
    // too short
    assert!(key_from_full_binary(&[HISTORY_TREE_NODE_TAG; 36]).is_err());
    // wrong tag
    let mut bytes = vec![0u8; 37];
    bytes[0] = HISTORY_TREE_NODE_TAG.wrapping_add(1);
    assert!(key_from_full_binary(&bytes).is_err());
    // a length over the label width
    let mut bytes = vec![0u8; 37];
    bytes[0] = HISTORY_TREE_NODE_TAG;
    bytes[1] = 0x01;
    bytes[2] = 0x01;
    assert!(key_from_full_binary(&bytes).is_err());
}
