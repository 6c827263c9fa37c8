//! The 256-bit hash the tree is built with, and the hashing rule's inputs:
//! the digest of a byte string, the pair-merge of two digests, the canonical
//! hash of a label, and the fixed hash that stands for an absent child.

use vstd::prelude::*;
use crate::label::NodeLabel;
use winter_crypto::Digest;
use winter_crypto::Hasher;
use winter_utils::Deserializable;

verus! {

/// The concrete 256-bit hasher behind the trusted digest calls. Blake3's
/// output does not depend on the field-element parameter.
type Blake3 = winter_crypto::hashers::Blake3_256<winter_math::fields::f62::BaseElement>;

/// The raw value whose digest an empty-value leaf carries.
pub const EMPTY_VALUE: [u8; 1] = [0u8];

/// The digest that the configured 256-bit hash assigns to a byte string.
pub uninterp spec fn hash_of(input: Seq<u8>) -> Seq<u8>;

/// The pair-concatenation hash of two digests: the digest of one followed by
/// the other.
pub open spec fn merge_of(a: Seq<u8>, b: Seq<u8>) -> Seq<u8> {
    hash_of(a + b)
}

/// Relies on winter_crypto's Blake3_256::hash: the digest of the given bytes,
/// 32 bytes long, a function of the input alone.
#[verifier::external_body]
fn hash_bytes(bytes: &[u8]) -> (r: [u8; 32])
    ensures
        r@ == hash_of(bytes@),
{
    Blake3::hash(bytes).as_bytes()
}

/// Relies on winter_crypto's Blake3_256::merge, whose result is the Blake3
/// digest of the two 32-byte digests concatenated.
#[verifier::external_body]
fn merge_digests(a: &[u8; 32], b: &[u8; 32]) -> (r: [u8; 32])
    ensures
        r@ == merge_of(a@, b@),
{
    let da = <Blake3 as Hasher>::Digest::read_from_bytes(a).expect("32 bytes form a digest");
    let db = <Blake3 as Hasher>::Digest::read_from_bytes(b).expect("32 bytes form a digest");
    Blake3::merge(&[da, db]).as_bytes()
}

/// The little-endian bytes of a 32-bit length.
pub open spec fn u32_le_bytes(x: u32) -> Seq<u8> {
    seq![x as u8, (x >> 8u32) as u8, (x >> 16u32) as u8, (x >> 24u32) as u8]
}

/// The bytes over which a label is hashed: its length, little endian, then
/// its 32 bytes of bit material.
pub open spec fn label_hash_input(label: NodeLabel) -> Seq<u8> {
    u32_le_bytes(label.len) + label.val@
}

/// The digest of a byte string.
pub fn hash_value(bytes: &[u8]) -> (r: [u8; 32])
    ensures
        r@ == hash_of(bytes@),
{
    hash_bytes(bytes)
}

/// The pair-concatenation hash of two digests.
pub fn merge(a: &[u8; 32], b: &[u8; 32]) -> (r: [u8; 32])
    ensures
        r@ == merge_of(a@, b@),
{
    merge_digests(a, b)
}

/// The canonical hash of a label: the digest of its length and its bits.
pub fn hash_label(label: NodeLabel) -> (r: [u8; 32])
    ensures
        r@ == hash_of(label_hash_input(label)),
{
    let mut input: Vec<u8> = Vec::new();
    input.push(label.len as u8);
    input.push((label.len >> 8u32) as u8);
    input.push((label.len >> 16u32) as u8);
    input.push((label.len >> 24u32) as u8);
    let mut j: usize = 0;
    while j < 32
        invariant
            j <= 32,
            input@.len() == 4 + j,
            input@ =~= u32_le_bytes(label.len) + label.val@.take(j as int),
        decreases 32 - j,
    {
        input.push(label.val[j]);
        proof {
            assert(input@ =~= u32_le_bytes(label.len) + label.val@.take(j + 1));
        }
        j += 1;
    }
    proof {
        assert(label.val@.take(32) =~= label.val@);
        assert(input@ =~= label_hash_input(label));
    }
    hash_bytes(input.as_slice())
}

/// The bytes over which the empty label is hashed: a zero length and 32 zero
/// bytes of bit material.
pub open spec fn empty_label_hash_input() -> Seq<u8> {
    u32_le_bytes(0) + Seq::new(32, |i: int| 0u8)
}

/// What an absent child contributes to its parent's hash: a fixed constant,
/// the merge of the empty value's digest with the hash of the empty label.
pub open spec fn empty_node_hash_spec() -> Seq<u8> {
    merge_of(hash_of(seq![0u8]), hash_of(empty_label_hash_input()))
}

/// The fixed hash that stands for an absent child.
pub fn empty_node_hash() -> (r: [u8; 32])
    ensures
        r@ == empty_node_hash_spec(),
{
    let empty_value: [u8; 1] = [0u8; 1];
    proof {
        assert(empty_value@ =~= seq![0u8]);
    }
    let value_hash = hash_bytes(empty_value.as_slice());
    let el = crate::label::empty_label();
    let label_hash = hash_label(el);
    proof {
        assert(label_hash_input(el) =~= empty_label_hash_input());
    }
    merge(&value_hash, &label_hash)
}

} // verus!
