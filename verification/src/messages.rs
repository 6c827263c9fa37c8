//! The messages of the quorum protocol: the public operations a node
//! accepts, the closed set of inter-node messages, and the encrypted frame
//! every wire message travels in.

use vstd::prelude::*;
use crate::history_tree_node::Node;

verus! {

/// The dense identifier of a quorum member.
pub type NodeId = u64;

/// A per-direction message counter rejecting replay and reorder.
pub type Nonce = u128;

/// A proof that all leaves present at one epoch remain present, with
/// identical values, at a later epoch.
#[derive(Clone, Debug, PartialEq)]
pub struct AppendOnlyProof {
    /// The nodes untouched between the two epochs.
    pub unchanged_nodes: Vec<Node>,
    /// The leaves inserted between the two epochs.
    pub inserted: Vec<Node>,
}

/// A request to witness one epoch's change of root hash.
#[derive(Clone, Debug, PartialEq)]
pub struct VerifyRequest {
    /// The root hash before the epoch.
    pub previous_hash: [u8; 32],
    /// The root hash after the epoch.
    pub new_hash: [u8; 32],
    /// The append-only proof linking the two.
    pub append_only_proof: AppendOnlyProof,
    /// The epoch under verification.
    pub epoch: u64,
}

/// A member's verdict on a verification request; the shard is present
/// exactly when the member approves.
#[derive(Clone, Debug, PartialEq)]
pub struct VerifyResponse {
    /// The new root hash the member verified.
    pub verified_hash: [u8; 32],
    /// The member's encrypted key shard, when it approves.
    pub encrypted_quorum_key_shard: Option<Vec<u8>>,
}

/// The leader's broadcast opening a member addition.
#[derive(Clone, Debug, PartialEq)]
pub struct AddNodeInit {
    /// The candidate's public key.
    pub public_key: Vec<u8>,
    /// How to reach the candidate.
    pub contact_info: String,
}

/// A member's verdict on a candidate; the shard is present exactly when the
/// member approves.
#[derive(Clone, Debug, PartialEq)]
pub struct AddNodeTestResult {
    /// The candidate under test.
    pub contact_info: String,
    /// The member's encrypted key shard, when it approves.
    pub encrypted_quorum_key_shard: Option<Vec<u8>>,
}

/// A freshly enrolled member as storage records it.
#[derive(Clone, Debug, PartialEq)]
pub struct MemberInformation {
    /// The member's dense identifier.
    pub node_id: NodeId,
    /// The member's public key.
    pub public_key: Vec<u8>,
    /// How to reach the member.
    pub contact_information: String,
}

/// The leader's delivery of a member's new shard after an addition.
#[derive(Clone, Debug, PartialEq)]
pub struct AddNodeResult {
    /// The receiving member's new shard.
    pub encrypted_quorum_key_shard: Option<Vec<u8>>,
    /// The member that was added.
    pub new_member: MemberInformation,
}

/// The challenge a member sends a candidate: an audit the candidate must
/// judge.
#[derive(Clone, Debug, PartialEq)]
pub struct NewNodeTest {
    /// The root hash before the challenge's change.
    pub previous_hash: [u8; 32],
    /// The root hash after the challenge's change.
    pub new_hash: [u8; 32],
    /// The public key of the member asking.
    pub requesters_public_key: Vec<u8>,
    /// The proof the candidate must audit.
    pub test_proof: AppendOnlyProof,
}

/// The candidate's verdict on its challenge.
#[derive(Clone, Copy, Debug, PartialEq)]
pub struct NewNodeTestResult {
    /// Whether the candidate judged the challenge's proof valid.
    pub test_pass: bool,
}

/// The leader's broadcast opening a member removal.
#[derive(Clone, Copy, Debug, PartialEq)]
pub struct RemoveNodeInit {
    /// The member to remove.
    pub node_id: NodeId,
}

/// A member's verdict on a removal; the shard is present exactly when the
/// member approves the removal.
#[derive(Clone, Debug, PartialEq)]
pub struct RemoveNodeTestResult {
    /// The member under removal.
    pub offending_member: NodeId,
    /// The voting member's encrypted key shard, when it approves.
    pub encrypted_quorum_key_shard: Option<Vec<u8>>,
}

/// The leader's delivery of a member's new shard after a removal.
#[derive(Clone, Debug, PartialEq)]
pub struct RemoveNodeResult {
    /// The member that was removed.
    pub offending_member: NodeId,
    /// The receiving member's new shard.
    pub encrypted_quorum_key_shard: Option<Vec<u8>>,
}

/// A plain acknowledgement of an inter-node instruction.
#[derive(Clone, Debug, PartialEq)]
pub struct InterNodeAck {
    /// Whether the instruction was carried out.
    pub ok: bool,
    /// The failure, as text, when it was not.
    pub err: Option<String>,
}

/// The closed set of messages quorum members exchange.
#[derive(Clone, Debug, PartialEq)]
pub enum InterNodeMessage {
    /// Witness an epoch's change.
    VerifyRequest(VerifyRequest),
    /// A verdict on an epoch's change.
    VerifyResponse(VerifyResponse),
    /// Open a member addition.
    AddNodeInit(AddNodeInit),
    /// A verdict on a candidate.
    AddNodeTestResult(AddNodeTestResult),
    /// Deliver a new shard after an addition.
    AddNodeResult(AddNodeResult),
    /// A challenge to a candidate.
    NewNodeTest(NewNodeTest),
    /// A candidate's verdict on its challenge.
    NewNodeTestResult(NewNodeTestResult),
    /// Open a member removal.
    RemoveNodeInit(RemoveNodeInit),
    /// A verdict on a removal.
    RemoveNodeTestResult(RemoveNodeTestResult),
    /// Deliver a new shard after a removal.
    RemoveNodeResult(RemoveNodeResult),
    /// A plain acknowledgement.
    InterNodeAck(InterNodeAck),
    /// The clock's tick, handed in when reception times out.
    TimerTick,
}

/// A publicly initiated request to witness an epoch.
#[derive(Clone, Debug, PartialEq)]
pub struct VerifyChangesRequest {
    /// The root hash before the epoch.
    pub previous_hash: [u8; 32],
    /// The root hash after the epoch.
    pub new_hash: [u8; 32],
    /// The append-only proof linking the two.
    pub append_only_proof: AppendOnlyProof,
    /// The epoch under verification.
    pub epoch: u64,
}

/// A publicly initiated request to enroll a member.
#[derive(Clone, Debug, PartialEq)]
pub struct EnrollMemberRequest {
    /// The candidate's public key.
    pub public_key: Vec<u8>,
    /// How to reach the candidate.
    pub contact_information: String,
}

/// A publicly initiated request to remove a member.
#[derive(Clone, Copy, Debug, PartialEq)]
pub struct RemoveMemberRequest {
    /// The member to remove.
    pub node_id: NodeId,
}

/// The three externally initiated operations.
#[derive(Clone, Debug, PartialEq)]
pub enum PublicNodeMessage {
    /// Witness an epoch.
    Verify(VerifyChangesRequest),
    /// Enroll a member.
    Enroll(EnrollMemberRequest),
    /// Remove a member.
    Remove(RemoveMemberRequest),
}

/// Anything a node can be handed: a public operation, or an inter-node
/// message together with its sender.
#[derive(Clone, Debug, PartialEq)]
pub enum NodeMessage {
    /// A public operation.
    Public(PublicNodeMessage),
    /// An inter-node message from the given sender.
    Internal(NodeId, InterNodeMessage),
}

/// The frame every wire message travels in.
#[derive(Clone, Debug, PartialEq)]
pub struct EncryptedMessage {
    /// The intended receiver.
    pub to: NodeId,
    /// The sender.
    pub from: NodeId,
    /// The ciphertext, carrying its nonce.
    pub encrypted_message_with_nonce: Vec<u8>,
}

/// A decrypted inter-node message.
#[derive(Clone, Debug, PartialEq)]
pub struct Message {
    /// Which node is the intended target.
    pub to: NodeId,
    /// Which node is the originator.
    pub from: NodeId,
    /// The message nonce.
    pub nonce: Nonce,
    /// The message payload.
    pub serialized_message: Vec<u8>,
}

} // verus!
