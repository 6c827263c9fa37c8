//! The error kinds of the library: storage faults, structural faults of the
//! history tree, communication faults of the quorum, and the wrapper that the
//! quorum operations return.

use vstd::prelude::*;
use crate::label::NodeLabel;

verus! {

/// Faults of the node store.
#[derive(Clone, Debug, PartialEq)]
pub enum StorageError {
    /// No record under the requested key.
    NotFound(String),
    /// A record could not be encoded or decoded.
    SerialisationError(String),
    /// Any other backend fault.
    Other(String),
}

/// Structural faults found while walking the history tree.
#[derive(Clone, Debug, PartialEq)]
pub enum HistoryTreeNodeError {
    /// A step was asked of a node without a direction to follow: the label,
    /// and the child slot that was consulted.
    NoDirection(NodeLabel, Option<NodeLabel>),
    /// The descent needed a child that the node does not have: the epoch of
    /// the insertion and the direction that was empty.
    NoChildAtEpoch(u64, usize),
}

/// Any fault of the history-tree core.
#[derive(Clone, Debug, PartialEq)]
pub enum AkdError {
    /// A storage fault, passed on verbatim.
    Storage(StorageError),
    /// A structural fault of the tree.
    HistoryTreeNode(HistoryTreeNodeError),
}

/// Faults of the inter-node channel.
#[derive(Clone, Debug, PartialEq)]
pub enum CommunicationError {
    /// The peer did not answer in time.
    Timeout,
    /// The message could not be sent.
    SendError(String),
    /// The message could not be received or was not meant for this node.
    ReceiveError(String),
    /// An inbound nonce did not advance: the last nonce accepted from the
    /// sender, the nonce that arrived, and a description.
    NonceError(u128, u128, String),
}

/// Any fault of a quorum operation.
#[derive(Clone, Debug, PartialEq)]
pub enum QuorumOperationError {
    /// A channel fault.
    Communication(CommunicationError),
    /// A storage fault.
    Storage(StorageError),
    /// A fault of the cryptographic layer, as text.
    Crypto(String),
    /// Any other fault, as text.
    Other(String),
}

} // verus!
