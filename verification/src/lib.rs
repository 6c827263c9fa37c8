//! An authenticated key directory: a versioned, path-compressed
//! Patricia-Merkle history tree over 256-bit labels, and the quorum
//! state machine that witnesses each new directory epoch.

pub mod errors;
pub mod hashing;
pub mod history_tree_node;
pub mod label;
pub mod messages;
pub mod node;
pub mod nonces;
pub mod storage;
