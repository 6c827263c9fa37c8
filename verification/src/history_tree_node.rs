//! The nodes of the history Patricia tree: the record each node persists,
//! the well-formedness of the stored tree, and the insertion and hashing
//! algorithm over the node store.

use vstd::prelude::*;
use crate::errors::{AkdError, HistoryTreeNodeError, StorageError};
use crate::hashing;
use crate::label::{bit_of, dir_after, is_prefix, Direction, NodeLabel};
use crate::storage::InMemoryDatabase;

verus! {

/// There are three types of nodes: root, leaf and interior.
#[derive(Eq, PartialEq, Debug, Copy, Clone)]
pub enum NodeType {
    /// Nodes with this type have no children.
    Leaf,
    /// The node without a parent; its label has no significant bits.
    Root,
    /// Nodes of this type have exactly two children.
    Interior,
}

impl NodeType {
    /// The storage tag of each node type, matching `from_u8`.
    pub open spec fn as_u8_spec(self) -> u8 {
        match self {
            NodeType::Leaf => 1u8,
            NodeType::Root => 2u8,
            NodeType::Interior => 3u8,
        }
    }

    /// Decodes a stored node-type tag; unknown tags read as leaves.
    pub fn from_u8(code: u8) -> (r: Self)
        ensures
            r == (match code {
                1u8 => NodeType::Leaf,
                2u8 => NodeType::Root,
                3u8 => NodeType::Interior,
                _ => NodeType::Leaf,
            }),
    {
        match code {
            1 => Self::Leaf,
            2 => Self::Root,
            3 => Self::Interior,
            _ => Self::Leaf,
        }
    }

    /// Encodes this node type as its storage tag.
    pub fn as_u8(self) -> (r: u8)
        ensures
            r == self.as_u8_spec(),
    {
        match self {
            NodeType::Leaf => 1,
            NodeType::Root => 2,
            NodeType::Interior => 3,
        }
    }
}

/// The byte that tags a serialized node key.
pub const HISTORY_TREE_NODE_TAG: u8 = 2;

/// The record a node persists: its label, the epochs of its creation and of
/// its last mutation, its parent's label, its kind, its children's labels,
/// and its hash.
#[derive(Debug, Copy, Clone, PartialEq)]
pub struct HistoryTreeNode {
    /// The binary label for this node.
    pub label: NodeLabel,
    /// The last epoch this node was updated in.
    pub last_epoch: u64,
    /// The epoch that this node was birthed in.
    pub birth_epoch: u64,
    /// The label of this node's parent; the root is its own parent.
    pub parent: NodeLabel,
    /// The type of node: leaf, root or interior.
    pub node_type: NodeType,
    /// The label of the left child, when there is one.
    pub left_child: Option<NodeLabel>,
    /// The label of the right child, when there is one.
    pub right_child: Option<NodeLabel>,
    /// The node's hash.
    pub hash: [u8; 32],
}

/// Wraps the label with which to find a node in storage.
#[derive(Clone, Copy, PartialEq, Eq, Hash, Debug)]
pub struct NodeKey(pub NodeLabel);

/// A simple (label, hash) pair, as proofs carry nodes.
#[derive(Clone, Copy, Debug, PartialEq)]
pub struct Node {
    /// The node's label.
    pub label: NodeLabel,
    /// The node's hash.
    pub hash: [u8; 32],
}

/// A child as its parent summarises it.
#[derive(Clone, Copy, Debug, PartialEq)]
pub struct HistoryChildState {
    /// The child's label.
    pub label: NodeLabel,
    /// The child's hash as merged into the parent.
    pub hash_val: [u8; 32],
    /// The epoch of the child's last update.
    pub epoch_version: u64,
}

/// The key under which a node's per-epoch state is filed: the label and the
/// epoch.
#[derive(Clone, Copy, Debug, PartialEq, Eq, Hash)]
pub struct NodeStateKey(pub NodeLabel, pub u64);

/// The state-map key of a node at a given epoch.
pub fn get_state_map_key(node: &HistoryTreeNode, key: u64) -> (r: NodeStateKey)
    ensures
        r == NodeStateKey(node.label, key),
{
    NodeStateKey(node.label, key)
}

// =====================================================
// Well-formedness of the stored tree
// =====================================================

/// The edge conditions of a present child `c` of `n`: the child is stored,
/// its label extends the parent's by at least one bit, the first extending
/// bit selects the slot, and the child's parent pointer closes the edge.
pub open spec fn child_ok(
    m: Map<Seq<bool>, HistoryTreeNode>,
    n: HistoryTreeNode,
    c: NodeLabel,
    right: bool,
) -> bool {
    &&& c.is_canonical()
    &&& m.dom().contains(c@)
    &&& n.label@.len() < c@.len()
    &&& c@.take(n.label@.len() as int) == n.label@
    &&& c@[n.label@.len() as int] == right
    &&& m[c@].parent == n.label
}

/// The edge conditions of a non-root node `n` toward its parent: the parent
/// is stored, its label is a proper prefix of `n`'s, and the parent's slot
/// selected by `n`'s first extending bit holds `n`.
pub open spec fn parent_ok(m: Map<Seq<bool>, HistoryTreeNode>, n: HistoryTreeNode) -> bool {
    &&& m.dom().contains(n.parent@)
    &&& n.parent@.len() < n.label@.len()
    &&& n.label@.take(n.parent@.len() as int) == n.parent@
    &&& (if n.label@[n.parent@.len() as int] {
        m[n.parent@].right_child == Some(n.label)
    } else {
        m[n.parent@].left_child == Some(n.label)
    })
}

/// The local conditions of one stored node.
pub open spec fn node_wf(m: Map<Seq<bool>, HistoryTreeNode>, n: HistoryTreeNode) -> bool {
    &&& n.label.is_canonical()
    &&& n.parent.is_canonical()
    &&& n.birth_epoch <= n.last_epoch
    &&& (n.node_type is Root <==> n.label@.len() == 0)
    &&& (n.node_type is Root ==> n.parent == n.label)
    &&& (n.node_type is Leaf ==> n.left_child is None && n.right_child is None)
    &&& (n.node_type is Interior ==> n.left_child is Some && n.right_child is Some)
    &&& (match n.left_child {
        Some(c) => child_ok(m, n, c, false),
        None => true,
    })
    &&& (match n.right_child {
        Some(c) => child_ok(m, n, c, true),
        None => true,
    })
    &&& (!(n.node_type is Root) ==> parent_ok(m, n))
}

/// One stored record, filed under its own label and meeting its local
/// conditions. Kept opaque so that the well-formedness quantifier does not
/// unfold into the conditions of ever-deeper children.
#[verifier::opaque]
pub open spec fn node_ok(m: Map<Seq<bool>, HistoryTreeNode>, k: Seq<bool>) -> bool {
    m[k].label@ == k && node_wf(m, m[k])
}

/// The stored tree is well formed: a root is stored under the empty label,
/// every record is filed under its own label, and every record meets its
/// local conditions.
pub open spec fn tree_wf(m: Map<Seq<bool>, HistoryTreeNode>) -> bool {
    &&& m.dom().contains(Seq::<bool>::empty())
    &&& m[Seq::<bool>::empty()].node_type is Root
    &&& forall|k: Seq<bool>| #[trigger] m.dom().contains(k) ==> node_ok(m, k)
}

/// Every stored record of a well-formed tree meets its local conditions.
pub proof fn lemma_node_ok(m: Map<Seq<bool>, HistoryTreeNode>, k: Seq<bool>)
    requires
        tree_wf(m),
        m.dom().contains(k),
    ensures
        m[k].label@ == k,
        node_wf(m, m[k]),
{
    reveal(node_ok);
    assert(node_ok(m, k));
}

/// A record filed under its own label that meets its local conditions is in
/// order.
pub proof fn lemma_node_ok_intro(m: Map<Seq<bool>, HistoryTreeNode>, k: Seq<bool>)
    requires
        m[k].label@ == k,
        node_wf(m, m[k]),
    ensures
        node_ok(m, k),
{
    reveal(node_ok);
}

/// Every stored record was last written at or before `e`.
pub open spec fn epochs_bounded(m: Map<Seq<bool>, HistoryTreeNode>, e: u64) -> bool {
    forall|k: Seq<bool>| #[trigger] m.dom().contains(k) ==> m[k].last_epoch <= e
}

/// The hash a child slot contributes under the hashing rule: the stored
/// child's hash, or the fixed empty-node constant for an empty slot.
pub open spec fn slot_hash(m: Map<Seq<bool>, HistoryTreeNode>, c: Option<NodeLabel>) -> Seq<u8> {
    match c {
        Some(cl) => if m.dom().contains(cl@) {
            m[cl@].hash@
        } else {
            hashing::empty_node_hash_spec()
        },
        None => hashing::empty_node_hash_spec(),
    }
}

/// The hash the hashing rule assigns to a node over the store `m`: for a
/// leaf, its raw value hash merged with its label's hash; for any other
/// node, the merge of its two slots' hashes merged with its label's hash.
pub open spec fn computed_hash(m: Map<Seq<bool>, HistoryTreeNode>, n: HistoryTreeNode) -> Seq<
    u8,
> {
    if n.node_type is Leaf {
        hashing::merge_of(n.hash@, hashing::hash_of(hashing::label_hash_input(n.label)))
    } else {
        hashing::merge_of(
            hashing::merge_of(slot_hash(m, n.left_child), slot_hash(m, n.right_child)),
            hashing::hash_of(hashing::label_hash_input(n.label)),
        )
    }
}

/// In a well-formed store, descending from a stored node `x` toward a longer
/// stored key `y` always follows a present slot whose child's label is again
/// a prefix of `y`: two stored nodes on one path are linked by the descent.
#[verifier::rlimit(60)]
pub proof fn lemma_descent(m: Map<Seq<bool>, HistoryTreeNode>, x: Seq<bool>, y: Seq<bool>)
    requires
        tree_wf(m),
        m.dom().contains(x),
        m.dom().contains(y),
        x.len() < y.len(),
        is_prefix(x, y),
    ensures
        ({
            let slot = if y[x.len() as int] {
                m[x].right_child
            } else {
                m[x].left_child
            };
            &&& slot is Some
            &&& is_prefix(slot.unwrap()@, y)
            &&& x.len() < slot.unwrap()@.len()
        }),
    decreases y.len(),
{
    let ny = m[y];
    lemma_node_ok(m, y);
    assert(!(ny.node_type is Root));
    let py = ny.parent@;
    assert(parent_ok(m, ny));
    assert(is_prefix(py, y)) by {
        assert(y.take(py.len() as int) == py);
    }
    if py.len() == x.len() {
        assert(y.take(py.len() as int) == py);
        assert(y.take(x.len() as int) == x);
        assert(py == x);
        assert(ny.label@[py.len() as int] == y[x.len() as int]);
        if y[x.len() as int] {
            assert(m[py].right_child == Some(ny.label));
            assert(m[x].right_child == Some(ny.label));
        } else {
            assert(m[py].left_child == Some(ny.label));
            assert(m[x].left_child == Some(ny.label));
        }
        assert(is_prefix(ny.label@, y)) by {
            assert(y.take(y.len() as int) =~= y);
        }
    } else if py.len() > x.len() {
        assert(is_prefix(x, py)) by {
            assert(x == y.take(x.len() as int));
            assert(py == y.take(py.len() as int));
            assert(py.take(x.len() as int) =~= x);
        }
        lemma_descent(m, x, py);
        let slot = if py[x.len() as int] {
            m[x].right_child
        } else {
            m[x].left_child
        };
        assert(py[x.len() as int] == y[x.len() as int]);
        assert(is_prefix(slot.unwrap()@, py));
        assert(is_prefix(slot.unwrap()@, y)) by {
            let c = slot.unwrap()@;
            assert(c == py.take(c.len() as int));
            assert(py == y.take(py.len() as int));
            assert(y.take(c.len() as int) =~= c);
        }
    } else {
        assert(is_prefix(py, x)) by {
            assert(py == y.take(py.len() as int));
            assert(x == y.take(x.len() as int));
            assert(x.take(py.len() as int) =~= py);
        }
        lemma_descent(m, py, x);
        let slot = if x[py.len() as int] {
            m[py].right_child
        } else {
            m[py].left_child
        };
        assert(x[py.len() as int] == y[py.len() as int]);
        assert(slot == Some(ny.label));
        assert(is_prefix(slot.unwrap()@, x));
        assert(y.len() <= x.len());
        assert(false);
    }
}

/// Updating only the hash, the last epoch, or both of one stored record
/// leaves the tree well formed.
pub proof fn lemma_wf_meta_update(
    m: Map<Seq<bool>, HistoryTreeNode>,
    k: Seq<bool>,
    n2: HistoryTreeNode,
)
    requires
        tree_wf(m),
        m.dom().contains(k),
        n2.label == m[k].label,
        n2.parent == m[k].parent,
        n2.node_type == m[k].node_type,
        n2.left_child == m[k].left_child,
        n2.right_child == m[k].right_child,
        n2.birth_epoch == m[k].birth_epoch,
        n2.birth_epoch <= n2.last_epoch,
    ensures
        tree_wf(m.insert(k, n2)),
{
    let m2 = m.insert(k, n2);
    assert forall|k2: Seq<bool>| #[trigger] m2.dom().contains(k2) implies node_ok(m2, k2) by {
        assert(m.dom().contains(k2));
        let n = m[k2];
        lemma_node_ok(m, k2);
        let n_new = m2[k2];
        assert(n_new.label == n.label && n_new.parent == n.parent && n_new.node_type
            == n.node_type && n_new.left_child == n.left_child && n_new.right_child
            == n.right_child && n_new.birth_epoch == n.birth_epoch);
        assert(n_new.birth_epoch <= n_new.last_epoch);
        if n.left_child is Some {
            let c = n.left_child.unwrap();
            assert(child_ok(m, n, c, false));
            assert(m2[c@].parent == m[c@].parent);
            assert(child_ok(m2, n_new, c, false));
        }
        if n.right_child is Some {
            let c = n.right_child.unwrap();
            assert(child_ok(m, n, c, true));
            assert(m2[c@].parent == m[c@].parent);
            assert(child_ok(m2, n_new, c, true));
        }
        if !(n.node_type is Root) {
            assert(parent_ok(m, n));
            assert(m2[n.parent@].left_child == m[n.parent@].left_child);
            assert(m2[n.parent@].right_child == m[n.parent@].right_child);
            assert(parent_ok(m2, n_new));
        }
        lemma_node_ok_intro(m2, k2);
    }
}

// =====================================================
// Node construction and getters
// =====================================================

impl HistoryTreeNode {
    /// A fresh record with the given fields; its last update is its birth.
    pub fn new(
        label: NodeLabel,
        parent: NodeLabel,
        node_type: NodeType,
        birth_epoch: u64,
        left_child: Option<NodeLabel>,
        right_child: Option<NodeLabel>,
        hash: [u8; 32],
    ) -> (r: Self)
        ensures
            r == (HistoryTreeNode {
                label,
                last_epoch: birth_epoch,
                birth_epoch,
                parent,
                node_type,
                left_child,
                right_child,
                hash,
            }),
    {
        HistoryTreeNode {
            label,
            birth_epoch,
            last_epoch: birth_epoch,
            parent,
            node_type,
            left_child,
            right_child,
            hash,
        }
    }

    /// Persists this record under its own label.
    pub fn write_to_storage(&self, storage: &mut InMemoryDatabase) -> (r: Result<
        (),
        StorageError,
    >)
        requires
            old(storage).inv(),
            self.label.is_canonical(),
        ensures
            final(storage).inv(),
            r is Ok,
            final(storage).contents() == old(storage).contents().insert(self.label@, *self),
            final(storage).write_log() == old(storage).write_log().push(
                crate::storage::EpochRecord { label: self.label, epoch: self.last_epoch },
            ),
    {
        storage.set(*self)
    }

    /// Reads a record and shields the reader from writes past its epoch: a
    /// record last written after `current_epoch` is reported with the
    /// largest logged epoch at most `current_epoch` instead.
    pub fn get_from_storage(
        storage: &InMemoryDatabase,
        key: &NodeKey,
        current_epoch: u64,
    ) -> (r: Result<HistoryTreeNode, StorageError>)
        requires
            storage.inv(),
            key.0.is_canonical(),
        ensures
            match r {
                Ok(n) => {
                    &&& storage.contents().dom().contains(key.0@)
                    &&& (if storage.contents()[key.0@].last_epoch <= current_epoch {
                        n == storage.contents()[key.0@]
                    } else {
                        &&& crate::storage::max_epoch_lte(
                            storage.write_log(),
                            key.0@,
                            current_epoch,
                        ) == Some(n.last_epoch)
                        &&& n == HistoryTreeNode { last_epoch: n.last_epoch, ..storage.contents()[key.0@] }
                    })
                },
                Err(e) => e is NotFound && (!storage.contents().dom().contains(key.0@) || (
                storage.contents()[key.0@].last_epoch > current_epoch
                    && crate::storage::max_epoch_lte(
                    storage.write_log(),
                    key.0@,
                    current_epoch,
                ) is None)),
            },
            storage.contents().dom().contains(key.0@) && storage.contents()[key.0@].last_epoch
                <= current_epoch ==> r is Ok,
    {
        let node = storage.get(key)?;
        if node.last_epoch > current_epoch {
            let prev_last_epoch = storage.get_epoch_lte_epoch(key.0, current_epoch)?;
            Ok(HistoryTreeNode { last_epoch: prev_last_epoch, ..node })
        } else {
            Ok(node)
        }
    }

    /// Reads many records under the same discipline as `get_from_storage`.
    pub fn batch_get_from_storage(
        storage: &InMemoryDatabase,
        keys: &Vec<NodeKey>,
        current_epoch: u64,
    ) -> (r: Result<Vec<HistoryTreeNode>, StorageError>)
        requires
            storage.inv(),
            forall|i: int| 0 <= i < keys@.len() ==> (#[trigger] keys@[i]).0.is_canonical(),
        ensures
            (forall|i: int|
                0 <= i < keys@.len() ==> storage.contents().dom().contains(
                    (#[trigger] keys@[i]).0@,
                ) && storage.contents()[keys@[i].0@].last_epoch <= current_epoch) ==> r is Ok,
            r matches Ok(nodes) ==> {
                &&& nodes@.len() == keys@.len()
                &&& forall|i: int|
                    0 <= i < keys@.len() ==> storage.contents().dom().contains(
                        (#[trigger] keys@[i]).0@,
                    ) && (if storage.contents()[keys@[i].0@].last_epoch <= current_epoch {
                        nodes@[i] == storage.contents()[keys@[i].0@]
                    } else {
                        &&& crate::storage::max_epoch_lte(
                            storage.write_log(),
                            keys@[i].0@,
                            current_epoch,
                        ) == Some(nodes@[i].last_epoch)
                        &&& nodes@[i] == HistoryTreeNode {
                            last_epoch: nodes@[i].last_epoch,
                            ..storage.contents()[keys@[i].0@]
                        }
                    })
            },
            r matches Err(e) ==> e is NotFound,
    {
        let mut nodes: Vec<HistoryTreeNode> = Vec::new();
        let mut i: usize = 0;
        while i < keys.len()
            invariant
                storage.inv(),
                forall|j: int| 0 <= j < keys@.len() ==> (#[trigger] keys@[j]).0.is_canonical(),
                i <= keys@.len(),
                nodes@.len() == i,
                forall|j: int|
                    0 <= j < i ==> storage.contents().dom().contains((#[trigger] keys@[j]).0@)
                        && (if storage.contents()[keys@[j].0@].last_epoch <= current_epoch {
                        nodes@[j] == storage.contents()[keys@[j].0@]
                    } else {
                        &&& crate::storage::max_epoch_lte(
                            storage.write_log(),
                            keys@[j].0@,
                            current_epoch,
                        ) == Some(nodes@[j].last_epoch)
                        &&& nodes@[j] == HistoryTreeNode {
                            last_epoch: nodes@[j].last_epoch,
                            ..storage.contents()[keys@[j].0@]
                        }
                    }),
            decreases keys@.len() - i,
        {
            let node = Self::get_from_storage(storage, &keys[i], current_epoch)?;
            nodes.push(node);
            i += 1;
        }
        Ok(nodes)
    }

    /// The label of the child in the given direction; only left and right
    /// are directions a child can be asked for.
    pub fn get_child_label(&self, dir: Direction) -> (r: Option<NodeLabel>)
        requires
            dir == Some(0usize) || dir == Some(1usize),
        ensures
            r == (if dir == Some(0usize) {
                self.left_child
            } else {
                self.right_child
            }),
    {
        match dir {
            Some(0) => self.left_child,
            _ => self.right_child,
        }
    }

    /// The key this record is stored under.
    pub fn get_id(&self) -> (r: NodeKey)
        ensures
            r == NodeKey(self.label),
    {
        NodeKey(self.label)
    }

    /// The epoch this node was created in.
    pub fn get_birth_epoch(&self) -> (r: u64)
        ensures
            r == self.birth_epoch,
    {
        self.birth_epoch
    }

    /// The epoch of this node's most recent mutation.
    pub fn get_latest_epoch(&self) -> (r: u64)
        ensures
            r == self.last_epoch,
    {
        self.last_epoch
    }

    /// This node's hash, whatever epoch is asked about.
    pub fn get_value_at_epoch(&self, _storage: &InMemoryDatabase, _epoch: u64) -> (r: Result<
        [u8; 32],
        AkdError,
    >)
        ensures
            r == Ok::<[u8; 32], AkdError>(self.hash),
    {
        Ok(self.hash)
    }

    /// Which slot of this node holds the given node's label, if either does.
    pub open spec fn spec_get_direction(self, other: HistoryTreeNode) -> Direction {
        if self.left_child matches Some(c) && c.len == other.label.len && c.val@
            == other.label.val@ {
            Some(0usize)
        } else if self.right_child matches Some(c) && c.len == other.label.len && c.val@
            == other.label.val@ {
            Some(1usize)
        } else {
            None
        }
    }

    /// Gets the direction of `node` under this node: left, right, or absent.
    pub fn get_direction(&self, node: &Self) -> (r: Direction)
        ensures
            r == self.spec_get_direction(*node),
    {
        if let Some(label) = self.left_child {
            if label.label_eq(&node.label) {
                return Some(0);
            }
        }
        if let Some(label) = self.right_child {
            if label.label_eq(&node.label) {
                return Some(1);
            }
        }
        None
    }

    /// Whether this is the root.
    pub fn is_root(&self) -> (r: bool)
        ensures
            r == (self.node_type is Root),
    {
        matches!(self.node_type, NodeType::Root)
    }

    /// Whether this is a leaf.
    pub fn is_leaf(&self) -> (r: bool)
        ensures
            r == (self.node_type is Leaf),
    {
        matches!(self.node_type, NodeType::Leaf)
    }

    /// The label of the child in the given direction; asking without a
    /// direction is a structural fault.
    pub fn get_child(&self, _storage: &InMemoryDatabase, direction: Direction) -> (r: Result<
        Option<NodeLabel>,
        AkdError,
    >)
        requires
            direction is None || direction == Some(0usize) || direction == Some(1usize),
        ensures
            r == (match direction {
                None => Err::<Option<NodeLabel>, AkdError>(
                    AkdError::HistoryTreeNode(
                        HistoryTreeNodeError::NoDirection(self.label, None),
                    ),
                ),
                Some(d) => Ok::<Option<NodeLabel>, AkdError>(
                    if d == 0 {
                        self.left_child
                    } else {
                        self.right_child
                    },
                ),
            }),
    {
        match direction {
            None => Err(AkdError::HistoryTreeNode(HistoryTreeNodeError::NoDirection(
                self.label,
                None,
            ))),
            Some(dir) => {
                if dir == 0 {
                    Ok(self.left_child)
                } else {
                    Ok(self.right_child)
                }
            },
        }
    }

    /// This node as its parent summarises it, under the leaf hashing rule.
    pub fn to_node_unhashed_child_state(&self, _storage: &InMemoryDatabase) -> (r:
        HistoryChildState)
        ensures
            r.label == self.label,
            r.hash_val@ == hashing::merge_of(
                self.hash@,
                hashing::hash_of(hashing::label_hash_input(self.label)),
            ),
            r.epoch_version == self.last_epoch,
    {
        HistoryChildState {
            label: self.label,
            hash_val: hashing::merge(&self.hash, &hashing::hash_label(self.label)),
            epoch_version: self.last_epoch,
        }
    }

    /// This node as its parent summarises it.
    pub fn to_node_child_state(&self, storage: &InMemoryDatabase) -> (r: HistoryChildState)
        ensures
            r.label == self.label,
            r.hash_val@ == hashing::merge_of(
                self.hash@,
                hashing::hash_of(hashing::label_hash_input(self.label)),
            ),
            r.epoch_version == self.last_epoch,
    {
        self.to_node_unhashed_child_state(storage)
    }
}

impl HistoryTreeNode {
    /// Loads the stored child of this node in the given direction: the
    /// record under the slot's label, `None` for an empty slot or an
    /// unwritten label, and a structural fault when no direction is given.
    pub fn get_child_state(&self, storage: &InMemoryDatabase, direction: Direction) -> (r: Result<
        Option<HistoryTreeNode>,
        AkdError,
    >)
        requires
            storage.inv(),
            direction is None || direction == Some(0usize) || direction == Some(1usize),
            direction == Some(0usize) && self.left_child is Some
                ==> self.left_child.unwrap().is_canonical(),
            direction == Some(1usize) && self.right_child is Some
                ==> self.right_child.unwrap().is_canonical(),
        ensures
            direction is None ==> r == Err::<Option<HistoryTreeNode>, AkdError>(
                AkdError::HistoryTreeNode(HistoryTreeNodeError::NoDirection(self.label, None)),
            ),
            direction is Some ==> {
                let slot = if direction == Some(0usize) {
                    self.left_child
                } else {
                    self.right_child
                };
                match slot {
                    None => r == Ok::<Option<HistoryTreeNode>, AkdError>(None),
                    Some(cl) => if storage.contents().dom().contains(cl@) {
                        r == Ok::<Option<HistoryTreeNode>, AkdError>(
                            Some(storage.contents()[cl@]),
                        )
                    } else {
                        r == Ok::<Option<HistoryTreeNode>, AkdError>(None)
                    },
                }
            },
    {
        match direction {
            None => Err(AkdError::HistoryTreeNode(HistoryTreeNodeError::NoDirection(
                self.label,
                None,
            ))),
            Some(dir) => {
                let child_label = if dir == 0 {
                    self.left_child
                } else {
                    self.right_child
                };
                if let Some(child_label) = child_label {
                    let child_key = NodeKey(child_label);
                    match storage.get(&child_key) {
                        Ok(ht_node) => Ok(Some(ht_node)),
                        Err(StorageError::NotFound(_)) => Ok(None),
                        Err(_) => Ok(None),
                    }
                } else {
                    Ok(None)
                }
            },
        }
    }

    /// Writes both ends of a parent-child edge: this node's slot in the
    /// given direction takes the child's label, the child's parent pointer
    /// takes this node's label, both records are stamped with the epoch and
    /// persisted.
    pub fn set_child(
        &mut self,
        storage: &mut InMemoryDatabase,
        direction: Direction,
        child_node: &mut HistoryTreeNode,
        epoch: u64,
    ) -> (r: Result<(), StorageError>)
        requires
            old(storage).inv(),
            direction == Some(0usize) || direction == Some(1usize),
            old(self).label.is_canonical(),
            old(child_node).label.is_canonical(),
        ensures
            final(storage).inv(),
            r is Ok,
            *final(self) == (HistoryTreeNode {
                left_child: if direction == Some(0usize) {
                    Some(old(child_node).label)
                } else {
                    old(self).left_child
                },
                right_child: if direction == Some(1usize) {
                    Some(old(child_node).label)
                } else {
                    old(self).right_child
                },
                last_epoch: epoch,
                ..*old(self)
            }),
            *final(child_node) == (HistoryTreeNode {
                parent: old(self).label,
                last_epoch: epoch,
                ..*old(child_node)
            }),
            final(storage).contents() == old(storage).contents().insert(
                old(self).label@,
                *final(self),
            ).insert(old(child_node).label@, *final(child_node)),
    {
        if let Some(direction) = direction {
            if direction == 0 {
                self.left_child = Some(child_node.label);
            }
            if direction == 1 {
                self.right_child = Some(child_node.label);
            }
        }
        child_node.parent = self.label;
        self.last_epoch = epoch;
        child_node.last_epoch = epoch;
        self.write_to_storage(storage)?;
        child_node.write_to_storage(storage)?;
        Ok(())
    }

    /// Recomputes this node's hash under the hashing rule, stamps the node
    /// with the epoch, and persists it.
    pub fn update_node_hash(&mut self, storage: &mut InMemoryDatabase, epoch: u64) -> (r: Result<
        (),
        AkdError,
    >)
        requires
            old(storage).inv(),
            tree_wf(old(storage).contents()),
            old(storage).contents().dom().contains(old(self).label@),
            old(storage).contents()[old(self).label@] == *old(self),
            old(self).birth_epoch <= epoch,
        ensures
            final(storage).inv(),
            tree_wf(final(storage).contents()),
            r is Ok,
            *final(self) == (HistoryTreeNode {
                last_epoch: epoch,
                hash: final(self).hash,
                ..*old(self)
            }),
            final(self).hash@ == computed_hash(old(storage).contents(), *old(self)),
            final(storage).contents() == old(storage).contents().insert(
                old(self).label@,
                *final(self),
            ),
    {
        proof {
            lemma_node_ok(old(storage).contents(), old(self).label@);
        }
        self.last_epoch = epoch;
        match self.node_type {
            NodeType::Leaf => {
                let label_hash = hashing::hash_label(self.label);
                let leaf_hash = hashing::merge(&self.hash, &label_hash);
                self.hash = leaf_hash;
            },
            _ => {
                proof {
                    lemma_node_ok(old(storage).contents(), old(self).label@);
                }
                let left_child_state = self.get_child_state(storage, Some(0))?;
                let right_child_state = self.get_child_state(storage, Some(1))?;
                let left_hash = optional_child_state_to_hash(&left_child_state);
                let right_hash = optional_child_state_to_hash(&right_child_state);
                let child_hashes = hashing::merge(&left_hash, &right_hash);
                let label_hash = hashing::hash_label(self.label);
                self.hash = hashing::merge(&child_hashes, &label_hash);
                proof {
                    let m = old(storage).contents();
                    let n = *old(self);
                    lemma_node_ok(m, old(self).label@);
                    if n.left_child is Some {
                        assert(child_ok(m, n, n.left_child.unwrap(), false));
                    }
                    if n.right_child is Some {
                        assert(child_ok(m, n, n.right_child.unwrap(), true));
                    }
                    assert(left_hash@ == slot_hash(m, n.left_child));
                    assert(right_hash@ == slot_hash(m, n.right_child));
                }
            },
        }
        proof {
            lemma_wf_meta_update(old(storage).contents(), old(self).label@, *self);
        }
        match self.write_to_storage(storage) {
            Ok(()) => Ok(()),
            Err(e) => Err(AkdError::Storage(e)),
        }
    }
}

// =====================================================
// Insertion
// =====================================================

/// The shape a node must have to be inserted as a leaf at `epoch`.
pub open spec fn leaf_shaped(leaf: HistoryTreeNode, epoch: u64) -> bool {
    &&& leaf.node_type is Leaf
    &&& leaf.label.is_canonical()
    &&& leaf.left_child is None
    &&& leaf.right_child is None
    &&& leaf.birth_epoch <= epoch
}

/// The invariant of the node the insertion is visiting: unless it is the
/// root, its parent's label is a proper prefix of the target and the node
/// continues from its parent on the target's side.
pub open spec fn on_search_path(node: HistoryTreeNode, target: Seq<bool>) -> bool {
    node.node_type is Root || {
        &&& node.parent@.len() < target.len()
        &&& is_prefix(node.parent@, target)
        &&& node.label@[node.parent@.len() as int] == target[node.parent@.len() as int]
    }
}

/// A prefix of a prefix is a prefix.
pub proof fn lemma_prefix_trans(a: Seq<bool>, b: Seq<bool>, c: Seq<bool>)
    requires
        is_prefix(a, b),
        is_prefix(b, c),
    ensures
        is_prefix(a, c),
{
    assert(c.take(b.len() as int).take(a.len() as int) =~= c.take(a.len() as int));
}

/// The new leaf's label conflicts with no stored record: none carries the
/// label itself, none extends it, and no stored leaf's label is a proper
/// prefix of it. Exactly these insertions succeed.
pub open spec fn insertable(m: Map<Seq<bool>, HistoryTreeNode>, lk: Seq<bool>) -> bool {
    &&& !m.dom().contains(lk)
    &&& forall|k: Seq<bool>| #[trigger]
        m.dom().contains(k) ==> !(lk.len() < k.len() && is_prefix(lk, k))
    &&& forall|k: Seq<bool>| #[trigger]
        m.dom().contains(k) && m[k].node_type is Leaf ==> !(k.len() < lk.len() && is_prefix(
            k,
            lk,
        ))
}

/// What an insertion that found a free slot of the root leaves behind: only
/// the root and the new leaf were written, the leaf hangs off the root, and
/// the root's other slot is untouched.
pub open spec fn bootstrap_shape(
    m0: Map<Seq<bool>, HistoryTreeNode>,
    mf: Map<Seq<bool>, HistoryTreeNode>,
    lk: Seq<bool>,
) -> bool {
    &&& lk.len() >= 1
    &&& mf.dom() == m0.dom().insert(lk)
    &&& mf[lk].parent@ == Seq::<bool>::empty()
    &&& (if lk[0] {
        m0[Seq::<bool>::empty()].right_child is None && mf[Seq::<bool>::empty()].left_child
            == m0[Seq::<bool>::empty()].left_child
    } else {
        m0[Seq::<bool>::empty()].left_child is None && mf[Seq::<bool>::empty()].right_child
            == m0[Seq::<bool>::empty()].right_child
    })
    &&& forall|k: Seq<bool>| #[trigger]
        m0.dom().contains(k) && k != Seq::<bool>::empty() ==> mf[k] == m0[k]
}

/// What an insertion that forked at the stored node `s` leaves behind: a
/// fresh interior node at the fork of `s`'s and the leaf's labels took `s`'s
/// place under `s`'s old parent and holds `s` and the new leaf as its two
/// children; `s` was re-parented and stamped but otherwise kept; and no
/// record off the leaf's path other than `s` was written.
pub open spec fn split_shape(
    m0: Map<Seq<bool>, HistoryTreeNode>,
    mf: Map<Seq<bool>, HistoryTreeNode>,
    lk: Seq<bool>,
    s: Seq<bool>,
    epoch: u64,
) -> bool {
    let mk = crate::label::lcp_of(s, lk);
    &&& m0.dom().contains(s)
    &&& mk.len() < s.len()
    &&& mk.len() < lk.len()
    &&& is_prefix(mk, s)
    &&& is_prefix(mk, lk)
    &&& s[mk.len() as int] != lk[mk.len() as int]
    &&& !m0.dom().contains(mk)
    &&& mf.dom() == m0.dom().insert(lk).insert(mk)
    &&& mf[mk].label@ == mk
    &&& mf[mk].node_type is Interior
    &&& mf[mk].birth_epoch == epoch
    &&& mf[mk].last_epoch == epoch
    &&& mf[mk].parent == m0[s].parent
    &&& (if lk[mk.len() as int] {
        mf[mk].right_child == Some(mf[lk].label) && mf[mk].left_child == Some(m0[s].label)
    } else {
        mf[mk].left_child == Some(mf[lk].label) && mf[mk].right_child == Some(m0[s].label)
    })
    &&& mf[lk].parent@ == mk
    &&& mf[s] == (HistoryTreeNode { parent: mf[mk].label, last_epoch: epoch, ..m0[s] })
    &&& forall|k: Seq<bool>| #[trigger]
        m0.dom().contains(k) && !is_prefix(k, lk) && k != s ==> mf[k] == m0[k]
}

/// What every successful insertion of a leaf at `lk` does to the store:
/// every record survives with its identity and its last epoch never
/// decreases, new records lie on the path to the leaf, records off that path
/// keep their hash and their slots, and records on it keep their parent.
pub open spec fn insert_effects(
    m0: Map<Seq<bool>, HistoryTreeNode>,
    mf: Map<Seq<bool>, HistoryTreeNode>,
    lk: Seq<bool>,
    epoch: u64,
) -> bool {
    &&& (forall|k: Seq<bool>| #[trigger]
        m0.dom().contains(k) ==> mf.dom().contains(k) && mf[k].label == m0[k].label
            && mf[k].node_type == m0[k].node_type && mf[k].birth_epoch == m0[k].birth_epoch
            && m0[k].last_epoch <= mf[k].last_epoch)
    &&& (forall|k: Seq<bool>| #[trigger]
        mf.dom().contains(k) && !m0.dom().contains(k) ==> is_prefix(k, lk))
    &&& (forall|k: Seq<bool>| #[trigger]
        m0.dom().contains(k) && !is_prefix(k, lk) ==> mf[k].hash == m0[k].hash
            && mf[k].left_child == m0[k].left_child && mf[k].right_child == m0[k].right_child
            && (mf[k].last_epoch == m0[k].last_epoch || mf[k].last_epoch == epoch))
    &&& (forall|k: Seq<bool>| #[trigger]
        m0.dom().contains(k) && is_prefix(k, lk) ==> mf[k].parent == m0[k].parent)
}

/// In a well-formed store whose root lacks the slot on the new label's side,
/// nothing stored conflicts with that label.
pub proof fn lemma_insertable_at_root(m: Map<Seq<bool>, HistoryTreeNode>, lk: Seq<bool>)
    requires
        tree_wf(m),
        !m.dom().contains(lk),
        lk.len() >= 1,
        (if lk[0] {
            m[Seq::<bool>::empty()].right_child is None
        } else {
            m[Seq::<bool>::empty()].left_child is None
        }),
    ensures
        insertable(m, lk),
{
    let ek = Seq::<bool>::empty();
    assert forall|k: Seq<bool>| #[trigger]
        m.dom().contains(k) implies !(lk.len() < k.len() && is_prefix(lk, k)) by {
        if lk.len() < k.len() && is_prefix(lk, k) {
            assert(is_prefix(ek, k)) by {
                assert(k.take(0) =~= ek);
            }
            lemma_descent(m, ek, k);
            assert(k[0] == lk[0]);
            assert(false);
        }
    }
    assert forall|k: Seq<bool>| #[trigger]
        m.dom().contains(k) && m[k].node_type is Leaf implies !(k.len() < lk.len() && is_prefix(
        k,
        lk,
    )) by {
        if k.len() < lk.len() && is_prefix(k, lk) {
            if k.len() == 0 {
                assert(k =~= ek);
                assert(m[k].node_type is Root);
            } else {
                assert(is_prefix(ek, k)) by {
                    assert(k.take(0) =~= ek);
                }
                lemma_descent(m, ek, k);
                assert(k[0] == lk[0]);
                assert(false);
            }
        }
    }
}

/// In a well-formed store, a stored non-root node whose label agrees with a
/// fresh label up to a fork and then parts from it witnesses that nothing
/// stored conflicts with the fresh label.
#[verifier::rlimit(100)]
pub proof fn lemma_insertable_at_split(
    m: Map<Seq<bool>, HistoryTreeNode>,
    sk: Seq<bool>,
    lk: Seq<bool>,
    klen: int,
)
    requires
        tree_wf(m),
        !m.dom().contains(lk),
        m.dom().contains(sk),
        !(m[sk].node_type is Root),
        0 <= klen < sk.len(),
        klen < lk.len(),
        sk.take(klen) == lk.take(klen),
        sk[klen] != lk[klen],
        m[sk].parent@.len() < lk.len(),
        is_prefix(m[sk].parent@, lk),
        lk[m[sk].parent@.len() as int] == sk[m[sk].parent@.len() as int],
    ensures
        insertable(m, lk),
{
    let pk = m[sk].parent@;
    lemma_node_ok(m, sk);
    assert(parent_ok(m, m[sk]));
    assert(is_prefix(pk, sk)) by {
        assert(sk.take(pk.len() as int) == pk);
    }
    assert forall|k: Seq<bool>| #[trigger]
        m.dom().contains(k) implies !(lk.len() < k.len() && is_prefix(lk, k)) by {
        if lk.len() < k.len() && is_prefix(lk, k) {
            lemma_prefix_trans(pk, lk, k);
            lemma_descent(m, pk, k);
            assert(k[pk.len() as int] == lk[pk.len() as int]);
            assert(is_prefix(sk, k));
            assert(k[klen] == lk[klen]);
            assert(k[klen] == sk[klen]);
            assert(false);
        }
    }
    assert forall|k: Seq<bool>| #[trigger]
        m.dom().contains(k) && m[k].node_type is Leaf implies !(k.len() < lk.len() && is_prefix(
        k,
        lk,
    )) by {
        if k.len() < lk.len() && is_prefix(k, lk) {
            if k.len() <= pk.len() {
                assert(is_prefix(k, pk)) by {
                    assert(pk == lk.take(pk.len() as int));
                    assert(k == lk.take(k.len() as int));
                    assert(lk.take(pk.len() as int).take(k.len() as int) =~= lk.take(
                        k.len() as int,
                    ));
                }
                lemma_prefix_trans(k, pk, sk);
                lemma_descent(m, k, sk);
                lemma_node_ok(m, k);
                assert(false);
            } else {
                assert(is_prefix(pk, k)) by {
                    assert(pk == lk.take(pk.len() as int));
                    assert(k == lk.take(k.len() as int));
                    assert(lk.take(k.len() as int).take(pk.len() as int) =~= lk.take(
                        pk.len() as int,
                    ));
                }
                lemma_descent(m, pk, k);
                assert(k[pk.len() as int] == lk[pk.len() as int]);
                assert(is_prefix(sk, k));
                assert(is_prefix(sk, lk)) by {
                    assert(sk == k.take(sk.len() as int));
                    assert(k == lk.take(k.len() as int));
                    assert(lk.take(k.len() as int).take(sk.len() as int) =~= lk.take(
                        sk.len() as int,
                    ));
                }
                assert(sk[klen] == lk[klen]);
                assert(false);
            }
        }
    }
}

/// Summarises a bootstrap insertion: the store got exactly a re-stamped
/// root and the fresh leaf hanging off it.
#[verifier::rlimit(100)]
pub proof fn lemma_bootstrap_summary(
    m0: Map<Seq<bool>, HistoryTreeNode>,
    mf: Map<Seq<bool>, HistoryTreeNode>,
    lk: Seq<bool>,
    rootf: HistoryTreeNode,
    leaff: HistoryTreeNode,
    epoch: u64,
)
    requires
        tree_wf(m0),
        epochs_bounded(m0, epoch),
        !m0.dom().contains(lk),
        lk.len() >= 1,
        mf == m0.insert(Seq::<bool>::empty(), rootf).insert(lk, leaff),
        leaff.parent@ == Seq::<bool>::empty(),
        rootf.label == m0[Seq::<bool>::empty()].label,
        rootf.parent == m0[Seq::<bool>::empty()].parent,
        rootf.node_type == m0[Seq::<bool>::empty()].node_type,
        rootf.birth_epoch == m0[Seq::<bool>::empty()].birth_epoch,
        rootf.last_epoch == epoch,
        (if lk[0] {
            m0[Seq::<bool>::empty()].right_child is None && rootf.left_child == m0[Seq::<
                bool,
            >::empty()].left_child
        } else {
            m0[Seq::<bool>::empty()].left_child is None && rootf.right_child == m0[Seq::<
                bool,
            >::empty()].right_child
        }),
    ensures
        insertable(m0, lk),
        bootstrap_shape(m0, mf, lk),
        insert_effects(m0, mf, lk, epoch),
{
    let ek = Seq::<bool>::empty();
    lemma_insertable_at_root(m0, lk);
    assert(is_prefix(ek, lk)) by {
        assert(lk.take(0) =~= ek);
    }
    assert(is_prefix(lk, lk)) by {
        assert(lk.take(lk.len() as int) =~= lk);
    }
    assert(mf.dom() =~= m0.dom().insert(lk));
    assert forall|k: Seq<bool>| #[trigger] m0.dom().contains(k) && k != ek implies mf[k]
        == m0[k] by {
        assert(k != lk);
    }
    assert(bootstrap_shape(m0, mf, lk));
    assert forall|k: Seq<bool>| #[trigger] m0.dom().contains(k) implies mf.dom().contains(k)
        && mf[k].label == m0[k].label && mf[k].node_type == m0[k].node_type
        && mf[k].birth_epoch == m0[k].birth_epoch && m0[k].last_epoch <= mf[k].last_epoch by {
        if k.len() == 0 {
            assert(k =~= ek);
        } else {
            assert(mf[k] == m0[k]);
        }
    }
    assert forall|k: Seq<bool>| #[trigger]
        mf.dom().contains(k) && !m0.dom().contains(k) implies is_prefix(k, lk) by {
        assert(k == lk);
    }
    assert forall|k: Seq<bool>| #[trigger]
        m0.dom().contains(k) && !is_prefix(k, lk) implies mf[k].hash == m0[k].hash
        && mf[k].left_child == m0[k].left_child && mf[k].right_child == m0[k].right_child && (
    mf[k].last_epoch == m0[k].last_epoch || mf[k].last_epoch == epoch) by {
        assert(k != ek && k != lk);
        assert(mf[k] == m0[k]);
    }
    assert forall|k: Seq<bool>| #[trigger]
        m0.dom().contains(k) && is_prefix(k, lk) implies mf[k].parent == m0[k].parent by {
        if k.len() != 0 {
            assert(mf[k] == m0[k]);
        }
    }
}

/// Summarises a split insertion: the store got exactly the re-slotted
/// parent, the fresh fork node, the fresh leaf, and the re-parented node the
/// path forked away from.
#[verifier::rlimit(100)]
pub proof fn lemma_split_summary(
    m0: Map<Seq<bool>, HistoryTreeNode>,
    mf: Map<Seq<bool>, HistoryTreeNode>,
    lk: Seq<bool>,
    pk: Seq<bool>,
    sk: Seq<bool>,
    mk: Seq<bool>,
    pf: HistoryTreeNode,
    midf: HistoryTreeNode,
    leaff: HistoryTreeNode,
    sf: HistoryTreeNode,
    epoch: u64,
)
    requires
        tree_wf(m0),
        epochs_bounded(m0, epoch),
        m0.dom().contains(sk),
        m0.dom().contains(pk),
        !(m0[sk].node_type is Root),
        m0[sk].parent@ == pk,
        !m0.dom().contains(mk),
        !m0.dom().contains(lk),
        mk == crate::label::lcp_of(sk, lk),
        pk.len() < mk.len(),
        mk.len() < sk.len(),
        mk.len() < lk.len(),
        is_prefix(mk, sk),
        is_prefix(mk, lk),
        sk[mk.len() as int] != lk[mk.len() as int],
        is_prefix(pk, lk),
        pk.len() < lk.len(),
        lk[pk.len() as int] == sk[pk.len() as int],
        mf == m0.insert(pk, pf).insert(mk, midf).insert(lk, leaff).insert(sk, sf),
        midf.label@ == mk,
        midf.node_type is Interior,
        midf.birth_epoch == epoch,
        midf.last_epoch == epoch,
        midf.parent == m0[pk].label,
        (if lk[mk.len() as int] {
            midf.right_child == Some(leaff.label) && midf.left_child == Some(m0[sk].label)
        } else {
            midf.left_child == Some(leaff.label) && midf.right_child == Some(m0[sk].label)
        }),
        leaff.label@ == lk,
        leaff.parent@ == mk,
        sf == (HistoryTreeNode { parent: midf.label, last_epoch: epoch, ..m0[sk] }),
        pf.label == m0[pk].label,
        pf.parent == m0[pk].parent,
        pf.node_type == m0[pk].node_type,
        pf.birth_epoch == m0[pk].birth_epoch,
        pf.last_epoch == epoch,
    ensures
        insertable(m0, lk),
        split_shape(m0, mf, lk, sk, epoch),
        insert_effects(m0, mf, lk, epoch),
{
    let klen = mk.len() as int;
    assert(sk.take(klen) == lk.take(klen)) by {
        assert(mk == sk.take(klen));
        assert(mk == lk.take(klen));
    }
    lemma_insertable_at_split(m0, sk, lk, klen);
    assert(sk != lk) by {
        if sk == lk {
            assert(sk[klen] == lk[klen]);
        }
    }
    assert(pk != mk && pk != lk && pk != sk && mk != lk && mk != sk);
    assert(mf.dom() =~= m0.dom().insert(lk).insert(mk));
    assert(mf[mk] == midf && mf[lk] == leaff && mf[sk] == sf && mf[pk] == pf);
    assert(mf[mk].parent == m0[sk].parent) by {
        lemma_node_ok(m0, pk);
        lemma_node_ok(m0, sk);
        crate::label::lemma_canonical_label_eq(m0[pk].label, m0[sk].parent);
    }
    assert(is_prefix(lk, lk)) by {
        assert(lk.take(lk.len() as int) =~= lk);
    }
    assert forall|k: Seq<bool>| #[trigger]
        m0.dom().contains(k) && !is_prefix(k, lk) && k != sk implies mf[k] == m0[k] by {
        assert(k != pk && k != mk && k != lk);
    }
    assert(split_shape(m0, mf, lk, sk, epoch));
    assert forall|k: Seq<bool>| #[trigger] m0.dom().contains(k) implies mf.dom().contains(k)
        && mf[k].label == m0[k].label && mf[k].node_type == m0[k].node_type
        && mf[k].birth_epoch == m0[k].birth_epoch && m0[k].last_epoch <= mf[k].last_epoch by {
        if k == pk {
            assert(mf[k] == pf);
        } else if k == sk {
            assert(mf[k] == sf);
        } else {
            assert(mf[k] == m0[k]);
        }
    }
    assert forall|k: Seq<bool>| #[trigger]
        mf.dom().contains(k) && !m0.dom().contains(k) implies is_prefix(k, lk) by {
        assert(k == lk || k == mk);
    }
    assert forall|k: Seq<bool>| #[trigger]
        m0.dom().contains(k) && !is_prefix(k, lk) implies mf[k].hash == m0[k].hash
        && mf[k].left_child == m0[k].left_child && mf[k].right_child == m0[k].right_child && (
    mf[k].last_epoch == m0[k].last_epoch || mf[k].last_epoch == epoch) by {
        assert(k != pk && k != mk && k != lk);
        if k != sk {
            assert(mf[k] == m0[k]);
        }
    }
    assert forall|k: Seq<bool>| #[trigger]
        m0.dom().contains(k) && is_prefix(k, lk) implies mf[k].parent == m0[k].parent by {
        assert(k != sk) by {
            if k == sk {
                assert(sk[klen] == lk[klen]);
            }
        }
        if k != pk {
            assert(mf[k] == m0[k]);
        }
    }
}

/// A split's account of the store survives the re-stamping of one stored
/// node on the leaf's path.
#[verifier::rlimit(100)]
pub proof fn lemma_descend_transport(
    m0: Map<Seq<bool>, HistoryTreeNode>,
    mm: Map<Seq<bool>, HistoryTreeNode>,
    mf: Map<Seq<bool>, HistoryTreeNode>,
    lk: Seq<bool>,
    sk: Seq<bool>,
    s: Seq<bool>,
    n2: HistoryTreeNode,
    epoch: u64,
)
    requires
        epochs_bounded(m0, epoch),
        m0.dom().contains(sk),
        is_prefix(sk, lk),
        sk.len() < lk.len(),
        split_shape(m0, mm, lk, s, epoch),
        insert_effects(m0, mm, lk, epoch),
        mm.dom().contains(sk),
        mf == mm.insert(sk, n2),
        n2.label == mm[sk].label,
        n2.node_type == mm[sk].node_type,
        n2.birth_epoch == mm[sk].birth_epoch,
        n2.parent == mm[sk].parent,
        n2.left_child == mm[sk].left_child,
        n2.right_child == mm[sk].right_child,
        n2.last_epoch == epoch,
    ensures
        split_shape(m0, mf, lk, s, epoch),
        insert_effects(m0, mf, lk, epoch),
{
    let mk = crate::label::lcp_of(s, lk);
    assert(sk != s) by {
        if sk == s {
            assert(s[mk.len() as int] == lk[mk.len() as int]);
        }
    }
    assert(sk != mk && sk != lk);
    assert(mf.dom() =~= m0.dom().insert(lk).insert(mk));
    assert(mf[mk] == mm[mk] && mf[lk] == mm[lk] && mf[s] == mm[s]);
    assert forall|k: Seq<bool>| #[trigger]
        m0.dom().contains(k) && !is_prefix(k, lk) && k != s implies mf[k] == m0[k] by {
        assert(k != sk);
        assert(mf[k] == mm[k]);
    }
    assert(split_shape(m0, mf, lk, s, epoch));
    assert forall|k: Seq<bool>| #[trigger] m0.dom().contains(k) implies mf.dom().contains(k)
        && mf[k].label == m0[k].label && mf[k].node_type == m0[k].node_type
        && mf[k].birth_epoch == m0[k].birth_epoch && m0[k].last_epoch <= mf[k].last_epoch by {
        if k == sk {
            assert(mf[k] == n2);
        } else {
            assert(mf[k] == mm[k]);
        }
    }
    assert forall|k: Seq<bool>| #[trigger]
        mf.dom().contains(k) && !m0.dom().contains(k) implies is_prefix(k, lk) by {
        assert(mm.dom().contains(k));
    }
    assert forall|k: Seq<bool>| #[trigger]
        m0.dom().contains(k) && !is_prefix(k, lk) implies mf[k].hash == m0[k].hash
        && mf[k].left_child == m0[k].left_child && mf[k].right_child == m0[k].right_child && (
    mf[k].last_epoch == m0[k].last_epoch || mf[k].last_epoch == epoch) by {
        assert(k != sk);
        assert(mf[k] == mm[k]);
    }
    assert forall|k: Seq<bool>| #[trigger]
        m0.dom().contains(k) && is_prefix(k, lk) implies mf[k].parent == m0[k].parent by {
        if k == sk {
            assert(mf[k] == n2);
            assert(mm[sk].parent == m0[sk].parent);
        } else {
            assert(mf[k] == mm[k]);
        }
    }
}

/// The label reached from `k` by following `i` parent pointers.
pub open spec fn anc(m: Map<Seq<bool>, HistoryTreeNode>, k: Seq<bool>, i: nat) -> Seq<bool>
    decreases i,
{
    if i == 0 {
        k
    } else {
        m[anc(m, k, (i - 1) as nat)].parent@
    }
}

/// The first `n + 1` links of the parent chain from `k` are stored and all
/// carry `e` as their last epoch.
pub open spec fn chain_stamped(
    m: Map<Seq<bool>, HistoryTreeNode>,
    k: Seq<bool>,
    n: nat,
    e: u64,
) -> bool {
    forall|i: nat|
        i <= n ==> m.dom().contains(#[trigger] anc(m, k, i)) && m[anc(m, k, i)].last_epoch == e
}

/// The parent chain from `k` reaches the root label with every node on it
/// stamped `e`.
pub open spec fn root_path_stamped(m: Map<Seq<bool>, HistoryTreeNode>, k: Seq<bool>, e: u64) -> bool {
    exists|n: nat| chain_stamped(m, k, n, e) && anc(m, k, n) == Seq::<bool>::empty()
}

/// Every node above the first on the parent chain from `k` carries exactly
/// the hash the hashing rule assigns it over `m`: the merge of its two
/// slots' hashes, merged with its label's hash.
pub open spec fn chain_hashed(m: Map<Seq<bool>, HistoryTreeNode>, k: Seq<bool>, n: nat) -> bool {
    forall|i: nat|
        1 <= i <= n ==> m[#[trigger] anc(m, k, i)].hash@ == computed_hash(m, m[anc(m, k, i)])
}

/// The parent chain from `k` reaches the root label, every node on it
/// stamped `e` and every node above the first carrying the hash the hashing
/// rule assigns it; in particular the root's hash follows the rule.
pub open spec fn root_path_hashed(m: Map<Seq<bool>, HistoryTreeNode>, k: Seq<bool>, e: u64) -> bool {
    exists|n: nat|
        n >= 1 && chain_stamped(m, k, n, e) && chain_hashed(m, k, n) && anc(m, k, n) == Seq::<
            bool,
        >::empty()
}

/// Under `root_path_hashed` the root's stored hash is the hashing rule's
/// merge of its two slots' hashes with the root label's hash.
pub proof fn lemma_root_hash_follows_rule(m: Map<Seq<bool>, HistoryTreeNode>, k: Seq<bool>, e: u64)
    requires
        root_path_hashed(m, k, e),
    ensures
        m[Seq::<bool>::empty()].hash@ == computed_hash(m, m[Seq::<bool>::empty()]),
{
    let n = choose|n: nat|
        n >= 1 && chain_stamped(m, k, n, e) && chain_hashed(m, k, n) && anc(m, k, n) == Seq::<
            bool,
        >::empty();
    assert(m[anc(m, k, n)].hash@ == computed_hash(m, m[anc(m, k, n)]));
}

/// The hash the rule assigns a non-leaf node does not change when neither
/// the node's slots nor the records under the slots' labels change.
pub proof fn lemma_computed_hash_frame(
    m1: Map<Seq<bool>, HistoryTreeNode>,
    m2: Map<Seq<bool>, HistoryTreeNode>,
    n1: HistoryTreeNode,
    n2: HistoryTreeNode,
)
    requires
        !(n1.node_type is Leaf),
        !(n2.node_type is Leaf),
        n1.label == n2.label,
        n1.left_child == n2.left_child,
        n1.right_child == n2.right_child,
        match n1.left_child {
            Some(c) => m1.dom().contains(c@) == m2.dom().contains(c@) && (m1.dom().contains(c@)
                ==> m1[c@].hash == m2[c@].hash),
            None => true,
        },
        match n1.right_child {
            Some(c) => m1.dom().contains(c@) == m2.dom().contains(c@) && (m1.dom().contains(c@)
                ==> m1[c@].hash == m2[c@].hash),
            None => true,
        },
    ensures
        computed_hash(m1, n1) == computed_hash(m2, n2),
{
}

/// An insertion below a node of label length `plen` keeps every record that
/// was stored: under its key, with its label, kind and birth epoch, and —
/// above the visited node — with its parent pointer.
pub open spec fn preserves_records(
    m1: Map<Seq<bool>, HistoryTreeNode>,
    m2: Map<Seq<bool>, HistoryTreeNode>,
    plen: nat,
) -> bool {
    forall|k: Seq<bool>| #[trigger]
        m1.dom().contains(k) ==> m2.dom().contains(k) && m2[k].label == m1[k].label
            && m2[k].node_type == m1[k].node_type && m2[k].birth_epoch == m1[k].birth_epoch && (
        k.len() < plen ==> m2[k].parent == m1[k].parent)
}

/// A stamped chain survives a store change that keeps every stored key, its
/// parent pointer, and either its last epoch or stamps it `e`.
pub proof fn lemma_chain_preserved(
    m1: Map<Seq<bool>, HistoryTreeNode>,
    m2: Map<Seq<bool>, HistoryTreeNode>,
    k: Seq<bool>,
    n: nat,
    e: u64,
)
    requires
        chain_stamped(m1, k, n, e),
        forall|j: Seq<bool>| #[trigger]
            m1.dom().contains(j) ==> m2.dom().contains(j) && m2[j].parent == m1[j].parent && (
            m2[j].last_epoch == m1[j].last_epoch || m2[j].last_epoch == e),
    ensures
        chain_stamped(m2, k, n, e),
        forall|i: nat| i <= n ==> anc(m2, k, i) == anc(m1, k, i),
    decreases n,
{
    if n == 0 {
        assert(anc(m2, k, 0) == k);
        assert forall|i: nat| i <= 0 implies m2.dom().contains(#[trigger] anc(m2, k, i))
            && m2[anc(m2, k, i)].last_epoch == e by {
            assert(anc(m1, k, 0) == k);
            assert(m1.dom().contains(k) && m1[k].last_epoch == e);
        }
    } else {
        assert(chain_stamped(m1, k, (n - 1) as nat, e));
        lemma_chain_preserved(m1, m2, k, (n - 1) as nat, e);
        assert(anc(m2, k, n) == m2[anc(m2, k, (n - 1) as nat)].parent@);
        assert(anc(m1, k, (n - 1) as nat) == anc(m2, k, (n - 1) as nat));
        assert(m1.dom().contains(anc(m1, k, (n - 1) as nat)));
        assert(anc(m2, k, n) == anc(m1, k, n));
        assert forall|i: nat| i <= n implies m2.dom().contains(#[trigger] anc(m2, k, i))
            && m2[anc(m2, k, i)].last_epoch == e by {
            assert(anc(m1, k, i) == anc(m2, k, i));
            assert(m1.dom().contains(anc(m1, k, i)) && m1[anc(m1, k, i)].last_epoch == e);
        }
    }
}

/// A hashed chain survives rewriting the record under `sk` with one whose
/// hash follows the rule, provided every chain node below the endpoint is
/// longer than `sk` — so that `sk` can only be the chain's endpoint — and
/// the endpoint is `sk` itself or longer.
#[verifier::rlimit(100)]
pub proof fn lemma_chain_hashed_transport(
    mm: Map<Seq<bool>, HistoryTreeNode>,
    mf: Map<Seq<bool>, HistoryTreeNode>,
    lk: Seq<bool>,
    n0: nat,
    sk: Seq<bool>,
    nh: HistoryTreeNode,
    e: u64,
)
    requires
        tree_wf(mm),
        chain_stamped(mm, lk, n0, e),
        chain_hashed(mm, lk, n0),
        mm.dom().contains(sk),
        mf == mm.insert(sk, nh),
        nh.label == mm[sk].label,
        nh.node_type == mm[sk].node_type,
        nh.left_child == mm[sk].left_child,
        nh.right_child == mm[sk].right_child,
        !(mm[sk].node_type is Leaf) ==> nh.hash@ == computed_hash(mm, mm[sk]),
        forall|i: nat| i < n0 ==> (#[trigger] anc(mm, lk, i)).len() > sk.len(),
        anc(mm, lk, n0) == sk || anc(mm, lk, n0).len() > sk.len(),
        forall|i: nat| i <= n0 ==> anc(mf, lk, i) == anc(mm, lk, i),
    ensures
        chain_hashed(mf, lk, n0),
{
    assert forall|i: nat| 1 <= i <= n0 implies mf[#[trigger] anc(mf, lk, i)].hash@
        == computed_hash(mf, mf[anc(mf, lk, i)]) by {
        let a = anc(mm, lk, i);
        assert(anc(mf, lk, i) == a);
        assert(mm.dom().contains(a));
        lemma_node_ok(mm, a);
        // the node at `a` holds the previous chain node in a slot, so it is
        // not a leaf
        let b = anc(mm, lk, (i - 1) as nat);
        assert(mm.dom().contains(b));
        assert(a == mm[b].parent@);
        lemma_node_ok(mm, b);
        assert(b.len() > sk.len());
        assert(!(mm[b].node_type is Root)) by {
            assert(mm[b].label@ == b);
        }
        assert(parent_ok(mm, mm[b]));
        assert(!(mm[a].node_type is Leaf)) by {
            if mm[b].label@[mm[b].parent@.len() as int] {
                assert(mm[a].right_child is Some);
            } else {
                assert(mm[a].left_child is Some);
            }
        }
        // the slots of `a` point below `a`, never at `sk`
        assert(a == sk || a.len() > sk.len());
        if mm[a].left_child is Some {
            let c = mm[a].left_child.unwrap();
            assert(child_ok(mm, mm[a], c, false));
            assert(c@.len() > a.len());
            assert(c@ != sk) by {
                if a == sk {
                    assert(c@.len() > sk.len());
                } else {
                    assert(c@.len() > a.len() && a.len() > sk.len());
                }
            }
            assert(mf[c@] == mm[c@]);
        }
        if mm[a].right_child is Some {
            let c = mm[a].right_child.unwrap();
            assert(child_ok(mm, mm[a], c, true));
            assert(c@ != sk) by {
                if a == sk {
                    assert(c@.len() > sk.len());
                } else {
                    assert(c@.len() > a.len() && a.len() > sk.len());
                }
            }
            assert(mf[c@] == mm[c@]);
        }
        if a == sk {
            assert(mf[a] == nh);
            lemma_computed_hash_frame(mm, mf, mm[sk], nh);
        } else {
            assert(mf[a] == mm[a]);
            assert(mm[a].hash@ == computed_hash(mm, mm[a]));
            lemma_computed_hash_frame(mm, mf, mm[a], mf[a]);
        }
    }
}

/// Hanging a fresh leaf into a free slot of the root keeps the tree well
/// formed.
#[verifier::rlimit(100)]
pub proof fn lemma_wf_root_bootstrap(
    m: Map<Seq<bool>, HistoryTreeNode>,
    root2: HistoryTreeNode,
    leaf2: HistoryTreeNode,
    epoch: u64,
)
    requires
        tree_wf(m),
        epochs_bounded(m, epoch),
        root2.label == m[Seq::<bool>::empty()].label,
        root2.parent == m[Seq::<bool>::empty()].parent,
        root2.node_type == m[Seq::<bool>::empty()].node_type,
        root2.birth_epoch == m[Seq::<bool>::empty()].birth_epoch,
        root2.hash == m[Seq::<bool>::empty()].hash,
        root2.last_epoch == epoch,
        leaf2.label.is_canonical(),
        leaf2.label@.len() >= 1,
        !m.dom().contains(leaf2.label@),
        leaf2.node_type is Leaf,
        leaf2.left_child is None,
        leaf2.right_child is None,
        leaf2.parent == root2.label,
        leaf2.birth_epoch <= epoch,
        leaf2.last_epoch == epoch,
        (if leaf2.label@[0] {
            &&& root2.right_child == Some(leaf2.label)
            &&& root2.left_child == m[Seq::<bool>::empty()].left_child
            &&& m[Seq::<bool>::empty()].right_child is None
        } else {
            &&& root2.left_child == Some(leaf2.label)
            &&& root2.right_child == m[Seq::<bool>::empty()].right_child
            &&& m[Seq::<bool>::empty()].left_child is None
        }),
    ensures
        tree_wf(m.insert(Seq::<bool>::empty(), root2).insert(leaf2.label@, leaf2)),
        epochs_bounded(
            m.insert(Seq::<bool>::empty(), root2).insert(leaf2.label@, leaf2),
            epoch,
        ),
{
    let ek = Seq::<bool>::empty();
    let lk = leaf2.label@;
    let m2 = m.insert(ek, root2).insert(lk, leaf2);
    lemma_node_ok(m, ek);
    let root1 = m[ek];
    assert(root1.node_type is Root);
    assert(root1.label@ == ek);
    assert(root2.label@ == ek);
    assert forall|k2: Seq<bool>| #[trigger] m2.dom().contains(k2) implies node_ok(m2, k2) by {
        if k2 == lk {
            assert(m2[k2] == leaf2);
            assert(is_prefix(ek, lk)) by {
                assert(lk.take(0) =~= ek);
            }
            assert(leaf2.parent@ == ek);
            assert(parent_ok(m2, leaf2));
            assert(node_wf(m2, leaf2));
            lemma_node_ok_intro(m2, k2);
        } else if k2 == ek {
            assert(m2[k2] == root2);
            assert(lk.take(0) =~= ek);
            assert(child_ok(m2, root2, leaf2.label, lk[0]));
            let other = if lk[0] {
                root2.left_child
            } else {
                root2.right_child
            };
            if other is Some {
                let c = other.unwrap();
                assert(child_ok(m, root1, c, !lk[0]));
                assert(c@ != lk) by {
                    assert(m.dom().contains(c@));
                }
                assert(c@ != ek);
                assert(m2[c@] == m[c@]);
                assert(child_ok(m2, root2, c, !lk[0]));
            }
            assert(node_wf(m2, root2));
            lemma_node_ok_intro(m2, k2);
        } else {
            assert(m.dom().contains(k2));
            lemma_node_ok(m, k2);
            let n = m[k2];
            assert(m2[k2] == n);
            if n.left_child is Some {
                let c = n.left_child.unwrap();
                assert(child_ok(m, n, c, false));
                assert(c@ != lk);
                assert(c@.len() > k2.len());
                if c@ == ek {
                    assert(false);
                }
                assert(m2[c@].parent == m[c@].parent);
                assert(child_ok(m2, n, c, false));
            }
            if n.right_child is Some {
                let c = n.right_child.unwrap();
                assert(child_ok(m, n, c, true));
                assert(c@ != lk);
                if c@ == ek {
                    assert(false);
                }
                assert(m2[c@].parent == m[c@].parent);
                assert(child_ok(m2, n, c, true));
            }
            if !(n.node_type is Root) {
                assert(parent_ok(m, n));
                let pk = n.parent@;
                assert(pk != lk) by {
                    assert(m.dom().contains(pk));
                }
                if pk == ek {
                    // the slot of the old root that holds this node is the
                    // slot the new leaf did not take
                    assert(n.label@[0] == k2[0]) by {
                        lemma_node_ok(m, k2);
                    }
                    if n.label@[pk.len() as int] {
                        assert(root1.right_child == Some(n.label));
                        assert(lk[0] == false);
                        assert(root2.right_child == Some(n.label));
                    } else {
                        assert(root1.left_child == Some(n.label));
                        assert(lk[0] == true);
                        assert(root2.left_child == Some(n.label));
                    }
                    assert(parent_ok(m2, n));
                } else {
                    assert(m2[pk].left_child == m[pk].left_child);
                    assert(m2[pk].right_child == m[pk].right_child);
                    assert(parent_ok(m2, n));
                }
            }
            assert(node_wf(m2, n));
            lemma_node_ok_intro(m2, k2);
        }
    }
    assert(tree_wf(m2));
    assert forall|k2: Seq<bool>| #[trigger] m2.dom().contains(k2) implies m2[k2].last_epoch
        <= epoch by {
        if k2 != lk && k2 != ek {
            assert(m.dom().contains(k2));
        }
    }
}

/// Splicing a fresh interior node in place of a visited node, with the
/// visited node and a fresh leaf as its two children, keeps the tree well
/// formed.
#[verifier::rlimit(100)]
pub proof fn lemma_wf_split(
    m: Map<Seq<bool>, HistoryTreeNode>,
    pk: Seq<bool>,
    sk: Seq<bool>,
    p2: HistoryTreeNode,
    mid2: HistoryTreeNode,
    leaf2: HistoryTreeNode,
    s2: HistoryTreeNode,
    epoch: u64,
)
    requires
        tree_wf(m),
        epochs_bounded(m, epoch),
        m.dom().contains(pk),
        m.dom().contains(sk),
        m[sk].parent@ == pk,
        !(m[sk].node_type is Root),
        // the new interior sits strictly between the parent and both children
        mid2.label.is_canonical(),
        pk.len() < mid2.label@.len(),
        mid2.label@.len() < sk.len(),
        is_prefix(mid2.label@, sk),
        mid2.label@.len() < leaf2.label@.len(),
        is_prefix(mid2.label@, leaf2.label@),
        sk[mid2.label@.len() as int] != leaf2.label@[mid2.label@.len() as int],
        !m.dom().contains(mid2.label@),
        !m.dom().contains(leaf2.label@),
        // the new interior
        mid2.parent == m[pk].label,
        mid2.node_type is Interior,
        mid2.birth_epoch == epoch,
        mid2.last_epoch == epoch,
        (if sk[mid2.label@.len() as int] {
            mid2.right_child == Some(m[sk].label) && mid2.left_child == Some(leaf2.label)
        } else {
            mid2.left_child == Some(m[sk].label) && mid2.right_child == Some(leaf2.label)
        }),
        // the new leaf
        leaf2.label.is_canonical(),
        leaf2.node_type is Leaf,
        leaf2.left_child is None,
        leaf2.right_child is None,
        leaf2.parent == mid2.label,
        leaf2.birth_epoch <= epoch,
        leaf2.last_epoch == epoch,
        // the visited node, re-parented and stamped, otherwise unchanged
        s2 == (HistoryTreeNode { parent: mid2.label, last_epoch: epoch, ..m[sk] }),
        // the parent, its slot moved to the new interior and stamped
        p2.label == m[pk].label,
        p2.parent == m[pk].parent,
        p2.node_type == m[pk].node_type,
        p2.birth_epoch == m[pk].birth_epoch,
        p2.hash == m[pk].hash,
        p2.last_epoch == epoch,
        (if sk[pk.len() as int] {
            p2.right_child == Some(mid2.label) && p2.left_child == m[pk].left_child
        } else {
            p2.left_child == Some(mid2.label) && p2.right_child == m[pk].right_child
        }),
    ensures
        tree_wf(m.insert(pk, p2).insert(mid2.label@, mid2).insert(leaf2.label@, leaf2).insert(
            sk,
            s2,
        )),
        epochs_bounded(
            m.insert(pk, p2).insert(mid2.label@, mid2).insert(leaf2.label@, leaf2).insert(sk, s2),
            epoch,
        ),
{
    let mk = mid2.label@;
    let lk = leaf2.label@;
    let m2 = m.insert(pk, p2).insert(mk, mid2).insert(lk, leaf2).insert(sk, s2);
    lemma_node_ok(m, pk);
    lemma_node_ok(m, sk);
    let p1 = m[pk];
    let s1 = m[sk];
    assert(parent_ok(m, s1));
    assert(is_prefix(pk, sk)) by {
        assert(sk.take(pk.len() as int) == pk);
    }
    // prefix chains
    assert(mk.take(pk.len() as int) == pk) by {
        assert(mk == sk.take(mk.len() as int));
        assert(sk.take(mk.len() as int).take(pk.len() as int) =~= sk.take(pk.len() as int));
    }
    assert(mk[pk.len() as int] == sk[pk.len() as int]) by {
        assert(mk == sk.take(mk.len() as int));
    }
    assert(lk.take(pk.len() as int) =~= pk) by {
        assert(lk.take(mk.len() as int) == mk);
        assert(mk.take(pk.len() as int) == pk);
    }
    // key distinctness
    assert(pk != mk && pk != sk && pk != lk && mk != sk && mk != lk);
    assert(sk != lk) by {
        if sk == lk {
            assert(sk[mk.len() as int] == lk[mk.len() as int]);
        }
    }
    let bit_s = sk[mk.len() as int];
    let bit_p = sk[pk.len() as int];
    assert forall|k2: Seq<bool>| #[trigger] m2.dom().contains(k2) implies node_ok(m2, k2) by {
        if k2 == sk {
            assert(m2[k2] == s2);
            assert(s2.label == s1.label && s1.label@ == sk);
            if s1.left_child is Some {
                let c = s1.left_child.unwrap();
                assert(child_ok(m, s1, c, false));
                assert(c@ != mk && c@ != lk && c@ != pk && c@ != sk);
                assert(m2[c@].parent == m[c@].parent);
                assert(child_ok(m2, s2, c, false));
            }
            if s1.right_child is Some {
                let c = s1.right_child.unwrap();
                assert(child_ok(m, s1, c, true));
                assert(c@ != mk && c@ != lk && c@ != pk && c@ != sk);
                assert(m2[c@].parent == m[c@].parent);
                assert(child_ok(m2, s2, c, true));
            }
            assert(s2.parent@ == mk);
            assert(m2[mk] == mid2);
            assert(if bit_s {
                mid2.right_child == Some(s2.label)
            } else {
                mid2.left_child == Some(s2.label)
            });
            assert(parent_ok(m2, s2));
            assert(node_wf(m2, s2));
            lemma_node_ok_intro(m2, k2);
        } else if k2 == lk {
            assert(m2[k2] == leaf2);
            assert(leaf2.parent@ == mk);
            assert(m2[mk] == mid2);
            assert(lk[mk.len() as int] == !bit_s);
            assert(if lk[mk.len() as int] {
                mid2.right_child == Some(leaf2.label)
            } else {
                mid2.left_child == Some(leaf2.label)
            });
            assert(parent_ok(m2, leaf2));
            assert(node_wf(m2, leaf2));
            lemma_node_ok_intro(m2, k2);
        } else if k2 == mk {
            assert(m2[k2] == mid2);
            assert(child_ok(m2, mid2, s1.label, bit_s)) by {
                assert(m2[sk] == s2 && s2.parent == mid2.label);
                assert(s1.label.is_canonical());
            }
            assert(child_ok(m2, mid2, leaf2.label, !bit_s)) by {
                assert(m2[lk] == leaf2 && leaf2.parent == mid2.label);
            }
            assert(mid2.parent@ == pk);
            assert(m2[pk] == p2);
            assert(mk[pk.len() as int] == bit_p);
            assert(if mk[pk.len() as int] {
                p2.right_child == Some(mid2.label)
            } else {
                p2.left_child == Some(mid2.label)
            });
            assert(parent_ok(m2, mid2));
            assert(!(mid2.node_type is Root) && mk.len() >= 1);
            assert(node_wf(m2, mid2));
            lemma_node_ok_intro(m2, k2);
        } else if k2 == pk {
            assert(m2[k2] == p2);
            // the slot moved to the new interior
            assert(child_ok(m2, p2, mid2.label, bit_p)) by {
                assert(m2[mk] == mid2 && mid2.parent == p2.label);
            }
            // the other slot is untouched
            let other = if bit_p {
                p1.left_child
            } else {
                p1.right_child
            };
            if other is Some {
                let c = other.unwrap();
                assert(child_ok(m, p1, c, !bit_p));
                assert(c@ != mk && c@ != lk);
                assert(c@ != sk) by {
                    assert(c@[pk.len() as int] == !bit_p);
                }
                assert(c@ != pk);
                assert(m2[c@].parent == m[c@].parent);
                assert(child_ok(m2, p2, c, !bit_p));
            }
            if !(p1.node_type is Root) {
                assert(parent_ok(m, p1));
                let pp = p1.parent@;
                assert(pp != mk && pp != lk && pp != sk && pp != pk);
                assert(m2[pp].left_child == m[pp].left_child);
                assert(m2[pp].right_child == m[pp].right_child);
                assert(parent_ok(m2, p2));
            }
            assert(node_wf(m2, p2));
            lemma_node_ok_intro(m2, k2);
        } else {
            assert(m.dom().contains(k2));
            lemma_node_ok(m, k2);
            let n = m[k2];
            assert(m2[k2] == n);
            if n.left_child is Some {
                let c = n.left_child.unwrap();
                assert(child_ok(m, n, c, false));
                assert(c@ != mk && c@ != lk);
                if c@ == sk {
                    assert(m[sk].parent == n.label);
                    assert(n.label@ == pk);
                    assert(false);
                }
                assert(m2[c@].parent == m[c@].parent);
                assert(child_ok(m2, n, c, false));
            }
            if n.right_child is Some {
                let c = n.right_child.unwrap();
                assert(child_ok(m, n, c, true));
                assert(c@ != mk && c@ != lk);
                if c@ == sk {
                    assert(m[sk].parent == n.label);
                    assert(n.label@ == pk);
                    assert(false);
                }
                assert(m2[c@].parent == m[c@].parent);
                assert(child_ok(m2, n, c, true));
            }
            if !(n.node_type is Root) {
                assert(parent_ok(m, n));
                let pn = n.parent@;
                assert(pn != mk && pn != lk);
                if pn == pk {
                    assert(n.label@ == k2);
                    if n.label@[pk.len() as int] == bit_p {
                        assert(if bit_p {
                            p1.right_child == Some(n.label)
                        } else {
                            p1.left_child == Some(n.label)
                        });
                        assert(parent_ok(m, s1));
                        assert(if bit_p {
                            p1.right_child == Some(s1.label)
                        } else {
                            p1.left_child == Some(s1.label)
                        });
                        assert(n.label == s1.label);
                        assert(k2 == sk);
                        assert(false);
                    }
                    assert(if n.label@[pk.len() as int] {
                        p2.right_child == Some(n.label)
                    } else {
                        p2.left_child == Some(n.label)
                    });
                    assert(parent_ok(m2, n));
                } else if pn == sk {
                    assert(m2[sk] == s2);
                    assert(s2.left_child == s1.left_child && s2.right_child == s1.right_child);
                    assert(parent_ok(m2, n));
                } else {
                    assert(m2[pn].left_child == m[pn].left_child);
                    assert(m2[pn].right_child == m[pn].right_child);
                    assert(parent_ok(m2, n));
                }
            }
            assert(node_wf(m2, n));
            lemma_node_ok_intro(m2, k2);
        }
    }
    assert(tree_wf(m2));
    assert forall|k2: Seq<bool>| #[trigger] m2.dom().contains(k2) implies m2[k2].last_epoch
        <= epoch by {
        if k2 != sk && k2 != lk && k2 != mk && k2 != pk {
            assert(m.dom().contains(k2));
        }
    }
}

impl HistoryTreeNode {
    /// Inserts `new_leaf` under the subtree this node roots, creating a new
    /// interior node where the paths fork, and — when `hashing` is set —
    /// recomputing the hash and stamping the epoch on every node from the
    /// new leaf up to this node. On any error nothing has been written.
    #[verifier::rlimit(100)]
    pub fn insert_single_leaf_helper(
        &mut self,
        storage: &mut InMemoryDatabase,
        new_leaf: Self,
        epoch: u64,
        num_nodes: &mut u64,
        hashing: bool,
    ) -> (r: Result<(), AkdError>)
        requires
            old(storage).inv(),
            tree_wf(old(storage).contents()),
            epochs_bounded(old(storage).contents(), epoch),
            old(storage).contents().dom().contains(old(self).label@),
            old(storage).contents()[old(self).label@] == *old(self),
            leaf_shaped(new_leaf, epoch),
            on_search_path(*old(self), new_leaf.label@),
            *old(num_nodes) + 2 * (257 - old(self).label@.len()) <= u64::MAX,
        ensures
            final(storage).inv(),
            tree_wf(final(storage).contents()),
            epochs_bounded(final(storage).contents(), epoch),
            *old(num_nodes) <= *final(num_nodes),
            *final(num_nodes) <= *old(num_nodes) + 2 * (257 - old(self).label@.len()),
            preserves_records(
                old(storage).contents(),
                final(storage).contents(),
                old(self).label@.len(),
            ),
            r is Err ==> *final(storage) == *old(storage) && *final(self) == *old(self),
            r is Ok <==> insertable(old(storage).contents(), new_leaf.label@),
            r matches Err(e) ==> (match e {
                AkdError::HistoryTreeNode(HistoryTreeNodeError::NoChildAtEpoch(ep2, d)) => {
                    &&& ep2 == epoch
                    &&& (exists|k: Seq<bool>| #[trigger]
                        old(storage).contents().dom().contains(k) && old(
                            storage,
                        ).contents()[k].node_type is Leaf && k.len() < new_leaf.label@.len()
                            && is_prefix(k, new_leaf.label@) && d == (if new_leaf.label@[k.len() as int] {
                            1usize
                        } else {
                            0usize
                        }))
                },
                AkdError::HistoryTreeNode(HistoryTreeNodeError::NoDirection(l, c)) => {
                    &&& l@ == new_leaf.label@
                    &&& c is None
                    &&& (old(storage).contents().dom().contains(new_leaf.label@) || exists|
                        k: Seq<bool>,
                    | #[trigger]
                        old(storage).contents().dom().contains(k) && new_leaf.label@.len()
                            < k.len() && is_prefix(new_leaf.label@, k))
                },
                _ => false,
            }),
            r is Ok ==> ({
                let m0 = old(storage).contents();
                let mf = final(storage).contents();
                let lk = new_leaf.label@;
                &&& insert_effects(m0, mf, lk, epoch)
            }),
            r is Ok ==> ({
                let m0 = old(storage).contents();
                let mf = final(storage).contents();
                let lk = new_leaf.label@;
                ||| (bootstrap_shape(m0, mf, lk) && old(self).node_type is Root && *final(num_nodes) == *old(num_nodes) + 1)
                ||| ((exists|s: Seq<bool>| split_shape(m0, mf, lk, s, epoch)) && *final(num_nodes) == *old(num_nodes) + (if old(self).node_type is Root {
                    2int
                } else {
                    1int
                }))
            }),
            r is Ok ==> ({
                let mf = final(storage).contents();
                &&& mf.dom().contains(new_leaf.label@)
                &&& mf[new_leaf.label@].node_type is Leaf
                &&& mf[new_leaf.label@].last_epoch == epoch
                &&& mf[new_leaf.label@].birth_epoch == new_leaf.birth_epoch
                &&& (hashing ==> mf[new_leaf.label@].hash@ == hashing::merge_of(
                    new_leaf.hash@,
                    hashing::hash_of(hashing::label_hash_input(new_leaf.label)),
                ))
                &&& (!hashing ==> mf[new_leaf.label@].hash == new_leaf.hash)
                &&& mf.dom().contains(old(self).label@)
                &&& *final(self) == mf[old(self).label@]
                &&& final(self).label == old(self).label
                &&& mf.dom().contains(old(self).parent@)
                &&& mf[old(self).parent@].parent == old(storage).contents()[old(self).parent@].parent
                &&& (hashing ==> exists|n: nat|
                    {
                        &&& n >= 1
                        &&& chain_stamped(mf, new_leaf.label@, n, epoch)
                        &&& chain_hashed(mf, new_leaf.label@, n)
                        &&& forall|i: nat|
                            i < n ==> (#[trigger] anc(mf, new_leaf.label@, i)).len() > old(self).parent@.len()
                        &&& ((anc(mf, new_leaf.label@, n) == old(self).label@ && final(self).parent == old(self).parent) || anc(mf, new_leaf.label@, n) == old(self).parent@)
                    })
            }),
        decreases 256 - old(self).label@.len(),
    {
        let ghost m0 = storage.contents();
        let ghost sk = old(self).label@;
        let ghost lk = new_leaf.label@;
        proof {
            lemma_node_ok(m0, sk);
        }
        let mut new_leaf = new_leaf;
        let (lcs_label, dir_leaf, dir_self) = self.label.get_longest_common_prefix_and_dirs(
            new_leaf.label,
        );
        let ghost klen = lcs_label@.len() as int;

        if self.is_root() {
            proof {
                assert(sk =~= Seq::<bool>::empty());
                assert(klen == 0);
            }
            *num_nodes += 1;
            let child_state = match self.get_child_state(storage, dir_leaf) {
                Ok(cs) => cs,
                Err(e) => {
                    proof {
                        // only a leaf that carries the root's own label has
                        // no direction to descend by
                        assert(lk.len() == 0);
                        assert(lk =~= Seq::<bool>::empty());
                        assert(m0.dom().contains(lk));
                        assert(old(self).label@ == lk);
                    }
                    return Err(e);
                },
            };
            if child_state.is_none() {
                proof {
                    // the slot the leaf needs is truly empty, and the leaf's
                    // label is not yet stored
                    if new_leaf.label@[0] {
                        assert(old(self).right_child is None);
                    } else {
                        assert(old(self).left_child is None);
                    }
                    if m0.dom().contains(lk) {
                        assert(is_prefix(sk, lk)) by {
                            assert(lk.take(0) =~= Seq::<bool>::empty());
                        }
                        lemma_descent(m0, sk, lk);
                        assert(false);
                    }
                }
                match self.set_child(storage, dir_leaf, &mut new_leaf, epoch) {
                    Ok(()) => (),
                    Err(e) => {
                        return Err(AkdError::Storage(e));
                    },
                }
                proof {
                    lemma_wf_root_bootstrap(m0, *self, new_leaf, epoch);
                    assert(storage.contents() =~= m0.insert(Seq::<bool>::empty(), *self).insert(
                        lk,
                        new_leaf,
                    ));
                }
                let ghost m1 = storage.contents();
                if hashing {
                    new_leaf.update_node_hash(storage, epoch)?;
                    let ghost m2 = storage.contents();
                    proof {
                        assert forall|k2: Seq<bool>| #[trigger]
                            m2.dom().contains(k2) implies m2[k2].last_epoch <= epoch by {
                            if k2 != lk {
                                assert(m1.dom().contains(k2));
                            }
                        }
                    }
                    self.update_node_hash(storage, epoch)?;
                    let ghost mf = storage.contents();
                    proof {
                        assert forall|k2: Seq<bool>| #[trigger]
                            mf.dom().contains(k2) implies mf[k2].last_epoch <= epoch by {
                            if k2 != sk {
                                assert(m2.dom().contains(k2));
                            }
                        }
                        assert(anc(mf, lk, 0) == lk);
                        assert(anc(mf, lk, 1) == mf[lk].parent@);
                        assert(mf[lk].parent@ == sk);
                        assert(chain_stamped(mf, lk, 1, epoch)) by {
                            assert forall|i: nat| i <= 1 implies mf.dom().contains(
                                #[trigger] anc(mf, lk, i),
                            ) && mf[anc(mf, lk, i)].last_epoch == epoch by {
                                if i == 0 {
                                    assert(anc(mf, lk, 0) == lk);
                                } else {
                                    assert(i == 1);
                                }
                            }
                        }
                        assert(chain_hashed(mf, lk, 1)) by {
                            assert forall|i: nat| 1 <= i <= 1 implies mf[#[trigger] anc(
                                mf,
                                lk,
                                i,
                            )].hash@ == computed_hash(mf, mf[anc(mf, lk, i)]) by {
                                assert(i == 1);
                                assert(mf[sk] == *self);
                                lemma_node_ok(m2, sk);
                                lemma_computed_hash_frame(m2, mf, m2[sk], mf[sk]);
                            }
                        }
                        assert(forall|i: nat|
                            i < 1 ==> (#[trigger] anc(mf, lk, i)).len() > old(self).parent@.len())
                            by {
                            assert(anc(mf, lk, 0) == lk);
                            assert(old(self).parent@.len() == 0);
                        }
                        assert(exists|n: nat|
                            {
                                &&& n >= 1
                                &&& chain_stamped(mf, lk, n, epoch)
                                &&& chain_hashed(mf, lk, n)
                                &&& forall|i: nat|
                                    i < n ==> (#[trigger] anc(mf, lk, i)).len() > old(self).parent@.len()
                                &&& ((anc(mf, lk, n) == sk && final(self).parent == old(self).parent) || anc(mf, lk, n) == old(self).parent@)
                            }) by {
                            assert(chain_stamped(mf, lk, 1nat, epoch) && anc(mf, lk, 1nat) == sk);
                        }
                    }
                } else {
                    match new_leaf.write_to_storage(storage) {
                        Ok(()) => (),
                        Err(e) => {
                            return Err(AkdError::Storage(e));
                        },
                    }
                    match self.write_to_storage(storage) {
                        Ok(()) => (),
                        Err(e) => {
                            return Err(AkdError::Storage(e));
                        },
                    }
                    proof {
                        assert(storage.contents() =~= m1);
                    }
                }
                proof {
                    let mf = storage.contents();
                    assert(lk.len() >= 1);
                    assert(mf =~= m0.insert(Seq::<bool>::empty(), *self).insert(lk, new_leaf));
                    lemma_bootstrap_summary(m0, mf, lk, *self, new_leaf, epoch);
                }
                return Ok(());
            }
            proof {
                // the slot the descent follows is present and stored
                let slot = if lk[0] {
                    old(self).right_child
                } else {
                    old(self).left_child
                };
                assert(slot is Some && m0.dom().contains(slot.unwrap()@));
            }
        }

        match dir_self {
            Some(_) => {
                proof {
                    // a fork strictly below the parent: this node is not the
                    // root, and the fork label extends the parent's
                    assert(!(old(self).node_type is Root)) by {
                        if old(self).node_type is Root {
                            assert(sk.len() == 0);
                            assert(klen < sk.len());
                        }
                    }
                    assert(parent_ok(m0, *old(self)));
                }
                let ghost pk = old(self).parent@;
                let ghost bit_p = sk[pk.len() as int];
                proof {
                    assert(klen > pk.len()) by {
                        if klen <= pk.len() {
                            assert(klen < sk.len() && klen < lk.len());
                            assert(sk[klen] != lk[klen]);
                            assert(sk.take(pk.len() as int) == pk);
                            assert(is_prefix(pk, lk));
                            if klen < pk.len() {
                                assert(sk[klen] == pk[klen]);
                                assert(lk[klen] == pk[klen]);
                            } else {
                                assert(sk[klen] == lk[klen]);
                            }
                        }
                    }
                    assert(is_prefix(lcs_label@, sk));
                    assert(lcs_label@[pk.len() as int] == bit_p);
                    assert(is_prefix(pk, lcs_label@)) by {
                        assert(sk.take(pk.len() as int) == pk);
                        assert(lcs_label@ == sk.take(klen));
                        assert(lcs_label@.take(pk.len() as int) =~= pk);
                    }
                    if m0.dom().contains(lcs_label@) {
                        lemma_descent(m0, pk, lcs_label@);
                        assert(lcs_label@[pk.len() as int] == sk[pk.len() as int]);
                        assert(is_prefix(old(self).label@, lcs_label@));
                        assert(false);
                    }
                    if m0.dom().contains(lk) {
                        assert(is_prefix(pk, lk)) by {
                            assert(on_search_path(*old(self), lk));
                        }
                        lemma_descent(m0, pk, lk);
                        assert(lk[pk.len() as int] == sk[pk.len() as int]) by {
                            assert(on_search_path(*old(self), lk));
                        }
                        assert(is_prefix(sk, lk));
                        assert(lcs_label@ =~= sk.take(klen));
                        assert(klen < sk.len());
                        assert(klen < lk.len());
                        assert(sk[klen] != lk[klen]);
                        assert(sk.take(klen) == lk.take(klen));
                        assert(sk[klen] == lk[klen]);
                        assert(false);
                    }
                }
                if dir_leaf.is_none() {
                    proof {
                        // the fork label is the leaf's own, so this stored
                        // node extends the leaf's label
                        assert(klen >= lk.len());
                        assert(lcs_label@ =~= lk) by {
                            assert(lcs_label@ == lk.take(klen));
                            assert(lk.take(lk.len() as int) =~= lk);
                        }
                        assert(is_prefix(lk, sk));
                        assert(lk.len() < sk.len());
                        assert(m0.dom().contains(sk) && lk.len() < sk.len() && is_prefix(
                            lk,
                            sk,
                        ));
                    }
                    return Err(AkdError::HistoryTreeNode(HistoryTreeNodeError::NoDirection(
                        new_leaf.label,
                        None,
                    )));
                }
                *num_nodes += 1;
                let mut parent = match HistoryTreeNode::get_from_storage(
                    storage,
                    &NodeKey(self.parent),
                    epoch,
                ) {
                    Ok(p) => p,
                    Err(e) => {
                        return Err(AkdError::Storage(e));
                    },
                };
                proof {
                    assert(parent == m0[pk]);
                    lemma_node_ok(m0, pk);
                }
                let self_dir_in_parent = parent.get_direction(self);
                proof {
                    // the slot of the parent on this node's side holds this
                    // node; the other slot cannot match
                    if bit_p {
                        assert(parent.right_child == Some(old(self).label));
                        if parent.left_child is Some {
                            let q = parent.left_child.unwrap();
                            assert(child_ok(m0, parent, q, false));
                            if q.len == old(self).label.len && q.val@ == old(self).label.val@ {
                                crate::storage::lemma_view_eq_of_equal_material(
                                    q,
                                    old(self).label,
                                );
                                assert(q@[pk.len() as int] == false);
                                assert(false);
                            }
                        }
                        assert(self_dir_in_parent == Some(1usize));
                    } else {
                        assert(parent.left_child == Some(old(self).label));
                        assert(self_dir_in_parent == Some(0usize));
                    }
                }
                let mut new_node = HistoryTreeNode::new(
                    lcs_label,
                    parent.label,
                    NodeType::Interior,
                    epoch,
                    None,
                    None,
                    [0u8; 32],
                );
                match parent.set_child(storage, self_dir_in_parent, &mut new_node, epoch) {
                    Ok(()) => (),
                    Err(e) => {
                        return Err(AkdError::Storage(e));
                    },
                }
                match new_node.set_child(storage, dir_leaf, &mut new_leaf, epoch) {
                    Ok(()) => (),
                    Err(e) => {
                        return Err(AkdError::Storage(e));
                    },
                }
                match new_node.set_child(storage, dir_self, self, epoch) {
                    Ok(()) => (),
                    Err(e) => {
                        return Err(AkdError::Storage(e));
                    },
                }
                let ghost mk = lcs_label@;
                proof {
                    assert(pk != mk && pk != sk && pk != lk && mk != sk && mk != lk && sk != lk)
                        by {
                        assert(klen < sk.len() && klen < lk.len());
                        assert(sk[klen] != lk[klen]);
                        if sk == lk {
                            assert(sk[klen] == lk[klen]);
                        }
                    }
                    assert(storage.contents() =~= m0.insert(pk, parent).insert(
                        mk,
                        new_node,
                    ).insert(lk, new_leaf).insert(sk, *self));
                    lemma_wf_split(m0, pk, sk, parent, new_node, new_leaf, *self, epoch);
                }
                let ghost mc = storage.contents();
                proof {
                    assert(mc[lk] == new_leaf && mc[mk] == new_node && mc[pk] == parent
                        && mc[sk] == *self);
                }
                if hashing {
                    new_leaf.update_node_hash(storage, epoch)?;
                    let ghost md = storage.contents();
                    proof {
                        assert forall|k2: Seq<bool>| #[trigger]
                            md.dom().contains(k2) implies md[k2].last_epoch <= epoch by {
                            if k2 != lk {
                                assert(mc.dom().contains(k2));
                            }
                        }
                    }
                    new_node.update_node_hash(storage, epoch)?;
                    let ghost me = storage.contents();
                    proof {
                        assert forall|k2: Seq<bool>| #[trigger]
                            me.dom().contains(k2) implies me[k2].last_epoch <= epoch by {
                            if k2 != mk {
                                assert(md.dom().contains(k2));
                            }
                        }
                    }
                    parent.update_node_hash(storage, epoch)?;
                    let ghost mf = storage.contents();
                    proof {
                        assert forall|k2: Seq<bool>| #[trigger]
                            mf.dom().contains(k2) implies mf[k2].last_epoch <= epoch by {
                            if k2 != pk {
                                assert(me.dom().contains(k2));
                            }
                        }
                        assert(mf[lk].parent@ == mk);
                        assert(mf[mk].parent@ == pk);
                        assert(anc(mf, lk, 0) == lk);
                        assert(anc(mf, lk, 1) == mk);
                        assert(anc(mf, lk, 2) == pk);
                        assert(chain_stamped(mf, lk, 2, epoch)) by {
                            assert forall|i: nat| i <= 2 implies mf.dom().contains(
                                #[trigger] anc(mf, lk, i),
                            ) && mf[anc(mf, lk, i)].last_epoch == epoch by {
                                if i == 0 {
                                    assert(anc(mf, lk, 0) == lk);
                                } else if i == 1 {
                                    assert(anc(mf, lk, 1) == mk);
                                } else {
                                    assert(i == 2);
                                }
                            }
                        }
                        assert(chain_hashed(mf, lk, 2)) by {
                            assert forall|i: nat| 1 <= i <= 2 implies mf[#[trigger] anc(
                                mf,
                                lk,
                                i,
                            )].hash@ == computed_hash(mf, mf[anc(mf, lk, i)]) by {
                                if i == 1 {
                                    assert(mf[mk] == new_node);
                                    assert(md[mk] == mc[mk]);
                                    assert(mf[lk] == md[lk]);
                                    assert(mf[sk] == md[sk]);
                                    lemma_computed_hash_frame(md, mf, md[mk], mf[mk]);
                                } else {
                                    assert(i == 2);
                                    assert(mf[pk] == parent);
                                    assert(me[pk] == mc[pk]);
                                    lemma_node_ok(me, pk);
                                    if me[pk].left_child is Some {
                                        let q = me[pk].left_child.unwrap();
                                        assert(child_ok(me, me[pk], q, false));
                                        assert(q@ != pk);
                                        assert(mf[q@] == me[q@]);
                                    }
                                    if me[pk].right_child is Some {
                                        let q = me[pk].right_child.unwrap();
                                        assert(child_ok(me, me[pk], q, true));
                                        assert(q@ != pk);
                                        assert(mf[q@] == me[q@]);
                                    }
                                    lemma_computed_hash_frame(me, mf, me[pk], mf[pk]);
                                }
                            }
                        }
                        assert(exists|n: nat|
                            {
                                &&& n >= 1
                                &&& chain_stamped(mf, lk, n, epoch)
                                &&& chain_hashed(mf, lk, n)
                                &&& forall|i: nat|
                                    i < n ==> (#[trigger] anc(mf, lk, i)).len() > old(self).parent@.len()
                                &&& ((anc(mf, lk, n) == sk && final(self).parent == old(self).parent) || anc(mf, lk, n) == pk)
                            }) by {
                            assert(chain_stamped(mf, lk, 2nat, epoch) && anc(mf, lk, 2nat) == pk);
                            assert forall|i: nat| i < 2nat implies (#[trigger] anc(
                                mf,
                                lk,
                                i,
                            )).len() > old(self).parent@.len() by {
                                if i == 0 {
                                    assert(anc(mf, lk, 0) == lk);
                                } else {
                                    assert(i == 1);
                                }
                            }
                        }
                    }
                } else {
                    match new_leaf.write_to_storage(storage) {
                        Ok(()) => (),
                        Err(e) => {
                            return Err(AkdError::Storage(e));
                        },
                    }
                    match new_node.write_to_storage(storage) {
                        Ok(()) => (),
                        Err(e) => {
                            return Err(AkdError::Storage(e));
                        },
                    }
                    match parent.write_to_storage(storage) {
                        Ok(()) => (),
                        Err(e) => {
                            return Err(AkdError::Storage(e));
                        },
                    }
                    proof {
                        assert(storage.contents() =~= mc);
                    }
                }
                proof {
                    let mf = storage.contents();
                    assert(is_prefix(pk, lk) && pk.len() < lk.len() && lk[pk.len() as int]
                        == sk[pk.len() as int]) by {
                        assert(on_search_path(*old(self), lk));
                    }
                    crate::label::lemma_lcp_of_characterization(sk, lk, mk);
                    assert(mf =~= m0.insert(pk, parent).insert(mk, new_node).insert(
                        lk,
                        new_leaf,
                    ).insert(sk, *self));
                    lemma_split_summary(
                        m0,
                        mf,
                        lk,
                        pk,
                        sk,
                        mk,
                        parent,
                        new_node,
                        new_leaf,
                        *self,
                        epoch,
                    );
                }
                Ok(())
            },
            None => {
                let child_node = match self.get_child_state(storage, dir_leaf) {
                    Ok(cs) => cs,
                    Err(e) => {
                        proof {
                            // only a leaf whose label this node already
                            // carries has no direction to descend by
                            assert(lcs_label@ =~= sk);
                            assert(klen >= lk.len());
                            assert(lk =~= sk);
                            assert(m0.dom().contains(lk));
                            assert(old(self).label@ == lk);
                        }
                        return Err(e);
                    },
                };
                match child_node {
                    Some(mut child_node) => {
                        let ghost ck = child_node.label@;
                        proof {
                            // the child is stored under the slot's label and
                            // continues toward the target
                            assert(lcs_label@ =~= sk);
                            assert(klen < lk.len());
                            let cl = if new_leaf.label@[sk.len() as int] {
                                old(self).right_child.unwrap()
                            } else {
                                old(self).left_child.unwrap()
                            };
                            assert(child_ok(m0, *old(self), cl, lk[sk.len() as int]));
                            assert(child_node == m0[cl@]);
                            lemma_node_ok(m0, cl@);
                            assert(ck == cl@);
                            assert(on_search_path(child_node, lk)) by {
                                assert(child_node.parent == old(self).label);
                                assert(is_prefix(sk, lk)) by {
                                    assert(lk.take(sk.len() as int) == sk);
                                }
                            }
                            assert(ck.len() > sk.len());
                            assert(ck.len() <= 256) by {
                                assert(child_node.label.is_canonical());
                            }
                        }
                        let ghost num_before = *num_nodes;
                        match child_node.insert_single_leaf_helper(
                            storage,
                            new_leaf,
                            epoch,
                            num_nodes,
                            hashing,
                        ) {
                            Ok(()) => (),
                            Err(e) => {
                                return Err(e);
                            },
                        }
                        let ghost mm = storage.contents();
                        proof {
                            assert(mm.dom().contains(sk));
                            assert(mm[sk].last_epoch <= epoch);
                        }
                        if hashing {
                            *self = match HistoryTreeNode::get_from_storage(
                                storage,
                                &NodeKey(self.label),
                                epoch,
                            ) {
                                Ok(n) => n,
                                Err(e) => {
                                    return Err(AkdError::Storage(e));
                                },
                            };
                            proof {
                                assert(*self == mm[sk]);
                                assert(self.node_type == old(self).node_type);
                                assert(!(old(self).node_type is Leaf)) by {
                                    if old(self).node_type is Leaf {
                                        assert(old(self).left_child is None && old(self).right_child is None);
                                    }
                                }
                            }
                            if !self.is_leaf() {
                                self.update_node_hash(storage, epoch)?;
                            }
                            let ghost mf = storage.contents();
                            proof {
                                assert(mf == mm.insert(sk, *self));
                                assert forall|k2: Seq<bool>| #[trigger]
                                    mf.dom().contains(k2) implies mf[k2].last_epoch <= epoch by {
                                    if k2 != sk {
                                        assert(mm.dom().contains(k2));
                                    }
                                }
                                // carry the stamped and hashed chain through
                                // the final write and extend it by this node
                                assert(child_node == mm[ck]);
                                let n0 = choose|n: nat|
                                    {
                                        &&& n >= 1
                                        &&& chain_stamped(mm, lk, n, epoch)
                                        &&& chain_hashed(mm, lk, n)
                                        &&& forall|i: nat|
                                            i < n ==> (#[trigger] anc(mm, lk, i)).len()
                                                > m0[ck].parent@.len()
                                        &&& ((anc(mm, lk, n) == ck && mm[ck].parent
                                            == m0[ck].parent) || anc(mm, lk, n)
                                            == m0[ck].parent@)
                                    };
                                assert({
                                    &&& n0 >= 1
                                    &&& chain_stamped(mm, lk, n0, epoch)
                                    &&& chain_hashed(mm, lk, n0)
                                    &&& forall|i: nat|
                                        i < n0 ==> (#[trigger] anc(mm, lk, i)).len()
                                            > m0[ck].parent@.len()
                                    &&& ((anc(mm, lk, n0) == ck && mm[ck].parent
                                        == m0[ck].parent) || anc(mm, lk, n0) == m0[ck].parent@)
                                });
                                assert(m0[ck].parent == old(self).label);
                                assert(m0[ck].parent@ == sk);
                                lemma_chain_preserved(mm, mf, lk, n0, epoch);
                                assert(mm[sk].parent == m0[sk].parent);
                                assert(mf[sk].parent == m0[sk].parent);
                                assert(anc(mm, lk, n0) == sk || anc(mm, lk, n0).len()
                                    > sk.len()) by {
                                    if anc(mm, lk, n0) == ck {
                                        assert(ck.len() > sk.len());
                                    }
                                }
                                assert(mf[sk] == *self);
                                assert(!(mm[sk].node_type is Leaf));
                                lemma_chain_hashed_transport(mm, mf, lk, n0, sk, *self, epoch);
                                assert(sk.len() >= old(self).parent@.len()) by {
                                    if !(old(self).node_type is Root) {
                                        assert(parent_ok(m0, *old(self)));
                                    }
                                }
                                if anc(mm, lk, n0) == ck {
                                    assert(anc(mf, lk, n0) == ck);
                                    assert(mf[ck].parent@ == sk) by {
                                        assert(ck != sk);
                                        assert(mf[ck] == mm[ck]);
                                    }
                                    assert(anc(mf, lk, (n0 + 1) as nat) == sk);
                                    assert(chain_stamped(mf, lk, (n0 + 1) as nat, epoch)) by {
                                        assert forall|i: nat|
                                            i <= n0 + 1 implies mf.dom().contains(
                                            #[trigger] anc(mf, lk, i),
                                        ) && mf[anc(mf, lk, i)].last_epoch == epoch by {
                                            if i <= n0 {
                                                assert(anc(mf, lk, i) == anc(mm, lk, i));
                                            } else {
                                                assert(i == n0 + 1);
                                                assert(anc(mf, lk, i) == sk);
                                            }
                                        }
                                    }
                                    assert(chain_hashed(mf, lk, (n0 + 1) as nat)) by {
                                        assert forall|i: nat|
                                            1 <= i <= n0 + 1 implies mf[#[trigger] anc(
                                            mf,
                                            lk,
                                            i,
                                        )].hash@ == computed_hash(mf, mf[anc(mf, lk, i)]) by {
                                            if i <= n0 {
                                                assert(chain_hashed(mf, lk, n0));
                                            } else {
                                                assert(i == n0 + 1);
                                                assert(anc(mf, lk, i) == sk);
                                                lemma_node_ok(mm, sk);
                                                if mm[sk].left_child is Some {
                                                    let c = mm[sk].left_child.unwrap();
                                                    assert(child_ok(mm, mm[sk], c, false));
                                                    assert(c@ != sk);
                                                    assert(mf[c@] == mm[c@]);
                                                }
                                                if mm[sk].right_child is Some {
                                                    let c = mm[sk].right_child.unwrap();
                                                    assert(child_ok(mm, mm[sk], c, true));
                                                    assert(c@ != sk);
                                                    assert(mf[c@] == mm[c@]);
                                                }
                                                lemma_computed_hash_frame(
                                                    mm,
                                                    mf,
                                                    mm[sk],
                                                    mf[sk],
                                                );
                                            }
                                        }
                                    }
                                    assert(exists|n: nat|
                                        {
                                            &&& n >= 1
                                            &&& chain_stamped(mf, lk, n, epoch)
                                            &&& chain_hashed(mf, lk, n)
                                            &&& forall|i: nat|
                                                i < n ==> (#[trigger] anc(mf, lk, i)).len()
                                                    > old(self).parent@.len()
                                            &&& ((anc(mf, lk, n) == sk && final(self).parent
                                                == old(self).parent) || anc(mf, lk, n) == old(self).parent@)
                                        }) by {
                                        assert(chain_stamped(mf, lk, (n0 + 1) as nat, epoch)
                                            && anc(mf, lk, (n0 + 1) as nat) == sk);
                                        assert(chain_hashed(mf, lk, (n0 + 1) as nat));
                                        assert forall|i: nat|
                                            i < n0 + 1 implies (#[trigger] anc(mf, lk, i)).len()
                                            > old(self).parent@.len() by {
                                            assert(anc(mf, lk, i) == anc(mm, lk, i));
                                            if i < n0 {
                                                assert(anc(mm, lk, i).len() > sk.len());
                                            } else {
                                                assert(i == n0);
                                                assert(anc(mm, lk, n0) == ck);
                                                assert(ck.len() > sk.len());
                                            }
                                        }
                                        assert(final(self).parent == mf[sk].parent);
                                    }
                                } else {
                                    assert(anc(mm, lk, n0) == sk);
                                    assert(anc(mf, lk, n0) == sk);
                                    assert(exists|n: nat|
                                        {
                                            &&& n >= 1
                                            &&& chain_stamped(mf, lk, n, epoch)
                                            &&& chain_hashed(mf, lk, n)
                                            &&& forall|i: nat|
                                                i < n ==> (#[trigger] anc(mf, lk, i)).len()
                                                    > old(self).parent@.len()
                                            &&& ((anc(mf, lk, n) == sk && final(self).parent
                                                == old(self).parent) || anc(mf, lk, n) == old(self).parent@)
                                        }) by {
                                        assert(chain_stamped(mf, lk, n0, epoch) && anc(
                                            mf,
                                            lk,
                                            n0,
                                        ) == sk);
                                        assert(chain_hashed(mf, lk, n0));
                                        assert forall|i: nat|
                                            i < n0 implies (#[trigger] anc(mf, lk, i)).len()
                                            > old(self).parent@.len() by {
                                            assert(anc(mf, lk, i) == anc(mm, lk, i));
                                            assert(anc(mm, lk, i).len() > sk.len());
                                        }
                                        assert(final(self).parent == mf[sk].parent);
                                    }
                                }
                            }
                        } else {
                            *self = match HistoryTreeNode::get_from_storage(
                                storage,
                                &NodeKey(self.label),
                                epoch,
                            ) {
                                Ok(n) => n,
                                Err(e) => {
                                    return Err(AkdError::Storage(e));
                                },
                            };
                        }
                        proof {
                            // the recursion's account of the store carries
                            // through this node's re-stamp, which touches
                            // only a node on the leaf's path
                            let mf = storage.contents();
                            assert(is_prefix(sk, lk)) by {
                                assert(lk.take(klen) == lcs_label@);
                                assert(lcs_label@ =~= sk);
                            }
                            assert(sk.len() < lk.len());
                            assert(!(m0[ck].node_type is Root));
                            let s = choose|s: Seq<bool>| split_shape(m0, mm, lk, s, epoch);
                            assert(split_shape(m0, mm, lk, s, epoch));
                            if hashing {
                                lemma_descend_transport(m0, mm, mf, lk, sk, s, *self, epoch);
                            }
                            assert(split_shape(m0, mf, lk, s, epoch));
                            assert(insert_effects(m0, mf, lk, epoch));
                        }
                        Ok(())
                    },
                    None => {
                        let d = dir_leaf.unwrap();
                        proof {
                            // the slot the descent needs is empty, so the
                            // visited node is a stored leaf above the new
                            // leaf's label
                            assert(lcs_label@ =~= sk);
                            assert(klen < lk.len());
                            assert(is_prefix(sk, lk)) by {
                                assert(lk.take(klen) == lcs_label@);
                            }
                            assert((if lk[klen] {
                                old(self).right_child
                            } else {
                                old(self).left_child
                            }) is None);
                            assert(!(old(self).node_type is Root)) by {
                                if old(self).node_type is Root {
                                    assert(sk =~= Seq::<bool>::empty());
                                    assert(klen == 0);
                                }
                            }
                            assert(!(old(self).node_type is Interior));
                            assert(m0[sk].node_type is Leaf);
                            assert(m0.dom().contains(sk) && m0[sk].node_type is Leaf
                                && sk.len() < lk.len() && is_prefix(sk, lk) && d == (
                            if lk[sk.len() as int] {
                                1usize
                            } else {
                                0usize
                            }));
                        }
                        Err(AkdError::HistoryTreeNode(HistoryTreeNodeError::NoChildAtEpoch(
                            epoch,
                            d,
                        )))
                    },
                }
            },
        }
    }

    /// Inserts a single leaf node and updates the required hashes, creating
    /// new nodes where needed.
    pub fn insert_single_leaf(
        &mut self,
        storage: &mut InMemoryDatabase,
        new_leaf: Self,
        epoch: u64,
        num_nodes: &mut u64,
    ) -> (r: Result<(), AkdError>)
        requires
            old(storage).inv(),
            tree_wf(old(storage).contents()),
            epochs_bounded(old(storage).contents(), epoch),
            old(self).node_type is Root,
            old(storage).contents().dom().contains(old(self).label@),
            old(storage).contents()[old(self).label@] == *old(self),
            leaf_shaped(new_leaf, epoch),
            *old(num_nodes) <= u64::MAX - 514,
        ensures
            final(storage).inv(),
            tree_wf(final(storage).contents()),
            epochs_bounded(final(storage).contents(), epoch),
            r is Err ==> *final(storage) == *old(storage) && *final(self) == *old(self),
            r is Ok <==> insertable(old(storage).contents(), new_leaf.label@),
            r matches Err(e) ==> (match e {
                AkdError::HistoryTreeNode(HistoryTreeNodeError::NoChildAtEpoch(ep2, d)) => {
                    &&& ep2 == epoch
                    &&& (exists|k: Seq<bool>| #[trigger]
                        old(storage).contents().dom().contains(k) && old(
                            storage,
                        ).contents()[k].node_type is Leaf && k.len() < new_leaf.label@.len()
                            && is_prefix(k, new_leaf.label@) && d == (if new_leaf.label@[k.len() as int] {
                            1usize
                        } else {
                            0usize
                        }))
                },
                AkdError::HistoryTreeNode(HistoryTreeNodeError::NoDirection(l, c)) => {
                    &&& l@ == new_leaf.label@
                    &&& c is None
                    &&& (old(storage).contents().dom().contains(new_leaf.label@) || exists|
                        k: Seq<bool>,
                    | #[trigger]
                        old(storage).contents().dom().contains(k) && new_leaf.label@.len()
                            < k.len() && is_prefix(new_leaf.label@, k))
                },
                _ => false,
            }),
            r is Ok ==> ({
                let m0 = old(storage).contents();
                let mf = final(storage).contents();
                let lk = new_leaf.label@;
                &&& insert_effects(m0, mf, lk, epoch)
            }),
            r is Ok ==> ({
                let m0 = old(storage).contents();
                let mf = final(storage).contents();
                let lk = new_leaf.label@;
                ||| (bootstrap_shape(m0, mf, lk) && *final(num_nodes) == *old(num_nodes) + 1)
                ||| ((exists|s: Seq<bool>| split_shape(m0, mf, lk, s, epoch)) && *final(num_nodes) == *old(num_nodes) + 2)
            }),
            r is Ok ==> ({
                let mf = final(storage).contents();
                &&& mf.dom().contains(new_leaf.label@)
                &&& mf[new_leaf.label@].node_type is Leaf
                &&& mf[new_leaf.label@].last_epoch == epoch
                &&& mf[new_leaf.label@].birth_epoch == new_leaf.birth_epoch
                &&& mf[new_leaf.label@].hash@ == hashing::merge_of(
                    new_leaf.hash@,
                    hashing::hash_of(hashing::label_hash_input(new_leaf.label)),
                )
                &&& mf.dom().contains(old(self).label@)
                &&& *final(self) == mf[old(self).label@]
                &&& final(self).label == old(self).label
                &&& root_path_stamped(mf, new_leaf.label@, epoch)
                &&& root_path_hashed(mf, new_leaf.label@, epoch)
                &&& mf[Seq::<bool>::empty()].hash@ == computed_hash(mf, mf[Seq::<bool>::empty()])
            }),
    {
        proof {
            lemma_node_ok(old(storage).contents(), old(self).label@);
            assert(old(self).label@ =~= Seq::<bool>::empty());
        }
        let r = self.insert_single_leaf_helper(storage, new_leaf, epoch, num_nodes, true);
        proof {
            if r is Ok {
                let mf = storage.contents();
                let lk = new_leaf.label@;
                let n0 = choose|n: nat|
                    {
                        &&& n >= 1
                        &&& chain_stamped(mf, lk, n, epoch)
                        &&& chain_hashed(mf, lk, n)
                        &&& forall|i: nat|
                            i < n ==> (#[trigger] anc(mf, lk, i)).len() > old(self).parent@.len()
                        &&& ((anc(mf, lk, n) == old(self).label@ && final(self).parent == old(self).parent)
                            || anc(mf, lk, n) == old(self).parent@)
                    };
                assert({
                    &&& n0 >= 1
                    &&& chain_stamped(mf, lk, n0, epoch)
                    &&& chain_hashed(mf, lk, n0)
                    &&& ((anc(mf, lk, n0) == old(self).label@ && final(self).parent == old(self).parent)
                        || anc(mf, lk, n0) == old(self).parent@)
                });
                assert(old(self).parent@ == old(self).label@) by {
                    assert(old(self).parent == old(self).label);
                }
                assert(anc(mf, lk, n0) == Seq::<bool>::empty());
                assert(root_path_stamped(mf, lk, epoch)) by {
                    assert(chain_stamped(mf, lk, n0, epoch) && anc(mf, lk, n0) == Seq::<
                        bool,
                    >::empty());
                }
                assert(root_path_hashed(mf, lk, epoch)) by {
                    assert(n0 >= 1 && chain_stamped(mf, lk, n0, epoch) && chain_hashed(
                        mf,
                        lk,
                        n0,
                    ) && anc(mf, lk, n0) == Seq::<bool>::empty());
                }
                lemma_root_hash_follows_rule(mf, lk, epoch);
            }
        }
        r
    }

    /// Inserts a single leaf node without hashing, creating new nodes where
    /// needed; hashes are recomputed by a later hashing pass.
    pub fn insert_leaf(
        &mut self,
        storage: &mut InMemoryDatabase,
        new_leaf: Self,
        epoch: u64,
        num_nodes: &mut u64,
    ) -> (r: Result<(), AkdError>)
        requires
            old(storage).inv(),
            tree_wf(old(storage).contents()),
            epochs_bounded(old(storage).contents(), epoch),
            old(self).node_type is Root,
            old(storage).contents().dom().contains(old(self).label@),
            old(storage).contents()[old(self).label@] == *old(self),
            leaf_shaped(new_leaf, epoch),
            *old(num_nodes) <= u64::MAX - 514,
        ensures
            final(storage).inv(),
            tree_wf(final(storage).contents()),
            epochs_bounded(final(storage).contents(), epoch),
            r is Err ==> *final(storage) == *old(storage) && *final(self) == *old(self),
            r is Ok <==> insertable(old(storage).contents(), new_leaf.label@),
            r matches Err(e) ==> (match e {
                AkdError::HistoryTreeNode(HistoryTreeNodeError::NoChildAtEpoch(ep2, d)) => {
                    &&& ep2 == epoch
                    &&& (exists|k: Seq<bool>| #[trigger]
                        old(storage).contents().dom().contains(k) && old(
                            storage,
                        ).contents()[k].node_type is Leaf && k.len() < new_leaf.label@.len()
                            && is_prefix(k, new_leaf.label@) && d == (if new_leaf.label@[k.len() as int] {
                            1usize
                        } else {
                            0usize
                        }))
                },
                AkdError::HistoryTreeNode(HistoryTreeNodeError::NoDirection(l, c)) => {
                    &&& l@ == new_leaf.label@
                    &&& c is None
                    &&& (old(storage).contents().dom().contains(new_leaf.label@) || exists|
                        k: Seq<bool>,
                    | #[trigger]
                        old(storage).contents().dom().contains(k) && new_leaf.label@.len()
                            < k.len() && is_prefix(new_leaf.label@, k))
                },
                _ => false,
            }),
            r is Ok ==> ({
                let m0 = old(storage).contents();
                let mf = final(storage).contents();
                let lk = new_leaf.label@;
                &&& insert_effects(m0, mf, lk, epoch)
            }),
            r is Ok ==> ({
                let m0 = old(storage).contents();
                let mf = final(storage).contents();
                let lk = new_leaf.label@;
                ||| (bootstrap_shape(m0, mf, lk) && *final(num_nodes) == *old(num_nodes) + 1)
                ||| ((exists|s: Seq<bool>| split_shape(m0, mf, lk, s, epoch)) && *final(num_nodes) == *old(num_nodes) + 2)
            }),
            r is Ok ==> ({
                let mf = final(storage).contents();
                &&& mf.dom().contains(new_leaf.label@)
                &&& mf[new_leaf.label@].node_type is Leaf
                &&& mf[new_leaf.label@].last_epoch == epoch
                &&& mf[new_leaf.label@].birth_epoch == new_leaf.birth_epoch
                &&& mf[new_leaf.label@].hash == new_leaf.hash
                &&& mf.dom().contains(old(self).label@)
                &&& *final(self) == mf[old(self).label@]
                &&& final(self).label == old(self).label
            }),
    {
        proof {
            lemma_node_ok(old(storage).contents(), old(self).label@);
        }
        self.insert_single_leaf_helper(storage, new_leaf, epoch, num_nodes, false)
    }
}

// =====================================================
// Laws of the well-formed tree
// =====================================================

/// In a well-formed tree — which every insertion leaves behind — the label
/// of an interior node is exactly the longest common prefix of its two
/// children's labels.
pub proof fn lemma_interior_label_is_children_lcp(m: Map<Seq<bool>, HistoryTreeNode>, k: Seq<bool>)
    requires
        tree_wf(m),
        m.dom().contains(k),
        m[k].node_type is Interior,
    ensures
        m[k].left_child is Some,
        m[k].right_child is Some,
        crate::label::lcp_of(m[k].left_child.unwrap()@, m[k].right_child.unwrap()@) == m[k].label@,
{
    lemma_node_ok(m, k);
    let n = m[k];
    let cl = n.left_child.unwrap();
    let cr = n.right_child.unwrap();
    assert(child_ok(m, n, cl, false));
    assert(child_ok(m, n, cr, true));
    assert(is_prefix(n.label@, cl@));
    assert(is_prefix(n.label@, cr@));
    assert(cl@[n.label@.len() as int] != cr@[n.label@.len() as int]);
    crate::label::lemma_lcp_of_characterization(cl@, cr@, n.label@);
}

/// In a well-formed tree — which every insertion leaves behind — every
/// non-root node's label extends its parent's label by at least one bit, and
/// the first extending bit selects the slot of the parent that holds the
/// node.
pub proof fn lemma_child_extends_parent(m: Map<Seq<bool>, HistoryTreeNode>, k: Seq<bool>)
    requires
        tree_wf(m),
        m.dom().contains(k),
        !(m[k].node_type is Root),
    ensures
        m.dom().contains(m[k].parent@),
        m[k].parent@.len() < k.len(),
        is_prefix(m[k].parent@, k),
        (if k[m[k].parent@.len() as int] {
            m[m[k].parent@].right_child == Some(m[k].label)
        } else {
            m[m[k].parent@].left_child == Some(m[k].label)
        }),
{
    lemma_node_ok(m, k);
    let n = m[k];
    assert(parent_ok(m, n));
    assert(is_prefix(n.parent@, k)) by {
        assert(k.take(n.parent@.len() as int) == n.parent@);
    }
}

// =====================================================
// Binary key layout
// =====================================================

/// The stable binary form of a node key: one tag byte, the label length as
/// four little-endian bytes, then the 32 bytes of bit material.
pub open spec fn key_binary_spec(key: NodeKey) -> Seq<u8> {
    seq![HISTORY_TREE_NODE_TAG] + hashing::u32_le_bytes(key.0.len) + key.0.val@
}

/// Serializes a node key into its stable 37-byte binary form.
pub fn get_full_binary_key_id(key: &NodeKey) -> (r: Vec<u8>)
    ensures
        r@ == key_binary_spec(*key),
        r@.len() == 37,
{
    let mut result: Vec<u8> = Vec::new();
    result.push(HISTORY_TREE_NODE_TAG);
    result.push(key.0.len as u8);
    result.push((key.0.len >> 8u32) as u8);
    result.push((key.0.len >> 16u32) as u8);
    result.push((key.0.len >> 24u32) as u8);
    let mut j: usize = 0;
    while j < 32
        invariant
            j <= 32,
            result@.len() == 5 + j,
            result@ =~= seq![HISTORY_TREE_NODE_TAG] + hashing::u32_le_bytes(key.0.len)
                + key.0.val@.take(j as int),
        decreases 32 - j,
    {
        result.push(key.0.val[j]);
        proof {
            assert(result@ =~= seq![HISTORY_TREE_NODE_TAG] + hashing::u32_le_bytes(key.0.len)
                + key.0.val@.take(j + 1));
        }
        j += 1;
    }
    proof {
        assert(key.0.val@.take(32) =~= key.0.val@);
        assert(result@ =~= key_binary_spec(*key));
    }
    result
}

/// The length a 37-byte key encodes, read little endian.
pub open spec fn decoded_len(bin: Seq<u8>) -> int {
    bin[1] + 256 * bin[2] + 65536 * bin[3] + 16777216 * bin[4]
}

/// Deserializes a node key from its binary form. Fails on a short buffer,
/// on a tag of another record type, and on a label length over the label
/// width.
pub fn key_from_full_binary(bin: &[u8]) -> (r: Result<NodeKey, String>)
    ensures
        r is Ok <==> bin@.len() >= 37 && bin@[0] == HISTORY_TREE_NODE_TAG && decoded_len(bin@)
            <= 256,
        r matches Ok(k) ==> {
            &&& k.0.len == decoded_len(bin@)
            &&& k.0.is_canonical()
            &&& forall|i: int|
                0 <= i < k.0.len ==> bit_of(k.0.val@, i) == bit_of(bin@.subrange(5, 37), i)
        },
{
    if bin.len() < 37 {
        return Err("Not enough bytes to form a proper key".to_string());
    }
    if bin[0] != HISTORY_TREE_NODE_TAG {
        return Err("Not a history tree node key".to_string());
    }
    let len: u32 = (bin[1] as u32) + 256 * (bin[2] as u32) + 65536 * (bin[3] as u32) + 16777216
        * (bin[4] as u32);
    proof {
        assert(len as int == decoded_len(bin@));
    }
    if len > 256 {
        return Err("Label length out of range".to_string());
    }
    let mut val: [u8; 32] = [0u8; 32];
    let mut j: usize = 0;
    while j < 32
        invariant
            j <= 32,
            bin@.len() >= 37,
            forall|i: int| 0 <= i < j ==> val@[i] == bin@[5 + i],
        decreases 32 - j,
    {
        val[j] = bin[5 + j];
        j += 1;
    }
    proof {
        assert forall|i: int| 0 <= i < 256 implies bit_of(val@, i) == bit_of(
            bin@.subrange(5, 37),
            i,
        ) by {
            assert(val@[i / 8] == bin@[5 + i / 8]);
            assert(bin@.subrange(5, 37)[i / 8] == bin@[5 + i / 8]);
        }
    }
    let k = NodeKey(NodeLabel::new(val, len));
    proof {
        assert forall|i: int| 0 <= i < k.0.len implies bit_of(k.0.val@, i) == bit_of(
            bin@.subrange(5, 37),
            i,
        ) by {
            assert(bit_of(k.0.val@, i) == bit_of(val@, i));
            assert(bit_of(val@, i) == bit_of(bin@.subrange(5, 37), i));
        }
    }
    Ok(k)
}

// =====================================================
// Free helpers
// =====================================================

/// The hash a child slot contributes to its parent: the child's own hash, or
/// the fixed empty-node constant when the slot is empty.
pub fn optional_child_state_to_hash(input: &Option<HistoryTreeNode>) -> (r: [u8; 32])
    ensures
        r@ == (match input {
            Some(c) => c.hash@,
            None => hashing::empty_node_hash_spec(),
        }),
{
    match input {
        Some(child_state) => child_state.hash,
        None => hashing::empty_node_hash(),
    }
}

/// The label a child slot reports: the child's label, or the empty label
/// when the slot is empty.
pub fn optional_child_state_to_label(input: &Option<NodeLabel>) -> (r: NodeLabel)
    ensures
        r == (match input {
            Some(l) => *l,
            None => r,
        }),
        input is None ==> r.len == 0 && r@ == Seq::<bool>::empty() && r.is_canonical(),
{
    match input {
        Some(label) => *label,
        None => crate::label::empty_label(),
    }
}

/// An empty root node at the given starting epoch; its hash is the
/// empty-node constant.
pub fn get_empty_root(_storage: &InMemoryDatabase, ep: Option<u64>) -> (r: Result<
    HistoryTreeNode,
    AkdError,
>)
    ensures
        r matches Ok(n) ==> {
            &&& n.label@ == Seq::<bool>::empty()
            &&& n.label.is_canonical()
            &&& n.node_type is Root
            &&& n.parent == n.label
            &&& n.left_child is None
            &&& n.right_child is None
            &&& n.hash@ == hashing::empty_node_hash_spec()
            &&& n.birth_epoch == (match ep {
                Some(e) => e,
                None => 0u64,
            })
            &&& n.last_epoch == n.birth_epoch
        },
        r is Ok,
{
    let empty_root_hash = hashing::empty_node_hash();
    let root_label = NodeLabel::root();
    let mut node = HistoryTreeNode::new(
        root_label,
        root_label,
        NodeType::Root,
        0u64,
        None,
        None,
        empty_root_hash,
    );
    if let Some(epoch) = ep {
        node.birth_epoch = epoch;
        node.last_epoch = epoch;
    }
    Ok(node)
}

/// A leaf node carrying the digest of a value, not yet linked to a parent.
pub fn get_leaf_node(
    _storage: &InMemoryDatabase,
    label: NodeLabel,
    value: &[u8; 32],
    parent: NodeLabel,
    birth_epoch: u64,
) -> (r: Result<HistoryTreeNode, AkdError>)
    ensures
        r == Ok::<HistoryTreeNode, AkdError>(HistoryTreeNode {
            label,
            last_epoch: birth_epoch,
            birth_epoch,
            parent,
            node_type: NodeType::Leaf,
            left_child: None,
            right_child: None,
            hash: *value,
        }),
{
    Ok(HistoryTreeNode {
        label,
        birth_epoch,
        last_epoch: birth_epoch,
        parent,
        node_type: NodeType::Leaf,
        left_child: None,
        right_child: None,
        hash: *value,
    })
}

/// A leaf node built from a (label, hash) pair, not yet linked to a parent.
pub fn get_leaf_node_without_hashing(
    _storage: &InMemoryDatabase,
    node: Node,
    parent: NodeLabel,
    birth_epoch: u64,
) -> (r: Result<HistoryTreeNode, AkdError>)
    ensures
        r == Ok::<HistoryTreeNode, AkdError>(HistoryTreeNode {
            label: node.label,
            last_epoch: birth_epoch,
            birth_epoch,
            parent,
            node_type: NodeType::Leaf,
            left_child: None,
            right_child: None,
            hash: node.hash,
        }),
{
    Ok(HistoryTreeNode {
        label: node.label,
        birth_epoch,
        last_epoch: birth_epoch,
        parent,
        node_type: NodeType::Leaf,
        left_child: None,
        right_child: None,
        hash: node.hash,
    })
}

} // verus!
