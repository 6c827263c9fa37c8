//! The node store: a mapping from node keys to persisted node records, with
//! an index of the epochs at which each label was written, answering
//! largest-epoch-at-most queries.

use vstd::prelude::*;
use crate::errors::StorageError;
use crate::history_tree_node::{HistoryTreeNode, NodeKey};
use crate::label::NodeLabel;

verus! {

/// One entry of the write index: a label and the epoch stamped on the record
/// that was written under it.
#[derive(Clone, Copy, Debug)]
pub struct EpochRecord {
    /// The label that was written.
    pub label: NodeLabel,
    /// The `last_epoch` of the record at the time of the write.
    pub epoch: u64,
}

/// An in-memory node store; the byte-level backend the directory would run
/// against answers the same contract.
pub struct InMemoryDatabase {
    nodes: Vec<HistoryTreeNode>,
    writes: Vec<EpochRecord>,
}

/// The largest epoch at most `e` at which `k` appears in the write log.
pub open spec fn max_epoch_lte(log: Seq<EpochRecord>, k: Seq<bool>, e: u64) -> Option<u64>
    decreases log.len(),
{
    if log.len() == 0 {
        None
    } else {
        let rest = max_epoch_lte(log.drop_last(), k, e);
        let last = log.last();
        if last.label@ == k && last.epoch <= e && (rest is None || rest.unwrap() <= last.epoch) {
            Some(last.epoch)
        } else {
            rest
        }
    }
}

impl InMemoryDatabase {
    /// Whether some stored record has the given bit sequence as its label.
    pub closed spec fn dom_has(&self, k: Seq<bool>) -> bool {
        exists|i: int| 0 <= i < self.nodes@.len() && self.nodes@[i].label@ == k
    }

    /// The index of the record with the given label.
    pub closed spec fn idx_of(&self, k: Seq<bool>) -> int {
        choose|i: int| 0 <= i < self.nodes@.len() && self.nodes@[i].label@ == k
    }

    /// The store seen as a mapping from label bits to node records.
    pub closed spec fn contents(&self) -> Map<Seq<bool>, HistoryTreeNode> {
        Map::new(|k: Seq<bool>| self.dom_has(k), |k: Seq<bool>| self.nodes@[self.idx_of(k)])
    }

    /// The write log, oldest first.
    pub closed spec fn write_log(&self) -> Seq<EpochRecord> {
        self.writes@
    }

    /// Well-formedness: stored labels are canonical and pairwise distinct,
    /// and logged labels are canonical.
    pub closed spec fn inv(&self) -> bool {
        &&& forall|i: int|
            0 <= i < self.nodes@.len() ==> (#[trigger] self.nodes@[i]).label.is_canonical()
        &&& forall|i: int, j: int|
            0 <= i < j < self.nodes@.len() ==> self.nodes@[i].label@ != self.nodes@[j].label@
        &&& forall|i: int|
            0 <= i < self.writes@.len() ==> (#[trigger] self.writes@[i]).label.is_canonical()
    }

    proof fn lemma_unique_idx(&self, k: Seq<bool>)
        requires
            self.inv(),
            self.dom_has(k),
        ensures
            0 <= self.idx_of(k) < self.nodes@.len(),
            self.nodes@[self.idx_of(k)].label@ == k,
            forall|j: int|
                0 <= j < self.nodes@.len() && self.nodes@[j].label@ == k ==> j == self.idx_of(k),
    {
        let i = self.idx_of(k);
        assert(0 <= i < self.nodes@.len() && self.nodes@[i].label@ == k);
        assert forall|j: int|
            0 <= j < self.nodes@.len() && self.nodes@[j].label@ == k implies j == i by {
            if j < i {
                assert(self.nodes@[j].label@ != self.nodes@[i].label@);
            } else if i < j {
                assert(self.nodes@[i].label@ != self.nodes@[j].label@);
            }
        }
    }

    /// An empty store.
    pub fn new() -> (r: InMemoryDatabase)
        ensures
            r.inv(),
            r.contents() == Map::<Seq<bool>, HistoryTreeNode>::empty(),
            r.write_log() == Seq::<EpochRecord>::empty(),
    {
        let r = InMemoryDatabase { nodes: Vec::new(), writes: Vec::new() };
        proof {
            assert(r.contents() =~= Map::<Seq<bool>, HistoryTreeNode>::empty());
        }
        r
    }

    /// Finds the index of the record with the given label, if any.
    fn find(&self, label: &NodeLabel) -> (r: Option<usize>)
        requires
            self.inv(),
            label.is_canonical(),
        ensures
            match r {
                Some(i) => i < self.nodes@.len() && self.nodes@[i as int].label@ == label@
                    && self.dom_has(label@),
                None => !self.dom_has(label@),
            },
    {
        let mut i: usize = 0;
        while i < self.nodes.len()
            invariant
                self.inv(),
                label.is_canonical(),
                i <= self.nodes@.len(),
                forall|j: int| 0 <= j < i ==> self.nodes@[j].label@ != label@,
            decreases self.nodes@.len() - i,
        {
            if self.nodes[i].label.label_eq(label) {
                proof {
                    lemma_view_eq_of_equal_material(self.nodes@[i as int].label, *label);
                }
                return Some(i);
            }
            proof {
                if self.nodes@[i as int].label@ == label@ {
                    crate::label::lemma_canonical_label_eq(self.nodes@[i as int].label, *label);
                }
            }
            i += 1;
        }
        None
    }

    /// Reads the record stored under the key, or reports that none is.
    pub fn get(&self, key: &NodeKey) -> (r: Result<HistoryTreeNode, StorageError>)
        requires
            self.inv(),
            key.0.is_canonical(),
        ensures
            match r {
                Ok(n) => self.contents().dom().contains(key.0@) && n == self.contents()[key.0@],
                Err(e) => !self.contents().dom().contains(key.0@) && e is NotFound,
            },
    {
        match self.find(&key.0) {
            Some(i) => {
                proof {
                    self.lemma_unique_idx(key.0@);
                }
                Ok(self.nodes[i].clone())
            },
            None => Err(StorageError::NotFound("no node under this key".to_string())),
        }
    }

    /// Writes the record under its own label, replacing any record already
    /// there, and appends the write to the epoch index.
    pub fn set(&mut self, node: HistoryTreeNode) -> (r: Result<(), StorageError>)
        requires
            old(self).inv(),
            node.label.is_canonical(),
        ensures
            final(self).inv(),
            r is Ok,
            final(self).contents() == old(self).contents().insert(node.label@, node),
            final(self).write_log() == old(self).write_log().push(
                EpochRecord { label: node.label, epoch: node.last_epoch },
            ),
    {
        let ghost pre = *self;
        let found = self.find(&node.label);
        match found {
            Some(i) => {
                proof {
                    self.lemma_unique_idx(node.label@);
                }
                self.nodes.set(i, node);
                proof {
                    assert forall|a: int, b: int|
                        0 <= a < b < self.nodes@.len() implies self.nodes@[a].label@
                        != self.nodes@[b].label@ by {
                        assert(pre.nodes@[a].label@ != pre.nodes@[b].label@);
                    }
                    assert forall|k: Seq<bool>| true implies self.dom_has(k) == (k == node.label@
                        || pre.dom_has(k)) by {
                        if self.dom_has(k) {
                            let j = choose|j: int|
                                0 <= j < self.nodes@.len() && self.nodes@[j].label@ == k;
                            if j == i {
                            } else {
                                assert(pre.nodes@[j].label@ == k);
                            }
                        }
                        if k == node.label@ {
                            assert(self.nodes@[i as int].label@ == k);
                        }
                        if pre.dom_has(k) {
                            let j = choose|j: int|
                                0 <= j < pre.nodes@.len() && pre.nodes@[j].label@ == k;
                            if j == i {
                                assert(self.nodes@[i as int].label@ == node.label@);
                            } else {
                                assert(self.nodes@[j].label@ == k);
                            }
                        }
                    }
                    assert forall|k: Seq<bool>| self.dom_has(k) implies self.nodes@[self.idx_of(k)]
                        == pre.contents().insert(node.label@, node)[k] by {
                        self.lemma_unique_idx(k);
                        let j = self.idx_of(k);
                        if k == node.label@ {
                            assert(j == i) by {
                                assert(self.nodes@[i as int].label@ == node.label@);
                            }
                        } else {
                            assert(j != i);
                            assert(pre.nodes@[j].label@ == k);
                            pre.lemma_unique_idx(k);
                        }
                    }
                    assert(self.contents() =~= pre.contents().insert(node.label@, node));
                }
            },
            None => {
                self.nodes.push(node);
                proof {
                    let n = pre.nodes@.len() as int;
                    assert forall|a: int, b: int|
                        0 <= a < b < self.nodes@.len() implies self.nodes@[a].label@
                        != self.nodes@[b].label@ by {
                        if b < n {
                            assert(pre.nodes@[a].label@ != pre.nodes@[b].label@);
                        } else {
                            assert(self.nodes@[b] == node);
                            assert(pre.nodes@[a].label@ == self.nodes@[a].label@);
                            assert(!pre.dom_has(node.label@));
                        }
                    }
                    assert forall|k: Seq<bool>| true implies self.dom_has(k) == (k == node.label@
                        || pre.dom_has(k)) by {
                        if self.dom_has(k) {
                            let j = choose|j: int|
                                0 <= j < self.nodes@.len() && self.nodes@[j].label@ == k;
                            if j < n {
                                assert(pre.nodes@[j].label@ == k);
                            }
                        }
                        if k == node.label@ {
                            assert(self.nodes@[n].label@ == k);
                        }
                        if pre.dom_has(k) {
                            let j = choose|j: int|
                                0 <= j < pre.nodes@.len() && pre.nodes@[j].label@ == k;
                            assert(self.nodes@[j].label@ == k);
                        }
                    }
                    assert forall|k: Seq<bool>| self.dom_has(k) implies self.nodes@[self.idx_of(k)]
                        == pre.contents().insert(node.label@, node)[k] by {
                        self.lemma_unique_idx(k);
                        let j = self.idx_of(k);
                        if k == node.label@ {
                            assert(j == n) by {
                                assert(self.nodes@[n].label@ == node.label@);
                            }
                        } else {
                            assert(j < n);
                            pre.lemma_unique_idx(k);
                        }
                    }
                    assert(self.contents() =~= pre.contents().insert(node.label@, node));
                }
            },
        }
        self.writes.push(EpochRecord { label: node.label, epoch: node.last_epoch });
        Ok(())
    }

    /// The largest epoch at most `epoch` at which the label was written, per
    /// the write index.
    pub fn get_epoch_lte_epoch(&self, label: NodeLabel, epoch: u64) -> (r: Result<u64, StorageError>)
        requires
            self.inv(),
            label.is_canonical(),
        ensures
            match r {
                Ok(e) => max_epoch_lte(self.write_log(), label@, epoch) == Some(e),
                Err(e) => max_epoch_lte(self.write_log(), label@, epoch) is None && e is NotFound,
            },
    {
        let mut best: Option<u64> = None;
        let mut i: usize = 0;
        while i < self.writes.len()
            invariant
                self.inv(),
                label.is_canonical(),
                i <= self.writes@.len(),
                best == max_epoch_lte(self.writes@.take(i as int), label@, epoch),
            decreases self.writes@.len() - i,
        {
            let rec = self.writes[i];
            let ghost prefix = self.writes@.take(i as int);
            proof {
                assert(self.writes@.take(i + 1).drop_last() =~= prefix);
                assert(self.writes@.take(i + 1).last() == self.writes@[i as int]);
            }
            if rec.label.label_eq(&label) && rec.epoch <= epoch {
                proof {
                    lemma_view_eq_of_equal_material(rec.label, label);
                }
                let keep = match best {
                    Some(b) => b <= rec.epoch,
                    None => true,
                };
                if keep {
                    best = Some(rec.epoch);
                }
            } else {
                proof {
                    if rec.label@ == label@ {
                        crate::label::lemma_canonical_label_eq(rec.label, label);
                    }
                }
            }
            i += 1;
        }
        proof {
            assert(self.writes@.take(self.writes@.len() as int) =~= self.writes@);
        }
        match best {
            Some(e) => Ok(e),
            None => Err(StorageError::NotFound("label never written at or before epoch".to_string())),
        }
    }
}

/// Labels with the same stored material denote the same bits.
pub proof fn lemma_view_eq_of_equal_material(a: NodeLabel, b: NodeLabel)
    requires
        a.len == b.len,
        a.val@ == b.val@,
    ensures
        a@ == b@,
{
    assert(a@ =~= b@);
}

} // verus!
