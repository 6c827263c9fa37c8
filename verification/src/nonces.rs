//! Per-direction nonces: outbound counters that only grow, and inbound
//! validation that rejects any nonce at or below the last accepted one.

use vstd::prelude::*;
use crate::errors::CommunicationError;
use crate::messages::{Nonce, NodeId};

verus! {

/// One direction's record: the peer and the last nonce used or accepted.
#[derive(Clone, Copy, Debug)]
pub struct NonceEntry {
    /// The peer this direction faces.
    pub id: NodeId,
    /// The last nonce used (outbound) or accepted (inbound).
    pub nonce: Nonce,
}

/// The nonces of all directions this node takes part in.
pub struct NonceManager {
    outgoing: Vec<NonceEntry>,
    incoming: Vec<NonceEntry>,
}

impl NonceManager {
    /// The last nonce sent toward each peer.
    pub closed spec fn out_map(&self) -> Map<NodeId, Nonce> {
        Map::new(
            |id: NodeId| exists|i: int| 0 <= i < self.outgoing@.len() && self.outgoing@[i].id == id,
            |id: NodeId|
                self.outgoing@[choose|i: int|
                    0 <= i < self.outgoing@.len() && self.outgoing@[i].id == id].nonce,
        )
    }

    /// The last nonce accepted from each peer.
    pub closed spec fn in_map(&self) -> Map<NodeId, Nonce> {
        Map::new(
            |id: NodeId| exists|i: int| 0 <= i < self.incoming@.len() && self.incoming@[i].id == id,
            |id: NodeId|
                self.incoming@[choose|i: int|
                    0 <= i < self.incoming@.len() && self.incoming@[i].id == id].nonce,
        )
    }

    /// Each direction is recorded once.
    pub closed spec fn inv(&self) -> bool {
        &&& forall|i: int, j: int|
            0 <= i < j < self.outgoing@.len() ==> self.outgoing@[i].id != self.outgoing@[j].id
        &&& forall|i: int, j: int|
            0 <= i < j < self.incoming@.len() ==> self.incoming@[i].id != self.incoming@[j].id
    }

    proof fn lemma_out_at(&self, i: int)
        requires
            self.inv(),
            0 <= i < self.outgoing@.len(),
        ensures
            self.out_map().dom().contains(self.outgoing@[i].id),
            self.out_map()[self.outgoing@[i].id] == self.outgoing@[i].nonce,
    {
        let id = self.outgoing@[i].id;
        assert(exists|j: int| 0 <= j < self.outgoing@.len() && self.outgoing@[j].id == id);
        let j = choose|j: int| 0 <= j < self.outgoing@.len() && self.outgoing@[j].id == id;
        if i < j {
            assert(self.outgoing@[i].id != self.outgoing@[j].id);
        } else if j < i {
            assert(self.outgoing@[j].id != self.outgoing@[i].id);
        }
    }

    proof fn lemma_in_at(&self, i: int)
        requires
            self.inv(),
            0 <= i < self.incoming@.len(),
        ensures
            self.in_map().dom().contains(self.incoming@[i].id),
            self.in_map()[self.incoming@[i].id] == self.incoming@[i].nonce,
    {
        let id = self.incoming@[i].id;
        assert(exists|j: int| 0 <= j < self.incoming@.len() && self.incoming@[j].id == id);
        let j = choose|j: int| 0 <= j < self.incoming@.len() && self.incoming@[j].id == id;
        if i < j {
            assert(self.incoming@[i].id != self.incoming@[j].id);
        } else if j < i {
            assert(self.incoming@[j].id != self.incoming@[i].id);
        }
    }

    /// A manager with no direction yet recorded.
    pub fn new() -> (r: NonceManager)
        ensures
            r.inv(),
            r.out_map() == Map::<NodeId, Nonce>::empty(),
            r.in_map() == Map::<NodeId, Nonce>::empty(),
    {
        let r = NonceManager { outgoing: Vec::new(), incoming: Vec::new() };
        proof {
            assert(r.out_map() =~= Map::<NodeId, Nonce>::empty());
            assert(r.in_map() =~= Map::<NodeId, Nonce>::empty());
        }
        r
    }

    /// The next nonce to use toward `to`: strictly above every nonce this
    /// node has used toward `to` before, starting at one; once the counter
    /// is exhausted it stays at its maximum.
    pub fn get_next_outgoing_nonce(&mut self, to: NodeId) -> (n: Nonce)
        requires
            old(self).inv(),
        ensures
            final(self).inv(),
            final(self).in_map() == old(self).in_map(),
            n == (if old(self).out_map().dom().contains(to) {
                if old(self).out_map()[to] < Nonce::MAX {
                    (old(self).out_map()[to] + 1) as Nonce
                } else {
                    Nonce::MAX
                }
            } else {
                1u128
            }),
            final(self).out_map() == old(self).out_map().insert(to, n),
    {
        let ghost pre = *self;
        let mut i: usize = 0;
        while i < self.outgoing.len()
            invariant
                *self == pre,
                pre == *old(self),
                pre.inv(),
                i <= self.outgoing@.len(),
                forall|j: int| 0 <= j < i ==> self.outgoing@[j].id != to,
            decreases self.outgoing@.len() - i,
        {
            if self.outgoing[i].id == to {
                let prev = self.outgoing[i].nonce;
                let n: Nonce = if prev < Nonce::MAX {
                    prev + 1
                } else {
                    Nonce::MAX
                };
                proof {
                    pre.lemma_out_at(i as int);
                }
                self.outgoing.set(i, NonceEntry { id: to, nonce: n });
                proof {
                    assert forall|a: int, b: int|
                        0 <= a < b < self.outgoing@.len() implies self.outgoing@[a].id
                        != self.outgoing@[b].id by {
                        assert(pre.outgoing@[a].id != pre.outgoing@[b].id);
                    }
                    assert forall|id2: NodeId| true implies (exists|j: int|
                        0 <= j < self.outgoing@.len() && self.outgoing@[j].id == id2) == (id2 == to
                        || pre.out_map().dom().contains(id2)) by {
                        if exists|j: int|
                            0 <= j < self.outgoing@.len() && self.outgoing@[j].id == id2 {
                            let j = choose|j: int|
                                0 <= j < self.outgoing@.len() && self.outgoing@[j].id == id2;
                            if j != i as int {
                                pre.lemma_out_at(j);
                            }
                        }
                        if id2 == to {
                            assert(self.outgoing@[i as int].id == to);
                        }
                        if pre.out_map().dom().contains(id2) {
                            let j = choose|j: int|
                                0 <= j < pre.outgoing@.len() && pre.outgoing@[j].id == id2;
                            assert(self.outgoing@[j].id == id2 || j == i as int);
                            if j == i as int && id2 != to {
                                assert(pre.outgoing@[j].id == to);
                            }
                        }
                    }
                    assert forall|id2: NodeId| #[trigger]
                        self.out_map().dom().contains(id2) implies self.out_map()[id2]
                        == pre.out_map().insert(to, n)[id2] by {
                        let j = choose|j: int|
                            0 <= j < self.outgoing@.len() && self.outgoing@[j].id == id2;
                        self.lemma_out_at(j);
                        if id2 == to {
                            assert(j == i as int) by {
                                if j != i as int {
                                    assert(pre.outgoing@[j].id == to);
                                    assert(pre.outgoing@[i as int].id == to);
                                }
                            }
                        } else {
                            assert(j != i as int);
                            pre.lemma_out_at(j);
                        }
                    }
                    assert(self.out_map() =~= pre.out_map().insert(to, n));
                    assert(self.in_map() =~= pre.in_map());
                }
                return n;
            }
            i += 1;
        }
        proof {
            if pre.out_map().dom().contains(to) {
                let j = choose|j: int| 0 <= j < pre.outgoing@.len() && pre.outgoing@[j].id == to;
                assert(pre.outgoing@[j].id == to);
                assert(false);
            }
        }
        self.outgoing.push(NonceEntry { id: to, nonce: 1 });
        proof {
            let n = self.outgoing@.len() as int - 1;
            assert forall|a: int, b: int|
                0 <= a < b < self.outgoing@.len() implies self.outgoing@[a].id
                != self.outgoing@[b].id by {
                if b < n {
                    assert(pre.outgoing@[a].id != pre.outgoing@[b].id);
                } else {
                    assert(self.outgoing@[b].id == to);
                    if self.outgoing@[a].id == to {
                        assert(pre.outgoing@[a].id == to);
                    }
                }
            }
            assert forall|id2: NodeId| true implies (exists|j: int|
                0 <= j < self.outgoing@.len() && self.outgoing@[j].id == id2) == (id2 == to
                || pre.out_map().dom().contains(id2)) by {
                if exists|j: int| 0 <= j < self.outgoing@.len() && self.outgoing@[j].id == id2 {
                    let j = choose|j: int|
                        0 <= j < self.outgoing@.len() && self.outgoing@[j].id == id2;
                    if j < n {
                        pre.lemma_out_at(j);
                    }
                }
                if id2 == to {
                    assert(self.outgoing@[n].id == to);
                }
                if pre.out_map().dom().contains(id2) {
                    let j = choose|j: int|
                        0 <= j < pre.outgoing@.len() && pre.outgoing@[j].id == id2;
                    assert(self.outgoing@[j].id == id2);
                }
            }
            assert forall|id2: NodeId| #[trigger]
                self.out_map().dom().contains(id2) implies self.out_map()[id2]
                == pre.out_map().insert(to, 1u128)[id2] by {
                let j = choose|j: int| 0 <= j < self.outgoing@.len() && self.outgoing@[j].id == id2;
                self.lemma_out_at(j);
                if id2 == to {
                    assert(j == n) by {
                        if j != n {
                            assert(pre.outgoing@[j].id == to);
                        }
                    }
                } else {
                    assert(j < n);
                    pre.lemma_out_at(j);
                }
            }
            assert(self.out_map() =~= pre.out_map().insert(to, 1u128));
            assert(self.in_map() =~= pre.in_map());
        }
        1
    }

    /// Accepts an inbound nonce exactly when it is strictly above the last
    /// nonce accepted from that sender; a replayed or reordered nonce is
    /// rejected and leaves the record unchanged.
    pub fn validate_nonce(&mut self, from: NodeId, nonce: Nonce) -> (r: Result<
        (),
        CommunicationError,
    >)
        requires
            old(self).inv(),
        ensures
            final(self).inv(),
            final(self).out_map() == old(self).out_map(),
            r is Ok <==> (!old(self).in_map().dom().contains(from) || old(self).in_map()[from]
                < nonce),
            r is Ok ==> final(self).in_map() == old(self).in_map().insert(from, nonce),
            r is Err ==> *final(self) == *old(self) && (r matches Err(
                CommunicationError::NonceError(last, got, _),
            ) && last == old(self).in_map()[from] && got == nonce),
    {
        let ghost pre = *self;
        let mut i: usize = 0;
        while i < self.incoming.len()
            invariant
                *self == pre,
                pre == *old(self),
                pre.inv(),
                i <= self.incoming@.len(),
                forall|j: int| 0 <= j < i ==> self.incoming@[j].id != from,
            decreases self.incoming@.len() - i,
        {
            if self.incoming[i].id == from {
                let prev = self.incoming[i].nonce;
                proof {
                    pre.lemma_in_at(i as int);
                }
                if nonce <= prev {
                    return Err(CommunicationError::NonceError(
                        prev,
                        nonce,
                        "nonce did not advance past the last accepted nonce".to_string(),
                    ));
                }
                self.incoming.set(i, NonceEntry { id: from, nonce });
                proof {
                    assert forall|a: int, b: int|
                        0 <= a < b < self.incoming@.len() implies self.incoming@[a].id
                        != self.incoming@[b].id by {
                        assert(pre.incoming@[a].id != pre.incoming@[b].id);
                    }
                    assert forall|id2: NodeId| true implies (exists|j: int|
                        0 <= j < self.incoming@.len() && self.incoming@[j].id == id2) == (id2
                        == from || pre.in_map().dom().contains(id2)) by {
                        if exists|j: int|
                            0 <= j < self.incoming@.len() && self.incoming@[j].id == id2 {
                            let j = choose|j: int|
                                0 <= j < self.incoming@.len() && self.incoming@[j].id == id2;
                            if j != i as int {
                                pre.lemma_in_at(j);
                            }
                        }
                        if id2 == from {
                            assert(self.incoming@[i as int].id == from);
                        }
                        if pre.in_map().dom().contains(id2) {
                            let j = choose|j: int|
                                0 <= j < pre.incoming@.len() && pre.incoming@[j].id == id2;
                            assert(self.incoming@[j].id == id2 || j == i as int);
                            if j == i as int && id2 != from {
                                assert(pre.incoming@[j].id == from);
                            }
                        }
                    }
                    assert forall|id2: NodeId| #[trigger]
                        self.in_map().dom().contains(id2) implies self.in_map()[id2]
                        == pre.in_map().insert(from, nonce)[id2] by {
                        let j = choose|j: int|
                            0 <= j < self.incoming@.len() && self.incoming@[j].id == id2;
                        self.lemma_in_at(j);
                        if id2 == from {
                            assert(j == i as int) by {
                                if j != i as int {
                                    assert(pre.incoming@[j].id == from);
                                    assert(pre.incoming@[i as int].id == from);
                                }
                            }
                        } else {
                            assert(j != i as int);
                            pre.lemma_in_at(j);
                        }
                    }
                    assert(self.in_map() =~= pre.in_map().insert(from, nonce));
                    assert(self.out_map() =~= pre.out_map());
                }
                return Ok(());
            }
            i += 1;
        }
        proof {
            if pre.in_map().dom().contains(from) {
                let j = choose|j: int| 0 <= j < pre.incoming@.len() && pre.incoming@[j].id == from;
                assert(pre.incoming@[j].id == from);
                assert(false);
            }
        }
        self.incoming.push(NonceEntry { id: from, nonce });
        proof {
            let n = self.incoming@.len() as int - 1;
            assert forall|a: int, b: int|
                0 <= a < b < self.incoming@.len() implies self.incoming@[a].id
                != self.incoming@[b].id by {
                if b < n {
                    assert(pre.incoming@[a].id != pre.incoming@[b].id);
                } else {
                    assert(self.incoming@[b].id == from);
                    if self.incoming@[a].id == from {
                        assert(pre.incoming@[a].id == from);
                    }
                }
            }
            assert forall|id2: NodeId| true implies (exists|j: int|
                0 <= j < self.incoming@.len() && self.incoming@[j].id == id2) == (id2 == from
                || pre.in_map().dom().contains(id2)) by {
                if exists|j: int| 0 <= j < self.incoming@.len() && self.incoming@[j].id == id2 {
                    let j = choose|j: int|
                        0 <= j < self.incoming@.len() && self.incoming@[j].id == id2;
                    if j < n {
                        pre.lemma_in_at(j);
                    }
                }
                if id2 == from {
                    assert(self.incoming@[n].id == from);
                }
                if pre.in_map().dom().contains(id2) {
                    let j = choose|j: int|
                        0 <= j < pre.incoming@.len() && pre.incoming@[j].id == id2;
                    assert(self.incoming@[j].id == id2);
                }
            }
            assert forall|id2: NodeId| #[trigger]
                self.in_map().dom().contains(id2) implies self.in_map()[id2]
                == pre.in_map().insert(from, nonce)[id2] by {
                let j = choose|j: int| 0 <= j < self.incoming@.len() && self.incoming@[j].id == id2;
                self.lemma_in_at(j);
                if id2 == from {
                    assert(j == n) by {
                        if j != n {
                            assert(pre.incoming@[j].id == from);
                        }
                    }
                } else {
                    assert(j < n);
                    pre.lemma_in_at(j);
                }
            }
            assert(self.in_map() =~= pre.in_map().insert(from, nonce));
            assert(self.out_map() =~= pre.out_map());
        }
        Ok(())
    }
}

} // verus!
