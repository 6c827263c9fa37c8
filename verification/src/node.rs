//! The quorum node: its configuration, its status and the state it carries,
//! the timer that bounds every distributed operation, and the decision logic
//! of each message handler. The runtime around the node performs network,
//! storage and cryptographic work and hands the outcomes back in.

use vstd::prelude::*;
use crate::errors::CommunicationError;
use crate::messages::{
    AddNodeInit, AddNodeResult, AddNodeTestResult, EnrollMemberRequest, InterNodeAck,
    InterNodeMessage, MemberInformation, Message, NewNodeTest, NewNodeTestResult, NodeId,
    NodeMessage, Nonce, PublicNodeMessage, RemoveMemberRequest, RemoveNodeInit,
    RemoveNodeResult, RemoveNodeTestResult, VerifyChangesRequest, VerifyRequest, VerifyResponse,
};
use crate::nonces::NonceManager;
use itertools::Itertools;

verus! {

/// The size of the membership (presently).
pub type GroupSize = u8;

/// The base reception timeout; each node adds its own jitter.
pub const NODE_MESSAGE_RECEPTION_TIMEOUT_MS: u64 = 1000;

/// How far above the base timeout the per-node jitter may reach.
pub const RECEPTION_TIMEOUT_JITTER_MS: u64 = 200;

/// How long a distributed operation may run before its node gives up.
pub const DISTRIBUTED_PROCESSING_TIMEOUT_MS: u64 = 60 * 10 * 1000;

/// How many messages the backlog holds at most; past the bound the newest
/// message is dropped rather than queued.
pub const MESSAGE_QUEUE_CAPACITY: usize = 25;

/// The backlog after deferring one message: the message joins the tail while
/// the backlog is below its bound, and is dropped otherwise.
pub open spec fn spec_backlog(q: Seq<NodeMessage>, m: NodeMessage) -> Seq<NodeMessage> {
    if q.len() < MESSAGE_QUEUE_CAPACITY {
        q.push(m)
    } else {
        q
    }
}

/// Relies on rand's random_range: a value below the bound; nothing else
/// holds of any one draw.
#[verifier::external_body]
fn random_below(bound: u64) -> (r: u64)
    requires
        bound > 0,
    ensures
        r < bound,
{
    rand::random_range(0..bound)
}

/// This node's reception timeout: the base plus a per-node random jitter,
/// so that the quorum's ticks do not phase-lock.
pub fn get_this_reception_timeout_ms() -> (r: u64)
    ensures
        NODE_MESSAGE_RECEPTION_TIMEOUT_MS <= r < NODE_MESSAGE_RECEPTION_TIMEOUT_MS
            + RECEPTION_TIMEOUT_JITTER_MS,
{
    NODE_MESSAGE_RECEPTION_TIMEOUT_MS + random_below(RECEPTION_TIMEOUT_JITTER_MS)
}

/// The milliseconds from `since` to `now`, zero when `since` is ahead.
pub open spec fn elapsed_ms(now: u64, since: u64) -> u64 {
    if now >= since {
        (now - since) as u64
    } else {
        0u64
    }
}

fn elapsed(now: u64, since: u64) -> (r: u64)
    ensures
        r == elapsed_ms(now, since),
{
    if now >= since {
        now - since
    } else {
        0
    }
}

// =====================================================
// Configuration
// =====================================================

/// The quorum configuration.
#[derive(Clone, Copy, Debug, PartialEq)]
pub struct Config {
    /// This node's identifier, dense in `[0, group_size)`.
    pub node_id: NodeId,
    /// The group size of the quorum membership; zero means the quorum is
    /// disabled and every public operation is a no-op.
    pub group_size: GroupSize,
}

impl Config {
    /// A disabled pool.
    pub fn disabled() -> (r: Self)
        ensures
            r.group_size == 0,
            r.node_id == 0,
    {
        Self { group_size: 0, node_id: 0 }
    }

    /// Is this quorum disabled?
    pub fn is_disabled(&self) -> (r: bool)
        ensures
            r == (self.group_size == 0),
    {
        self.group_size == 0
    }
}

// =====================================================
// Statuses
// =====================================================

/// The leader-side statuses, each carrying when the operation started, its
/// request, and what has been collected so far.
#[derive(Clone, Debug, PartialEq)]
pub enum LeaderState {
    /// Collecting verification verdicts for an epoch.
    ProcessingVerification(u64, VerifyRequest, Vec<(NodeId, Option<VerifyResponse>)>),
    /// Collecting candidate-test verdicts for an addition.
    ProcessingAddition(u64, AddNodeInit, Vec<(NodeId, Option<AddNodeTestResult>)>),
    /// Distributing new shards for an addition; the map holds the members
    /// whose acknowledgement is still outstanding, with their shards.
    AddingMember(u64, AddNodeInit, Vec<(NodeId, Vec<u8>)>),
    /// Collecting member-test verdicts for a removal.
    ProcessingRemoval(u64, RemoveNodeInit, Vec<(NodeId, Option<RemoveNodeTestResult>)>),
    /// Distributing new shards for a removal; the map holds the members
    /// whose acknowledgement is still outstanding, with their shards.
    RemovingMember(u64, NodeId, Vec<(NodeId, Vec<u8>)>),
}

/// The follower-side statuses.
#[derive(Clone, Debug, PartialEq)]
pub enum WorkerState {
    /// Auditing an epoch's change for a leader.
    Verifying(NodeId, VerifyRequest),
    /// Challenging a candidate, remembering whether its test should pass.
    TestingAddMember(u64, NodeId, AddNodeInit, bool),
    /// Waiting on the leader to distribute shards after an addition.
    WaitingOnMemberAddResult(u64, AddNodeInit),
    /// Challenging a member under removal, remembering whether its test
    /// should pass.
    TestingRemoveMember(u64, NodeId, RemoveNodeInit, bool),
    /// Waiting on the leader to distribute shards after a removal.
    WaitingOnMemberRemoveResult(u64, RemoveNodeInit),
}

/// A node is ready, leading one operation, or following one.
#[derive(Clone, Debug, PartialEq)]
pub enum NodeStatus {
    /// No operation in flight.
    Ready,
    /// Leading an operation.
    Leading(LeaderState),
    /// Following an operation.
    Following(WorkerState),
}

/// When the current operation started, for the statuses the timer bounds.
pub open spec fn status_started_at(status: NodeStatus) -> Option<u64> {
    match status {
        NodeStatus::Ready => None,
        NodeStatus::Leading(l) => match l {
            LeaderState::ProcessingVerification(t, _, _) => Some(t),
            LeaderState::ProcessingAddition(t, _, _) => Some(t),
            LeaderState::AddingMember(t, _, _) => Some(t),
            LeaderState::ProcessingRemoval(t, _, _) => Some(t),
            LeaderState::RemovingMember(t, _, _) => Some(t),
        },
        NodeStatus::Following(w) => match w {
            WorkerState::Verifying(_, _) => None,
            WorkerState::TestingAddMember(t, _, _, _) => Some(t),
            WorkerState::WaitingOnMemberAddResult(t, _) => Some(t),
            WorkerState::TestingRemoveMember(t, _, _, _) => Some(t),
            WorkerState::WaitingOnMemberRemoveResult(t, _) => Some(t),
        },
    }
}

/// Whether the timer forces the status back to ready at `now`.
pub open spec fn spec_timed_out(status: NodeStatus, now_ms: u64) -> bool {
    match status_started_at(status) {
        Some(t) => elapsed_ms(now_ms, t) >= DISTRIBUTED_PROCESSING_TIMEOUT_MS,
        None => false,
    }
}

/// A leading node whose operation has run for the distributed-processing
/// timeout is forced back to ready by the next tick, whether or not any
/// message arrives.
pub proof fn lemma_leading_times_out(status: NodeStatus, now_ms: u64)
    requires
        status is Leading,
        elapsed_ms(now_ms, status_started_at(status).unwrap())
            >= DISTRIBUTED_PROCESSING_TIMEOUT_MS,
    ensures
        spec_timed_out(status, now_ms),
{
}

// =====================================================
// Response maps
// =====================================================

/// Each node answers at most once in a collection map.
pub open spec fn distinct_keys<T>(m: Seq<(NodeId, Option<T>)>) -> bool {
    forall|i: int, j: int| 0 <= i < j < m.len() ==> m[i].0 != m[j].0
}

/// Records one node's answer, replacing any the node gave before.
pub fn insert_response<T>(map: &mut Vec<(NodeId, Option<T>)>, from: NodeId, value: Option<T>)
    requires
        distinct_keys(old(map)@),
    ensures
        distinct_keys(final(map)@),
        final(map)@ == spec_insert_response(old(map)@, from, value),
        final(map)@.len() >= old(map)@.len(),
{
    let ghost pre = map@;
    let mut i: usize = 0;
    let mut found: Option<usize> = None;
    while i < map.len()
        invariant
            map@ == pre,
            i <= pre.len(),
            match found {
                Some(j) => j < i && pre[j as int].0 == from,
                None => forall|j: int| 0 <= j < i ==> pre[j].0 != from,
            },
        decreases pre.len() - i,
    {
        if found.is_none() && map[i].0 == from {
            found = Some(i);
        }
        i += 1;
    }
    match found {
        Some(j) => {
            map.set(j, (from, value));
            proof {
                let jj = choose|j2: int| 0 <= j2 < pre.len() && pre[j2].0 == from;
                assert(jj == j as int) by {
                    if jj < j as int {
                        assert(pre[jj].0 != pre[j as int].0);
                    } else if (j as int) < jj {
                        assert(pre[j as int].0 != pre[jj].0);
                    }
                }
                assert forall|a: int, b: int| 0 <= a < b < map@.len() implies map@[a].0
                    != map@[b].0 by {
                    assert(pre[a].0 != pre[b].0);
                }
            }
        },
        None => {
            map.push((from, value));
            proof {
                if exists|j2: int| 0 <= j2 < pre.len() && pre[j2].0 == from {
                    let jj = choose|j2: int| 0 <= j2 < pre.len() && pre[j2].0 == from;
                    assert(pre[jj].0 != from);
                }
                assert forall|a: int, b: int| 0 <= a < b < map@.len() implies map@[a].0
                    != map@[b].0 by {
                    if b < pre.len() {
                        assert(pre[a].0 != pre[b].0);
                    } else {
                        assert(map@[b].0 == from);
                        assert(pre[a].0 != from);
                    }
                }
            }
        },
    }
}

/// The byte strings of a sequence of byte vectors.
pub open spec fn views_of(s: Seq<Vec<u8>>) -> Seq<Seq<u8>> {
    Seq::new(s.len(), |i: int| s[i]@)
}

/// The shards of the verification verdicts that approve: one entry per
/// response that came back and carried a shard.
pub open spec fn verify_positive_shards(m: Seq<(NodeId, Option<VerifyResponse>)>) -> Seq<Seq<u8>>
    decreases m.len(),
{
    if m.len() == 0 {
        Seq::empty()
    } else {
        let rest = verify_positive_shards(m.drop_last());
        match m.last().1 {
            Some(resp) => match resp.encrypted_quorum_key_shard {
                Some(s) => rest.push(s@),
                None => rest,
            },
            None => rest,
        }
    }
}

/// The shards of the addition verdicts that approve.
pub open spec fn add_positive_shards(m: Seq<(NodeId, Option<AddNodeTestResult>)>) -> Seq<Seq<u8>>
    decreases m.len(),
{
    if m.len() == 0 {
        Seq::empty()
    } else {
        let rest = add_positive_shards(m.drop_last());
        match m.last().1 {
            Some(resp) => match resp.encrypted_quorum_key_shard {
                Some(s) => rest.push(s@),
                None => rest,
            },
            None => rest,
        }
    }
}

/// The shards of the removal verdicts that approve.
pub open spec fn remove_positive_shards(m: Seq<(NodeId, Option<RemoveNodeTestResult>)>) -> Seq<Seq<u8>>
    decreases m.len(),
{
    if m.len() == 0 {
        Seq::empty()
    } else {
        let rest = remove_positive_shards(m.drop_last());
        match m.last().1 {
            Some(resp) => match resp.encrypted_quorum_key_shard {
                Some(s) => rest.push(s@),
                None => rest,
            },
            None => rest,
        }
    }
}

fn collect_verify_positive_shards(map: &Vec<(NodeId, Option<VerifyResponse>)>) -> (r: Vec<
    Vec<u8>,
>)
    ensures
        views_of(r@) == verify_positive_shards(map@),
{
    let mut out: Vec<Vec<u8>> = Vec::new();
    let mut i: usize = 0;
    while i < map.len()
        invariant
            i <= map@.len(),
            views_of(out@) == verify_positive_shards(map@.take(i as int)),
        decreases map@.len() - i,
    {
        proof {
            assert(map@.take(i + 1).drop_last() =~= map@.take(i as int));
            assert(map@.take(i + 1).last() == map@[i as int]);
        }
        match &map[i].1 {
            Some(resp) => match &resp.encrypted_quorum_key_shard {
                Some(s) => {
                    let sc = s.clone();
                    proof {
                        assert(sc@ =~= s@) by {
                            assert forall|t: int| 0 <= t < s@.len() implies sc@[t] == s@[t] by {
                                assert(cloned::<u8>(s@[t], sc@[t]));
                            }
                        }
                        assert(views_of(out@.push(sc)) =~= views_of(out@).push(s@));
                    }
                    out.push(sc);
                },
                None => (),
            },
            None => (),
        }
        i += 1;
    }
    proof {
        assert(map@.take(map@.len() as int) =~= map@);
    }
    out
}

fn collect_add_positive_shards(map: &Vec<(NodeId, Option<AddNodeTestResult>)>) -> (r: Vec<
    Vec<u8>,
>)
    ensures
        views_of(r@) == add_positive_shards(map@),
{
    let mut out: Vec<Vec<u8>> = Vec::new();
    let mut i: usize = 0;
    while i < map.len()
        invariant
            i <= map@.len(),
            views_of(out@) == add_positive_shards(map@.take(i as int)),
        decreases map@.len() - i,
    {
        proof {
            assert(map@.take(i + 1).drop_last() =~= map@.take(i as int));
            assert(map@.take(i + 1).last() == map@[i as int]);
        }
        match &map[i].1 {
            Some(resp) => match &resp.encrypted_quorum_key_shard {
                Some(s) => {
                    let sc = s.clone();
                    proof {
                        assert(sc@ =~= s@) by {
                            assert forall|t: int| 0 <= t < s@.len() implies sc@[t] == s@[t] by {
                                assert(cloned::<u8>(s@[t], sc@[t]));
                            }
                        }
                        assert(views_of(out@.push(sc)) =~= views_of(out@).push(s@));
                    }
                    out.push(sc);
                },
                None => (),
            },
            None => (),
        }
        i += 1;
    }
    proof {
        assert(map@.take(map@.len() as int) =~= map@);
    }
    out
}

fn collect_remove_positive_shards(map: &Vec<(NodeId, Option<RemoveNodeTestResult>)>) -> (r: Vec<
    Vec<u8>,
>)
    ensures
        views_of(r@) == remove_positive_shards(map@),
{
    let mut out: Vec<Vec<u8>> = Vec::new();
    let mut i: usize = 0;
    while i < map.len()
        invariant
            i <= map@.len(),
            views_of(out@) == remove_positive_shards(map@.take(i as int)),
        decreases map@.len() - i,
    {
        proof {
            assert(map@.take(i + 1).drop_last() =~= map@.take(i as int));
            assert(map@.take(i + 1).last() == map@[i as int]);
        }
        match &map[i].1 {
            Some(resp) => match &resp.encrypted_quorum_key_shard {
                Some(s) => {
                    let sc = s.clone();
                    proof {
                        assert(sc@ =~= s@) by {
                            assert forall|t: int| 0 <= t < s@.len() implies sc@[t] == s@[t] by {
                                assert(cloned::<u8>(s@[t], sc@[t]));
                            }
                        }
                        assert(views_of(out@.push(sc)) =~= views_of(out@).push(s@));
                    }
                    out.push(sc);
                },
                None => (),
            },
            None => (),
        }
        i += 1;
    }
    proof {
        assert(map@.take(map@.len() as int) =~= map@);
    }
    out
}

// =====================================================
// Shard subsets
// =====================================================

/// Each member holds one slot in a shard map.
pub open spec fn shard_keys_distinct(m: Seq<(NodeId, Vec<u8>)>) -> bool {
    forall|i: int, j: int| 0 <= i < j < m.len() ==> m[i].0 != m[j].0
}

/// A shard map without the given member's slot.
pub open spec fn spec_remove_key(m: Seq<(NodeId, Vec<u8>)>, from: NodeId) -> Seq<(NodeId, Vec<u8>)> {
    if exists|j: int| 0 <= j < m.len() && m[j].0 == from {
        m.remove(choose|j: int| 0 <= j < m.len() && m[j].0 == from)
    } else {
        m
    }
}

/// Drops the given member's slot from a shard map, if it has one.
fn remove_key(map: &mut Vec<(NodeId, Vec<u8>)>, from: NodeId)
    requires
        shard_keys_distinct(old(map)@),
    ensures
        shard_keys_distinct(final(map)@),
        final(map)@ == spec_remove_key(old(map)@, from),
        final(map)@.len() <= old(map)@.len(),
{
    let ghost pre = map@;
    let mut i: usize = 0;
    let mut found: Option<usize> = None;
    while i < map.len()
        invariant
            map@ == pre,
            i <= pre.len(),
            match found {
                Some(j) => j < i && pre[j as int].0 == from,
                None => forall|j: int| 0 <= j < i ==> pre[j].0 != from,
            },
        decreases pre.len() - i,
    {
        if found.is_none() && map[i].0 == from {
            found = Some(i);
        }
        i += 1;
    }
    match found {
        Some(j) => {
            map.remove(j);
            proof {
                let jj = choose|j2: int| 0 <= j2 < pre.len() && pre[j2].0 == from;
                assert(jj == j as int) by {
                    if jj < j as int {
                        assert(pre[jj].0 != pre[j as int].0);
                    } else if (j as int) < jj {
                        assert(pre[j as int].0 != pre[jj].0);
                    }
                }
                assert forall|a: int, b: int| 0 <= a < b < map@.len() implies map@[a].0
                    != map@[b].0 by {
                    let a0 = if a < j as int {
                        a
                    } else {
                        a + 1
                    };
                    let b0 = if b < j as int {
                        b
                    } else {
                        b + 1
                    };
                    assert(map@[a] == pre[a0] && map@[b] == pre[b0]);
                    assert(pre[a0].0 != pre[b0].0);
                }
            }
        },
        None => {
            proof {
                if exists|j2: int| 0 <= j2 < pre.len() && pre[j2].0 == from {
                    let jj = choose|j2: int| 0 <= j2 < pre.len() && pre[j2].0 == from;
                    assert(pre[jj].0 != from);
                }
            }
        },
    }
}

/// Whether two digests hold the same bytes.
fn hash_eq(a: &[u8; 32], b: &[u8; 32]) -> (r: bool)
    ensures
        r == (a@ == b@),
        r ==> *a == *b,
{
    let mut j: usize = 0;
    while j < 32
        invariant
            j <= 32,
            forall|i: int| 0 <= i < j ==> a@[i] == b@[i],
        decreases 32 - j,
    {
        if a[j] != b[j] {
            proof {
                if a@ == b@ {
                    assert(a@[j as int] == b@[j as int]);
                }
            }
            return false;
        }
        j += 1;
    }
    proof {
        assert(a@ =~= b@);
        assert(*a =~= *b);
    }
    true
}

/// One answer recorded over another, or appended when the node had not
/// answered yet.
pub open spec fn spec_insert_response<T>(
    m: Seq<(NodeId, Option<T>)>,
    from: NodeId,
    v: Option<T>,
) -> Seq<(NodeId, Option<T>)> {
    if exists|j: int| 0 <= j < m.len() && m[j].0 == from {
        m.update(choose|j: int| 0 <= j < m.len() && m[j].0 == from, (from, v))
    } else {
        m.push((from, v))
    }
}

/// Relies on itertools' combinations: every selection of `k` of the items,
/// each an item of the input; there is at least one exactly when `k` does
/// not exceed the number of items.
#[verifier::external_body]
fn combinations_of(items: &Vec<Vec<u8>>, k: usize) -> (r: Vec<Vec<Vec<u8>>>)
    ensures
        forall|i: int|
            0 <= i < r@.len() ==> (#[trigger] r@[i])@.len() == k && (forall|j: int|
                0 <= j < k ==> views_of(items@).contains(r@[i]@[j]@)),
        r@.len() > 0 <==> k <= items@.len(),
{
    items.iter().cloned().combinations(k).collect()
}

// =====================================================
// Node state and outcomes
// =====================================================

/// The overall state of the node, including the backlogged message queue.
pub struct NodeState {
    /// The quorum configuration.
    pub config: Config,
    /// The current status of the node.
    pub status: NodeStatus,
    /// Backlogged messages, in reception order.
    pub message_queue: Vec<NodeMessage>,
    /// The per-direction nonces.
    pub nonce_manager: NonceManager,
}

/// What the runtime around the node must do after a handled message. Where
/// an outcome names no data, the runtime reads what it needs from the
/// status the handler left behind.
#[derive(Debug)]
pub enum HandleOutcome {
    /// Nothing more to do.
    NoReply,
    /// Broadcast the stored verification request to every peer but this
    /// node, and record this node's own verdict as a vote.
    BroadcastVerify,
    /// Broadcast the stored addition request to every peer, this node
    /// included.
    BroadcastAddInit,
    /// Broadcast the stored removal request to every peer, this node
    /// included.
    BroadcastRemoveInit,
    /// Audit the stored request's append-only proof, then answer with
    /// `verify_request_finish`'s response.
    RunAudit,
    /// Audit the challenge's proof and reply with `new_node_test_impl`'s
    /// verdict.
    RunNewNodeTest(NewNodeTest),
    /// Send the candidate this challenge under a fresh session, await its
    /// verdict, then finish with `add_node_init_finish`; the flag says
    /// whether the challenge should pass.
    RunCandidateTest(bool, NewNodeTest),
    /// Send the member under removal this challenge, await its verdict,
    /// then finish with `remove_node_init_finish`; the flag says whether
    /// the challenge should pass.
    RunMemberTest(bool, VerifyRequest),
    /// Try the cryptographer on each listed subset of shards until a
    /// commitment is produced, persist the first success, then report with
    /// `commitment_attempt_result`.
    TryCommit(Vec<Vec<Vec<u8>>>),
    /// Re-share the quorum key from one of the listed subsets over the
    /// grown member set, then continue with `reshard_completed`.
    TryReshard(Vec<Vec<Vec<u8>>>),
    /// Re-share the quorum key from one of the listed subsets over the
    /// shrunk member set, then continue with `reshard_completed_removal`.
    TryReshardRemoval(Vec<Vec<Vec<u8>>>),
    /// Store the member and the shard this node was handed, and reply with
    /// an affirmative acknowledgement.
    AcceptNewMember(MemberInformation, Option<Vec<u8>>),
    /// Remove the named member from storage, install the shard this node
    /// was handed if one came, and reply with an affirmative
    /// acknowledgement.
    AcceptRemovedMember(NodeId, Option<Vec<u8>>),
    /// Deliver each member its shard from the stored map and feed each
    /// acknowledgement back through `inter_node_ack_impl`.
    DistributeShards,
    /// Deliver each remaining member its shard from the stored map and feed
    /// each acknowledgement back through `inter_node_ack_impl`.
    DistributeShardsRemoval,
    /// Persist the newly added member; the stored request names it.
    PersistNewMember,
    /// Remove the member from storage; identifiers above it shift down.
    PersistRemoval(NodeId),
}

impl NodeState {
    /// The state's internal conditions: the backlog within its bound, nonces
    /// well formed, each collection map with one answer per node, and every
    /// recorded verification verdict speaking of the root hash under
    /// verification.
    pub open spec fn wf(&self) -> bool {
        &&& self.message_queue@.len() <= MESSAGE_QUEUE_CAPACITY
        &&& self.nonce_manager.inv()
        &&& match self.status {
            NodeStatus::Leading(LeaderState::ProcessingVerification(_, req, map)) => {
                &&& distinct_keys(map@)
                &&& forall|i: int|
                    0 <= i < map@.len() ==> (match (#[trigger] map@[i]).1 {
                        Some(resp) => resp.verified_hash == req.new_hash,
                        None => true,
                    })
            },
            NodeStatus::Leading(LeaderState::ProcessingAddition(_, _, map)) => distinct_keys(
                map@,
            ),
            NodeStatus::Leading(LeaderState::ProcessingRemoval(_, _, map)) => distinct_keys(map@),
            NodeStatus::Leading(LeaderState::AddingMember(_, _, map)) => shard_keys_distinct(
                map@,
            ),
            NodeStatus::Leading(LeaderState::RemovingMember(_, _, map)) => shard_keys_distinct(
                map@,
            ),
            _ => true,
        }
    }

    /// A ready node with the given configuration and nothing recorded.
    pub fn new(config: Config) -> (r: NodeState)
        ensures
            r.wf(),
            r.config == config,
            r.status is Ready,
            r.message_queue@ == Seq::<NodeMessage>::empty(),
            r.nonce_manager.out_map() == Map::<NodeId, Nonce>::empty(),
            r.nonce_manager.in_map() == Map::<NodeId, Nonce>::empty(),
    {
        NodeState {
            config,
            status: NodeStatus::Ready,
            message_queue: Vec::new(),
            nonce_manager: NonceManager::new(),
        }
    }

    /// Hands out the next nonce toward a peer; see the nonce manager.
    pub fn next_outgoing_nonce(&mut self, to: NodeId) -> (n: Nonce)
        requires
            old(self).wf(),
        ensures
            final(self).wf(),
            final(self).config == old(self).config,
            final(self).status == old(self).status,
            final(self).message_queue == old(self).message_queue,
            final(self).nonce_manager.in_map() == old(self).nonce_manager.in_map(),
            final(self).nonce_manager.out_map() == old(self).nonce_manager.out_map().insert(
                to,
                n,
            ),
            old(self).nonce_manager.out_map().dom().contains(to) && old(self).nonce_manager.out_map()[to] < Nonce::MAX ==> n > old(self).nonce_manager.out_map()[to],
    {
        self.nonce_manager.get_next_outgoing_nonce(to)
    }

    /// Accepts an inbound frame: one not addressed to this node is rejected
    /// with a reception fault, one whose nonce does not advance past the
    /// last accepted from its sender with a nonce fault; otherwise the plain
    /// message, carrying the decrypted payload, is handed back.
    pub fn accept_inbound(
        &mut self,
        to: NodeId,
        from: NodeId,
        nonce: Nonce,
        plaintext: Vec<u8>,
    ) -> (r: Result<Message, CommunicationError>)
        requires
            old(self).wf(),
        ensures
            final(self).wf(),
            final(self).config == old(self).config,
            final(self).status == old(self).status,
            final(self).message_queue == old(self).message_queue,
            to != old(self).config.node_id ==> (r matches Err(e) && e is ReceiveError)
                && *final(self) == *old(self),
            to == old(self).config.node_id ==> {
                &&& (r is Ok <==> (!old(self).nonce_manager.in_map().dom().contains(from) || old(self).nonce_manager.in_map()[from] < nonce))
                &&& (r matches Ok(m) ==> m.to == to && m.from == from && m.nonce == nonce
                    && m.serialized_message == plaintext
                    && final(self).nonce_manager.in_map() == old(self).nonce_manager.in_map().insert(from, nonce))
                &&& (r matches Err(e) ==> *final(self) == *old(self) && (e matches
                    CommunicationError::NonceError(last, got, _) && last == old(self).nonce_manager.in_map()[from] && got == nonce))
            },
    {
        if to != self.config.node_id {
            return Err(CommunicationError::ReceiveError(
                "received a message not intended for this node".to_string(),
            ));
        }
        match self.nonce_manager.validate_nonce(from, nonce) {
            Ok(()) => Ok(Message { to, from, nonce, serialized_message: plaintext }),
            Err(e) => Err(e),
        }
    }

    /// The tick of the clock: any status that has outlived the
    /// distributed-processing timeout is forced back to ready; nothing else
    /// moves.
    pub fn timer_tick(&mut self, now_ms: u64)
        requires
            old(self).wf(),
        ensures
            final(self).wf(),
            final(self).config == old(self).config,
            final(self).message_queue == old(self).message_queue,
            final(self).nonce_manager == old(self).nonce_manager,
            final(self).status == (if spec_timed_out(old(self).status, now_ms) {
                NodeStatus::Ready
            } else {
                old(self).status
            }),
    {
        let to_ready: bool = match &self.status {
            NodeStatus::Leading(l_state) => match l_state {
                LeaderState::ProcessingVerification(tick, _, _) => elapsed(now_ms, *tick)
                    >= DISTRIBUTED_PROCESSING_TIMEOUT_MS,
                LeaderState::ProcessingAddition(tick, _, _) => elapsed(now_ms, *tick)
                    >= DISTRIBUTED_PROCESSING_TIMEOUT_MS,
                LeaderState::AddingMember(tick, _, _) => elapsed(now_ms, *tick)
                    >= DISTRIBUTED_PROCESSING_TIMEOUT_MS,
                LeaderState::ProcessingRemoval(tick, _, _) => elapsed(now_ms, *tick)
                    >= DISTRIBUTED_PROCESSING_TIMEOUT_MS,
                LeaderState::RemovingMember(tick, _, _) => elapsed(now_ms, *tick)
                    >= DISTRIBUTED_PROCESSING_TIMEOUT_MS,
            },
            NodeStatus::Following(w_state) => match w_state {
                WorkerState::TestingAddMember(start_time, _, _, _) => elapsed(now_ms, *start_time)
                    >= DISTRIBUTED_PROCESSING_TIMEOUT_MS,
                WorkerState::WaitingOnMemberAddResult(start_time, _) => elapsed(
                    now_ms,
                    *start_time,
                ) >= DISTRIBUTED_PROCESSING_TIMEOUT_MS,
                WorkerState::TestingRemoveMember(start_time, _, _, _) => elapsed(
                    now_ms,
                    *start_time,
                ) >= DISTRIBUTED_PROCESSING_TIMEOUT_MS,
                WorkerState::WaitingOnMemberRemoveResult(start_time, _) => elapsed(
                    now_ms,
                    *start_time,
                ) >= DISTRIBUTED_PROCESSING_TIMEOUT_MS,
                _ => false,
            },
            NodeStatus::Ready => false,
        };
        if to_ready {
            self.status = NodeStatus::Ready;
        }
    }

    /// When the node is back to ready, the oldest backlogged message is the
    /// next one processed: the backlog keeps arrival order.
    pub fn dequeue_backlogged(&mut self) -> (r: Option<NodeMessage>)
        requires
            old(self).wf(),
        ensures
            final(self).wf(),
            final(self).config == old(self).config,
            final(self).status == old(self).status,
            final(self).nonce_manager == old(self).nonce_manager,
            old(self).message_queue@.len() == 0 ==> r is None && *final(self) == *old(self),
            old(self).message_queue@.len() > 0 ==> r == Some(old(self).message_queue@[0])
                && final(self).message_queue@ == old(self).message_queue@.subrange(
                1,
                old(self).message_queue@.len() as int,
            ),
    {
        if self.message_queue.len() == 0 {
            None
        } else {
            let ghost pre = self.message_queue@;
            let m = self.message_queue.remove(0);
            proof {
                assert(self.message_queue@ =~= pre.subrange(1, pre.len() as int));
            }
            Some(m)
        }
    }

    /// Defers a message to the backlog's tail; a backlog at its bound drops
    /// the message instead.
    fn backlog_message(&mut self, m: NodeMessage)
        requires
            old(self).wf(),
        ensures
            final(self).wf(),
            final(self).config == old(self).config,
            final(self).status == old(self).status,
            final(self).nonce_manager == old(self).nonce_manager,
            final(self).message_queue@ == spec_backlog(old(self).message_queue@, m),
    {
        if self.message_queue.len() < MESSAGE_QUEUE_CAPACITY {
            self.message_queue.push(m);
        }
    }
}

// =====================================================
// The verification flow
// =====================================================

/// The inter-node request a public verification request becomes.
pub open spec fn spec_internal_verify_request(req: VerifyChangesRequest) -> VerifyRequest {
    VerifyRequest {
        previous_hash: req.previous_hash,
        new_hash: req.new_hash,
        append_only_proof: req.append_only_proof,
        epoch: req.epoch,
    }
}

/// What accepting a public verification request does: a ready node becomes
/// the leader of the epoch's verification and broadcasts the request; a
/// busy node backlogs it.
pub open spec fn public_verify_rel(
    pre: NodeState,
    post: NodeState,
    r: HandleOutcome,
    req: VerifyChangesRequest,
    now_ms: u64,
) -> bool {
    &&& post.config == pre.config
    &&& post.nonce_manager == pre.nonce_manager
    &&& if pre.status is Ready {
        &&& match post.status {
            NodeStatus::Leading(LeaderState::ProcessingVerification(t, ireq, map)) => t == now_ms
                && ireq == spec_internal_verify_request(req) && map@ == Seq::<
                (NodeId, Option<VerifyResponse>),
            >::empty(),
            _ => false,
        }
        &&& post.message_queue == pre.message_queue
        &&& r is BroadcastVerify
    } else {
        &&& post.status == pre.status
        &&& post.message_queue@ == spec_backlog(pre.message_queue@, 
            NodeMessage::Public(PublicNodeMessage::Verify(req)),
        )
        &&& r is NoReply
    }
}

/// What the leader's periodic try at a commitment does: with a threshold of
/// approving shards collected it asks for a commitment attempt over every
/// subset of that size; past the timeout, or with every member answered and
/// no threshold reached, the operation is abandoned; otherwise it keeps
/// collecting.
pub open spec fn try_generate_commitment_rel(
    pre: NodeState,
    post: NodeState,
    r: HandleOutcome,
    now_ms: u64,
    threshold: u8,
) -> bool {
    &&& post.config == pre.config
    &&& post.nonce_manager == pre.nonce_manager
    &&& post.message_queue == pre.message_queue
    &&& match pre.status {
        NodeStatus::Leading(LeaderState::ProcessingVerification(t, req, map)) => {
            let pos = verify_positive_shards(map@);
            if pos.len() >= threshold as nat {
                &&& post.status == pre.status
                &&& match r {
                    HandleOutcome::TryCommit(subsets) => {
                        &&& subsets@.len() > 0
                        &&& forall|i: int|
                            0 <= i < subsets@.len() ==> (#[trigger] subsets@[i])@.len()
                                == threshold as nat && (forall|j: int|
                                0 <= j < threshold as nat ==> pos.contains(subsets@[i]@[j]@))
                    },
                    _ => false,
                }
            } else if elapsed_ms(now_ms, t) > DISTRIBUTED_PROCESSING_TIMEOUT_MS {
                post.status is Ready && r is NoReply
            } else if map@.len() == pre.config.group_size as nat {
                post.status is Ready && r is NoReply
            } else {
                post.status == pre.status && r is NoReply
            }
        },
        _ => post.status == pre.status && r is NoReply,
    }
}

/// What recording one verification verdict does: the vote joins the map and
/// the leader immediately tries to finish, as `try_generate_commitment_rel`
/// describes, over the grown map.
pub open spec fn record_verify_vote_rel(
    pre: NodeState,
    post: NodeState,
    r: HandleOutcome,
    from: NodeId,
    vote: Option<VerifyResponse>,
    now_ms: u64,
    threshold: u8,
) -> bool {
    &&& post.config == pre.config
    &&& post.nonce_manager == pre.nonce_manager
    &&& post.message_queue == pre.message_queue
    &&& match pre.status {
        NodeStatus::Leading(LeaderState::ProcessingVerification(t, req, map)) => {
            let m2 = spec_insert_response(map@, from, vote);
            let pos = verify_positive_shards(m2);
            if pos.len() >= threshold as nat {
                &&& match post.status {
                    NodeStatus::Leading(LeaderState::ProcessingVerification(t2, req2, mv)) => t2
                        == t && req2 == req && mv@ == m2,
                    _ => false,
                }
                &&& match r {
                    HandleOutcome::TryCommit(subsets) => {
                        &&& subsets@.len() > 0
                        &&& forall|i: int|
                            0 <= i < subsets@.len() ==> (#[trigger] subsets@[i])@.len()
                                == threshold as nat && (forall|j: int|
                                0 <= j < threshold as nat ==> pos.contains(subsets@[i]@[j]@))
                    },
                    _ => false,
                }
            } else if elapsed_ms(now_ms, t) > DISTRIBUTED_PROCESSING_TIMEOUT_MS {
                post.status is Ready && r is NoReply
            } else if m2.len() == pre.config.group_size as nat {
                post.status is Ready && r is NoReply
            } else {
                &&& match post.status {
                    NodeStatus::Leading(LeaderState::ProcessingVerification(t2, req2, mv)) => t2
                        == t && req2 == req && mv@ == m2,
                    _ => false,
                }
                &&& r is NoReply
            }
        },
        _ => post == pre && r is NoReply,
    }
}

impl NodeState {
    /// Accepts or backlogs a public verification request.
    pub fn public_verify_impl(&mut self, verify_request: VerifyChangesRequest, now_ms: u64) -> (r:
        HandleOutcome)
        requires
            old(self).wf(),
        ensures
            final(self).wf(),
            public_verify_rel(*old(self), *final(self), r, verify_request, now_ms),
    {
        let is_ready = matches!(self.status, NodeStatus::Ready);
        if is_ready {
            let internal_request = VerifyRequest {
                previous_hash: verify_request.previous_hash,
                new_hash: verify_request.new_hash,
                append_only_proof: verify_request.append_only_proof,
                epoch: verify_request.epoch,
            };
            self.status = NodeStatus::Leading(
                LeaderState::ProcessingVerification(now_ms, internal_request, Vec::new()),
            );
            HandleOutcome::BroadcastVerify
        } else {
            self.backlog_message(NodeMessage::Public(PublicNodeMessage::Verify(
                verify_request,
            )));
            HandleOutcome::NoReply
        }
    }

    /// Tries to finish the verification the node is leading; see
    /// `try_generate_commitment_rel`.
    pub fn try_generate_commitment(&mut self, now_ms: u64, threshold: u8) -> (r: HandleOutcome)
        requires
            old(self).wf(),
        ensures
            final(self).wf(),
            try_generate_commitment_rel(*old(self), *final(self), r, now_ms, threshold),
    {
        let decision: Option<(Option<Vec<Vec<u8>>>, bool)> = match &self.status {
            NodeStatus::Leading(LeaderState::ProcessingVerification(t, _, map)) => {
                let positives = collect_verify_positive_shards(map);
                if positives.len() >= threshold as usize {
                    Some((Some(positives), false))
                } else if elapsed(now_ms, *t) > DISTRIBUTED_PROCESSING_TIMEOUT_MS {
                    Some((None, true))
                } else if map.len() == self.config.group_size as usize {
                    Some((None, true))
                } else {
                    Some((None, false))
                }
            },
            _ => None,
        };
        match decision {
            Some((Some(positives), _)) => {
                let subsets = combinations_of(&positives, threshold as usize);
                HandleOutcome::TryCommit(subsets)
            },
            Some((None, go_ready)) => {
                if go_ready {
                    self.status = NodeStatus::Ready;
                }
                HandleOutcome::NoReply
            },
            None => HandleOutcome::NoReply,
        }
    }

    /// Records one member's verification verdict — the member's own when it
    /// is the leader voting for itself — and tries to finish.
    pub fn record_verify_vote(
        &mut self,
        from: NodeId,
        vote: Option<VerifyResponse>,
        now_ms: u64,
        threshold: u8,
    ) -> (r: HandleOutcome)
        requires
            old(self).wf(),
            match (old(self).status, vote) {
                (
                    NodeStatus::Leading(LeaderState::ProcessingVerification(_, req, _)),
                    Some(resp),
                ) => resp.verified_hash == req.new_hash,
                _ => true,
            },
        ensures
            final(self).wf(),
            record_verify_vote_rel(*old(self), *final(self), r, from, vote, now_ms, threshold),
    {
        let mut cur = NodeStatus::Ready;
        core::mem::swap(&mut self.status, &mut cur);
        match cur {
            NodeStatus::Leading(LeaderState::ProcessingVerification(t, req, mut map)) => {
                let ghost m0 = map@;
                insert_response(&mut map, from, vote);
                proof {
                    assert forall|i: int| 0 <= i < map@.len() implies (match (
                    #[trigger] map@[i]).1 {
                        Some(resp) => resp.verified_hash == req.new_hash,
                        None => true,
                    }) by {
                        if exists|j: int| 0 <= j < m0.len() && m0[j].0 == from {
                            let j = choose|j: int| 0 <= j < m0.len() && m0[j].0 == from;
                            if i != j {
                                assert(map@[i] == m0[i]);
                            }
                        } else {
                            if i < m0.len() {
                                assert(map@[i] == m0[i]);
                            }
                        }
                    }
                }
                self.status = NodeStatus::Leading(
                    LeaderState::ProcessingVerification(t, req, map),
                );
                self.try_generate_commitment(now_ms, threshold)
            },
            other => {
                self.status = other;
                HandleOutcome::NoReply
            },
        }
    }

    /// Handles a peer's answer to the verification this node leads. An
    /// answer that names the new root under verification joins the vote
    /// map; one that names another root waits in the backlog; without a
    /// verification in flight the answer is dropped.
    pub fn verify_response_impl(
        &mut self,
        from: NodeId,
        verify_response: VerifyResponse,
        now_ms: u64,
        threshold: u8,
    ) -> (r: HandleOutcome)
        requires
            old(self).wf(),
        ensures
            final(self).wf(),
            verify_response_rel(*old(self), *final(self), r, from, verify_response, now_ms, threshold),
    {
        let matches_request: Option<bool> = match &self.status {
            NodeStatus::Leading(LeaderState::ProcessingVerification(_, req, _)) => Some(
                hash_eq(&verify_response.verified_hash, &req.new_hash),
            ),
            _ => None,
        };
        match matches_request {
            Some(true) => self.record_verify_vote(from, Some(verify_response), now_ms, threshold),
            Some(false) => {
                self.backlog_message(NodeMessage::Internal(
                    from,
                    InterNodeMessage::VerifyResponse(verify_response),
                ));
                HandleOutcome::NoReply
            },
            None => HandleOutcome::NoReply,
        }
    }

    /// Ends the leader's commitment attempt: a persisted commitment closes
    /// the verification; a failed attempt leaves the leader collecting.
    pub fn commitment_attempt_result(&mut self, success: bool, _now_ms: u64)
        requires
            old(self).wf(),
        ensures
            final(self).wf(),
            (success && (old(self).status matches NodeStatus::Leading(
                LeaderState::ProcessingVerification(_, _, _),
            ))) ==> *final(self) == (NodeState { status: NodeStatus::Ready, ..*old(self) }),
            !(success && (old(self).status matches NodeStatus::Leading(
                LeaderState::ProcessingVerification(_, _, _),
            ))) ==> *final(self) == *old(self),
    {
        if success {
            let is_pv = matches!(
                self.status,
                NodeStatus::Leading(LeaderState::ProcessingVerification(_, _, _))
            );
            if is_pv {
                self.status = NodeStatus::Ready;
            }
        }
    }

    /// Accepts or backlogs a public enrollment request: a ready node leads
    /// the addition and broadcasts its opening to every peer, itself
    /// included.
    pub fn public_enroll_impl(&mut self, enrollment_request: EnrollMemberRequest, now_ms: u64) -> (
        r: HandleOutcome)
        requires
            old(self).wf(),
        ensures
            final(self).wf(),
            public_enroll_rel(*old(self), *final(self), r, enrollment_request, now_ms),
    {
        let is_ready = matches!(self.status, NodeStatus::Ready);
        if is_ready {
            let internal_request = AddNodeInit {
                public_key: enrollment_request.public_key,
                contact_info: enrollment_request.contact_information,
            };
            self.status = NodeStatus::Leading(
                LeaderState::ProcessingAddition(now_ms, internal_request, Vec::new()),
            );
            HandleOutcome::BroadcastAddInit
        } else {
            self.backlog_message(NodeMessage::Public(PublicNodeMessage::Enroll(
                enrollment_request,
            )));
            HandleOutcome::NoReply
        }
    }

    /// Accepts or backlogs a public removal request: a ready node leads the
    /// removal and broadcasts its opening to every peer, itself included.
    pub fn public_remove_impl(&mut self, removal_request: RemoveMemberRequest, now_ms: u64) -> (r:
        HandleOutcome)
        requires
            old(self).wf(),
        ensures
            final(self).wf(),
            public_remove_rel(*old(self), *final(self), r, removal_request, now_ms),
    {
        let is_ready = matches!(self.status, NodeStatus::Ready);
        if is_ready {
            let internal_request = RemoveNodeInit { node_id: removal_request.node_id };
            self.status = NodeStatus::Leading(
                LeaderState::ProcessingRemoval(now_ms, internal_request, Vec::new()),
            );
            HandleOutcome::BroadcastRemoveInit
        } else {
            self.backlog_message(NodeMessage::Public(PublicNodeMessage::Remove(
                removal_request,
            )));
            HandleOutcome::NoReply
        }
    }

    /// Takes up or backlogs a leader's verification request: a ready node
    /// becomes the follower auditing it.
    pub fn verify_request_impl(&mut self, from: NodeId, verify_request: VerifyRequest) -> (r:
        HandleOutcome)
        requires
            old(self).wf(),
        ensures
            final(self).wf(),
            verify_request_rel(*old(self), *final(self), r, from, verify_request),
    {
        let is_ready = matches!(self.status, NodeStatus::Ready);
        if is_ready {
            self.status = NodeStatus::Following(WorkerState::Verifying(from, verify_request));
            HandleOutcome::RunAudit
        } else {
            self.backlog_message(NodeMessage::Internal(
                from,
                InterNodeMessage::VerifyRequest(verify_request),
            ));
            HandleOutcome::NoReply
        }
    }

    /// Ends the follower's audit: the response approves — and carries the
    /// shard it was handed — exactly when the audit passed, and always
    /// names the root hash under verification; the node is ready again.
    pub fn verify_request_finish(&mut self, audit_ok: bool, shard: Option<Vec<u8>>) -> (r:
        VerifyResponse)
        requires
            old(self).wf(),
            old(self).status matches NodeStatus::Following(WorkerState::Verifying(_, _)),
        ensures
            final(self).wf(),
            *final(self) == (NodeState { status: NodeStatus::Ready, ..*old(self) }),
            match old(self).status {
                NodeStatus::Following(WorkerState::Verifying(_, req)) => {
                    &&& r.verified_hash == req.new_hash
                    &&& r.encrypted_quorum_key_shard == (if audit_ok {
                        shard
                    } else {
                        None
                    })
                },
                _ => false,
            },
    {
        let new_hash: [u8; 32] = match &self.status {
            NodeStatus::Following(WorkerState::Verifying(_, req)) => req.new_hash,
            _ => [0u8; 32],
        };
        self.status = NodeStatus::Ready;
        VerifyResponse {
            verified_hash: new_hash,
            encrypted_quorum_key_shard: if audit_ok {
                shard
            } else {
                None
            },
        }
    }

    /// The candidate's verdict on a challenge: the audit's result when the
    /// node is free to judge, a failing verdict otherwise.
    pub fn new_node_test_impl(&self, audit_ok: bool) -> (r: NewNodeTestResult)
        ensures
            r.test_pass == (self.status is Ready && audit_ok),
    {
        let is_ready = matches!(self.status, NodeStatus::Ready);
        NewNodeTestResult { test_pass: is_ready && audit_ok }
    }
}

/// The exact effect of `verify_response_impl`.
pub open spec fn verify_response_rel(
    pre: NodeState,
    post: NodeState,
    r: HandleOutcome,
    from: NodeId,
    verify_response: VerifyResponse,
    now_ms: u64,
    threshold: u8,
) -> bool {
    &&& (post.config == pre.config)
    &&& (post.nonce_manager == pre.nonce_manager)
    &&& (match pre.status {
                NodeStatus::Leading(LeaderState::ProcessingVerification(t, req, map)) => {
                    if verify_response.verified_hash == req.new_hash {
                        &&& post.message_queue == pre.message_queue
                        &&& record_verify_vote_rel(
                            pre,
                            post,
                            r,
                            from,
                            Some(verify_response),
                            now_ms,
                            threshold,
                        )
                    } else {
                        &&& post.status == pre.status
                        &&& post.message_queue@ == spec_backlog(pre.message_queue@, 
                            NodeMessage::Internal(
                                from,
                                InterNodeMessage::VerifyResponse(verify_response),
                            ),
                        )
                        &&& r is NoReply
                    }
                },
                _ => post == pre && r is NoReply,
            })
}

/// The exact effect of `public_enroll_impl`.
pub open spec fn public_enroll_rel(
    pre: NodeState,
    post: NodeState,
    r: HandleOutcome,
    enrollment_request: EnrollMemberRequest,
    now_ms: u64,
) -> bool {
    &&& (post.config == pre.config)
    &&& (post.nonce_manager == pre.nonce_manager)
    &&& (if pre.status is Ready {
                &&& match post.status {
                    NodeStatus::Leading(LeaderState::ProcessingAddition(t, ireq, map)) => t
                        == now_ms && ireq == (AddNodeInit {
                        public_key: enrollment_request.public_key,
                        contact_info: enrollment_request.contact_information,
                    }) && map@ == Seq::<(NodeId, Option<AddNodeTestResult>)>::empty(),
                    _ => false,
                }
                &&& post.message_queue == pre.message_queue
                &&& r is BroadcastAddInit
            } else {
                &&& post.status == pre.status
                &&& post.message_queue@ == spec_backlog(pre.message_queue@, 
                    NodeMessage::Public(PublicNodeMessage::Enroll(enrollment_request)),
                )
                &&& r is NoReply
            })
}

/// The exact effect of `public_remove_impl`.
pub open spec fn public_remove_rel(
    pre: NodeState,
    post: NodeState,
    r: HandleOutcome,
    removal_request: RemoveMemberRequest,
    now_ms: u64,
) -> bool {
    &&& (post.config == pre.config)
    &&& (post.nonce_manager == pre.nonce_manager)
    &&& (if pre.status is Ready {
                &&& match post.status {
                    NodeStatus::Leading(LeaderState::ProcessingRemoval(t, ireq, map)) => t
                        == now_ms && ireq == (RemoveNodeInit { node_id: removal_request.node_id })
                        && map@ == Seq::<(NodeId, Option<RemoveNodeTestResult>)>::empty(),
                    _ => false,
                }
                &&& post.message_queue == pre.message_queue
                &&& r is BroadcastRemoveInit
            } else {
                &&& post.status == pre.status
                &&& post.message_queue@ == spec_backlog(pre.message_queue@, 
                    NodeMessage::Public(PublicNodeMessage::Remove(removal_request)),
                )
                &&& r is NoReply
            })
}

/// The exact effect of `verify_request_impl`.
pub open spec fn verify_request_rel(
    pre: NodeState,
    post: NodeState,
    r: HandleOutcome,
    from: NodeId,
    verify_request: VerifyRequest,
) -> bool {
    &&& (post.config == pre.config)
    &&& (post.nonce_manager == pre.nonce_manager)
    &&& (if pre.status is Ready {
                &&& post.status == NodeStatus::Following(
                    WorkerState::Verifying(from, verify_request),
                )
                &&& post.message_queue == pre.message_queue
                &&& r is RunAudit
            } else {
                &&& post.status == pre.status
                &&& post.message_queue@ == spec_backlog(pre.message_queue@, 
                    NodeMessage::Internal(from, InterNodeMessage::VerifyRequest(verify_request)),
                )
                &&& r is NoReply
            })
}

/// The exact effect of `add_node_init_impl`.
pub open spec fn add_node_init_rel(
    pre: NodeState,
    post: NodeState,
    r: HandleOutcome,
    from: NodeId,
    add_node_init: AddNodeInit,
    now_ms: u64,
    requester_public_key: Vec<u8>,
) -> bool {
    &&& (post.config == pre.config)
    &&& (post.nonce_manager == pre.nonce_manager)
    &&& (if pre.status is Ready || pre.status matches NodeStatus::Leading(
                LeaderState::ProcessingAddition(_, _, _),
            ) {
                &&& post.message_queue == pre.message_queue
                &&& match r {
                    HandleOutcome::RunCandidateTest(should_pass, test) => {
                        &&& generated_test_shape(should_pass, test)
                        &&& test.requesters_public_key == requester_public_key
                        &&& (pre.status is Ready ==> post.status == NodeStatus::Following(
                            WorkerState::TestingAddMember(
                                now_ms,
                                from,
                                add_node_init,
                                should_pass,
                            ),
                        ))
                        &&& (!(pre.status is Ready) ==> post.status == pre.status)
                    },
                    _ => false,
                }
            } else {
                &&& post.status == pre.status
                &&& post.message_queue@ == spec_backlog(pre.message_queue@, 
                    NodeMessage::Internal(from, InterNodeMessage::AddNodeInit(add_node_init)),
                )
                &&& r is NoReply
            })
}

/// The exact effect of `add_node_test_result_impl`.
pub open spec fn add_node_test_result_rel(
    pre: NodeState,
    post: NodeState,
    r: HandleOutcome,
    from: NodeId,
    test_result: AddNodeTestResult,
    now_ms: u64,
    threshold: u8,
) -> bool {
    &&& (post.config == pre.config)
    &&& (post.nonce_manager == pre.nonce_manager)
    &&& (match pre.status {
                NodeStatus::Leading(LeaderState::ProcessingAddition(t, req, map)) => {
                    if req.contact_info@ == test_result.contact_info@ {
                        let m2 = spec_insert_response(map@, from, Some(test_result));
                        let pos = add_positive_shards(m2);
                        &&& post.message_queue == pre.message_queue
                        &&& if pos.len() >= threshold as nat {
                            &&& match post.status {
                                NodeStatus::Leading(
                                    LeaderState::ProcessingAddition(t2, req2, mv),
                                ) => t2 == t && req2 == req && mv@ == m2,
                                _ => false,
                            }
                            &&& match r {
                                HandleOutcome::TryReshard(subsets) => {
                                    &&& subsets@.len() > 0
                                    &&& forall|i: int|
                                        0 <= i < subsets@.len() ==> (#[trigger] subsets@[i])@.len()
                                            == threshold as nat && (forall|j: int|
                                            0 <= j < threshold as nat ==> pos.contains(
                                                subsets@[i]@[j]@,
                                            ))
                                },
                                _ => false,
                            }
                        } else if elapsed_ms(now_ms, t) > DISTRIBUTED_PROCESSING_TIMEOUT_MS {
                            post.status is Ready && r is NoReply
                        } else if m2.len() == pre.config.group_size as nat {
                            post.status is Ready && r is NoReply
                        } else {
                            &&& match post.status {
                                NodeStatus::Leading(
                                    LeaderState::ProcessingAddition(t2, req2, mv),
                                ) => t2 == t && req2 == req && mv@ == m2,
                                _ => false,
                            }
                            &&& r is NoReply
                        }
                    } else {
                        &&& post.status == pre.status
                        &&& post.message_queue@ == spec_backlog(pre.message_queue@, 
                            NodeMessage::Internal(
                                from,
                                InterNodeMessage::AddNodeTestResult(test_result),
                            ),
                        )
                        &&& r is NoReply
                    }
                },
                _ => {
                    &&& post.status == pre.status
                    &&& post.message_queue@ == spec_backlog(pre.message_queue@, 
                        NodeMessage::Internal(
                            from,
                            InterNodeMessage::AddNodeTestResult(test_result),
                        ),
                    )
                    &&& r is NoReply
                },
            })
}

/// The exact effect of `add_node_result_impl`.
pub open spec fn add_node_result_rel(
    pre: NodeState,
    post: NodeState,
    r: HandleOutcome,
    from: NodeId,
    result: AddNodeResult,
    now_ms: u64,
) -> bool {
    &&& (post.config == pre.config)
    &&& (post.nonce_manager == pre.nonce_manager)
    &&& (match pre.status {
                NodeStatus::Following(WorkerState::WaitingOnMemberAddResult(_, request)) => {
                    if request.contact_info@ == result.new_member.contact_information@ {
                        &&& post.status is Ready
                        &&& post.message_queue == pre.message_queue
                        &&& match r {
                            HandleOutcome::AcceptNewMember(member, shard) => member
                                == result.new_member && shard
                                == result.encrypted_quorum_key_shard,
                            _ => false,
                        }
                    } else {
                        &&& post.status == pre.status
                        &&& post.message_queue@ == spec_backlog(pre.message_queue@, 
                            NodeMessage::Internal(
                                from,
                                InterNodeMessage::AddNodeResult(result),
                            ),
                        )
                        &&& r is NoReply
                    }
                },
                _ => {
                    &&& post.status == pre.status
                    &&& post.message_queue@ == spec_backlog(pre.message_queue@, 
                        NodeMessage::Internal(from, InterNodeMessage::AddNodeResult(result)),
                    )
                    &&& r is NoReply
                },
            })
}

/// The exact effect of `remove_node_result_impl`.
pub open spec fn remove_node_result_rel(
    pre: NodeState,
    post: NodeState,
    r: HandleOutcome,
    from: NodeId,
    result: RemoveNodeResult,
    now_ms: u64,
) -> bool {
    &&& (post.config == pre.config)
    &&& (post.nonce_manager == pre.nonce_manager)
    &&& (match pre.status {
                NodeStatus::Following(WorkerState::WaitingOnMemberRemoveResult(_, request)) => {
                    if request.node_id == result.offending_member {
                        &&& post.status is Ready
                        &&& post.message_queue == pre.message_queue
                        &&& r == HandleOutcome::AcceptRemovedMember(
                            result.offending_member,
                            result.encrypted_quorum_key_shard,
                        )
                    } else {
                        &&& post.status == pre.status
                        &&& post.message_queue@ == spec_backlog(
                            pre.message_queue@,
                            NodeMessage::Internal(
                                from,
                                InterNodeMessage::RemoveNodeResult(result),
                            ),
                        )
                        &&& r is NoReply
                    }
                },
                _ => {
                    &&& post.status == pre.status
                    &&& post.message_queue@ == spec_backlog(
                        pre.message_queue@,
                        NodeMessage::Internal(from, InterNodeMessage::RemoveNodeResult(result)),
                    )
                    &&& r is NoReply
                },
            })
}

/// The exact effect of `inter_node_ack_impl`.
pub open spec fn inter_node_ack_rel(
    pre: NodeState,
    post: NodeState,
    r: HandleOutcome,
    from: NodeId,
    ok: bool,
    now_ms: u64,
) -> bool {
    &&& (post.nonce_manager == pre.nonce_manager)
    &&& (post.message_queue == pre.message_queue)
    &&& (match pre.status {
                NodeStatus::Leading(LeaderState::AddingMember(t, req, members)) => {
                    let m2 = if ok {
                        spec_remove_key(members@, from)
                    } else {
                        members@
                    };
                    if m2.len() == 0 {
                        &&& post.status is Ready
                        &&& r is PersistNewMember
                        &&& post.config.node_id == pre.config.node_id
                        &&& post.config.group_size == (if pre.config.group_size
                            < 255 {
                            (pre.config.group_size + 1) as GroupSize
                        } else {
                            255 as GroupSize
                        })
                    } else if elapsed_ms(now_ms, t) >= DISTRIBUTED_PROCESSING_TIMEOUT_MS {
                        post.status is Ready && r is NoReply && post.config == pre.config
                    } else {
                        &&& match post.status {
                            NodeStatus::Leading(LeaderState::AddingMember(t2, req2, mv)) => t2
                                == t && req2 == req && mv@ == m2,
                            _ => false,
                        }
                        &&& r is NoReply
                        &&& post.config == pre.config
                    }
                },
                NodeStatus::Leading(LeaderState::RemovingMember(t, target, members)) => {
                    let m2 = if ok {
                        spec_remove_key(members@, from)
                    } else {
                        members@
                    };
                    if m2.len() == 0 {
                        &&& post.status is Ready
                        &&& r == HandleOutcome::PersistRemoval(target)
                        &&& post.config.node_id == (if pre.config.node_id > target {
                            (pre.config.node_id - 1) as NodeId
                        } else {
                            pre.config.node_id
                        })
                        &&& post.config.group_size == (if pre.config.group_size > 0 {
                            (pre.config.group_size - 1) as GroupSize
                        } else {
                            0 as GroupSize
                        })
                    } else if elapsed_ms(now_ms, t) >= DISTRIBUTED_PROCESSING_TIMEOUT_MS {
                        post.status is Ready && r is NoReply && post.config == pre.config
                    } else {
                        &&& match post.status {
                            NodeStatus::Leading(LeaderState::RemovingMember(t2, target2, mv)) =>
                                t2 == t && target2 == target && mv@ == m2,
                            _ => false,
                        }
                        &&& r is NoReply
                        &&& post.config == pre.config
                    }
                },
                _ => post == pre && r is NoReply,
            })
}

/// The exact effect of `remove_node_init_impl`.
pub open spec fn remove_node_init_rel(
    pre: NodeState,
    post: NodeState,
    r: HandleOutcome,
    from: NodeId,
    remove_node_init: RemoveNodeInit,
    now_ms: u64,
    epoch: u64,
    requester_public_key: Vec<u8>,
) -> bool {
    &&& (post.config == pre.config)
    &&& (post.nonce_manager == pre.nonce_manager)
    &&& (if pre.status is Ready || pre.status matches NodeStatus::Leading(
                LeaderState::ProcessingRemoval(_, _, _),
            ) {
                &&& post.message_queue == pre.message_queue
                &&& match r {
                    HandleOutcome::RunMemberTest(should_pass, request) => {
                        &&& request.epoch == epoch
                        &&& request.append_only_proof.unchanged_nodes@.len() == 0
                        &&& request.append_only_proof.inserted@.len() == 0
                        &&& request.previous_hash@ == crate::hashing::hash_of(
                            Seq::new(32, |i: int| 0u8),
                        )
                        &&& (should_pass ==> request.new_hash == request.previous_hash)
                        &&& (!should_pass ==> request.new_hash@ == crate::hashing::hash_of(
                            Seq::new(32, |i: int| 1u8),
                        ))
                        &&& (pre.status is Ready ==> post.status == NodeStatus::Following(
                            WorkerState::TestingRemoveMember(
                                now_ms,
                                from,
                                remove_node_init,
                                should_pass,
                            ),
                        ))
                        &&& (!(pre.status is Ready) ==> post.status == pre.status)
                    },
                    _ => false,
                }
            } else {
                &&& post.status == pre.status
                &&& post.message_queue@ == spec_backlog(pre.message_queue@, 
                    NodeMessage::Internal(
                        from,
                        InterNodeMessage::RemoveNodeInit(remove_node_init),
                    ),
                )
                &&& r is NoReply
            })
}

/// The exact effect of `remove_node_test_result_impl`.
pub open spec fn remove_node_test_result_rel(
    pre: NodeState,
    post: NodeState,
    r: HandleOutcome,
    from: NodeId,
    test_result: RemoveNodeTestResult,
    now_ms: u64,
    threshold: u8,
) -> bool {
    &&& (post.config == pre.config)
    &&& (post.nonce_manager == pre.nonce_manager)
    &&& (match pre.status {
                NodeStatus::Leading(LeaderState::ProcessingRemoval(t, req, map)) => {
                    if req.node_id == test_result.offending_member {
                        let m2 = spec_insert_response(map@, from, Some(test_result));
                        let pos = remove_positive_shards(m2);
                        &&& post.message_queue == pre.message_queue
                        &&& if pos.len() >= threshold as nat {
                            &&& match post.status {
                                NodeStatus::Leading(
                                    LeaderState::ProcessingRemoval(t2, req2, mv),
                                ) => t2 == t && req2 == req && mv@ == m2,
                                _ => false,
                            }
                            &&& match r {
                                HandleOutcome::TryReshardRemoval(subsets) => {
                                    &&& subsets@.len() > 0
                                    &&& forall|i: int|
                                        0 <= i < subsets@.len() ==> (#[trigger] subsets@[i])@.len()
                                            == threshold as nat && (forall|j: int|
                                            0 <= j < threshold as nat ==> pos.contains(
                                                subsets@[i]@[j]@,
                                            ))
                                },
                                _ => false,
                            }
                        } else if elapsed_ms(now_ms, t) > DISTRIBUTED_PROCESSING_TIMEOUT_MS {
                            post.status is Ready && r is NoReply
                        } else if m2.len() == pre.config.group_size as nat {
                            post.status is Ready && r is NoReply
                        } else {
                            &&& match post.status {
                                NodeStatus::Leading(
                                    LeaderState::ProcessingRemoval(t2, req2, mv),
                                ) => t2 == t && req2 == req && mv@ == m2,
                                _ => false,
                            }
                            &&& r is NoReply
                        }
                    } else {
                        &&& post.status == pre.status
                        &&& post.message_queue@ == spec_backlog(pre.message_queue@, 
                            NodeMessage::Internal(
                                from,
                                InterNodeMessage::RemoveNodeTestResult(test_result),
                            ),
                        )
                        &&& r is NoReply
                    }
                },
                _ => {
                    &&& post.status == pre.status
                    &&& post.message_queue@ == spec_backlog(pre.message_queue@, 
                        NodeMessage::Internal(
                            from,
                            InterNodeMessage::RemoveNodeTestResult(test_result),
                        ),
                    )
                    &&& r is NoReply
                },
            })
}

impl NodeState {
    /// Takes up or backlogs a leader's opening of a member addition: any
    /// ready node — and the leader itself, processing its own broadcast —
    /// challenges the candidate with a freshly drawn test.
    pub fn add_node_init_impl(
        &mut self,
        from: NodeId,
        add_node_init: AddNodeInit,
        now_ms: u64,
        requester_public_key: Vec<u8>,
    ) -> (r: HandleOutcome)
        requires
            old(self).wf(),
        ensures
            final(self).wf(),
            add_node_init_rel(*old(self), *final(self), r, from, add_node_init, now_ms, requester_public_key),
    {
        let is_ready = matches!(self.status, NodeStatus::Ready);
        let is_processing_addition = matches!(
            self.status,
            NodeStatus::Leading(LeaderState::ProcessingAddition(_, _, _))
        );
        if is_ready || is_processing_addition {
            let (should_pass, test) = generate_test(requester_public_key);
            if is_ready {
                self.status = NodeStatus::Following(
                    WorkerState::TestingAddMember(now_ms, from, add_node_init, should_pass),
                );
            }
            HandleOutcome::RunCandidateTest(should_pass, test)
        } else {
            self.backlog_message(NodeMessage::Internal(
                from,
                InterNodeMessage::AddNodeInit(add_node_init),
            ));
            HandleOutcome::NoReply
        }
    }

    /// Ends a member's challenge of a candidate: the member approves — and
    /// hands the leader the shard it was given — exactly when the
    /// candidate's verdict matched what the challenge called for; a testing
    /// node then waits on the leader's shard distribution.
    pub fn add_node_init_finish(
        &mut self,
        should_pass: bool,
        reply: Option<bool>,
        shard: Option<Vec<u8>>,
        now_ms: u64,
    ) -> (r: AddNodeTestResult)
        requires
            old(self).wf(),
            (old(self).status matches NodeStatus::Following(
                WorkerState::TestingAddMember(_, _, _, _),
            )) || (old(self).status matches NodeStatus::Leading(
                LeaderState::ProcessingAddition(_, _, _),
            )),
        ensures
            final(self).wf(),
            final(self).config == old(self).config,
            final(self).nonce_manager == old(self).nonce_manager,
            final(self).message_queue == old(self).message_queue,
            r.encrypted_quorum_key_shard == (if reply == Some(should_pass) {
                shard
            } else {
                None
            }),
            match old(self).status {
                NodeStatus::Following(WorkerState::TestingAddMember(_, _, init, _)) => {
                    &&& final(self).status == NodeStatus::Following(
                        WorkerState::WaitingOnMemberAddResult(now_ms, init),
                    )
                    &&& r.contact_info == init.contact_info
                },
                NodeStatus::Leading(LeaderState::ProcessingAddition(_, init, _)) => {
                    &&& final(self).status == old(self).status
                    &&& r.contact_info == init.contact_info
                },
                _ => false,
            },
    {
        let approve = match reply {
            Some(verdict) => verdict == should_pass,
            None => false,
        };
        let mut cur = NodeStatus::Ready;
        core::mem::swap(&mut self.status, &mut cur);
        let contact_info: String;
        match cur {
            NodeStatus::Following(WorkerState::TestingAddMember(_, _, init, _)) => {
                contact_info = init.contact_info.clone();
                self.status = NodeStatus::Following(
                    WorkerState::WaitingOnMemberAddResult(now_ms, init),
                );
            },
            other => {
                contact_info = match &other {
                    NodeStatus::Leading(LeaderState::ProcessingAddition(_, init, _)) => {
                        init.contact_info.clone()
                    },
                    _ => String::new(),
                };
                self.status = other;
            },
        }
        AddNodeTestResult {
            contact_info,
            encrypted_quorum_key_shard: if approve {
                shard
            } else {
                None
            },
        }
    }

    /// Records a member's verdict on the candidate under addition; with a
    /// threshold of approving shards the leader asks for a re-sharing over
    /// the grown member set; past the timeout, or with every member
    /// answered short of the threshold, the addition is abandoned.
    pub fn add_node_test_result_impl(
        &mut self,
        from: NodeId,
        test_result: AddNodeTestResult,
        now_ms: u64,
        threshold: u8,
    ) -> (r: HandleOutcome)
        requires
            old(self).wf(),
        ensures
            final(self).wf(),
            add_node_test_result_rel(*old(self), *final(self), r, from, test_result, now_ms, threshold),
    {
        let related: bool = match &self.status {
            NodeStatus::Leading(LeaderState::ProcessingAddition(_, req, _)) => {
                req.contact_info == test_result.contact_info
            },
            _ => false,
        };
        if !related {
            self.backlog_message(NodeMessage::Internal(
                from,
                InterNodeMessage::AddNodeTestResult(test_result),
            ));
            return HandleOutcome::NoReply;
        }
        let mut cur = NodeStatus::Ready;
        core::mem::swap(&mut self.status, &mut cur);
        match cur {
            NodeStatus::Leading(LeaderState::ProcessingAddition(t, req, mut map)) => {
                insert_response(&mut map, from, Some(test_result));
                let positives = collect_add_positive_shards(&map);
                let map_len = map.len();
                self.status = NodeStatus::Leading(LeaderState::ProcessingAddition(t, req, map));
                if positives.len() >= threshold as usize {
                    let subsets = combinations_of(&positives, threshold as usize);
                    HandleOutcome::TryReshard(subsets)
                } else if elapsed(now_ms, t) > DISTRIBUTED_PROCESSING_TIMEOUT_MS {
                    self.status = NodeStatus::Ready;
                    HandleOutcome::NoReply
                } else if map_len == self.config.group_size as usize {
                    self.status = NodeStatus::Ready;
                    HandleOutcome::NoReply
                } else {
                    HandleOutcome::NoReply
                }
            },
            other => {
                self.status = other;
                HandleOutcome::NoReply
            },
        }
    }

    /// Takes the shards a successful re-sharing produced, one per member of
    /// the grown set: the leader starts distributing them and tracking
    /// acknowledgements; a short batch leaves the leader collecting.
    pub fn reshard_completed(&mut self, new_shards: Vec<Vec<u8>>, now_ms: u64) -> (r:
        HandleOutcome)
        requires
            old(self).wf(),
            old(self).status matches NodeStatus::Leading(LeaderState::ProcessingAddition(_, _, _)),
        ensures
            final(self).wf(),
            final(self).config == old(self).config,
            final(self).nonce_manager == old(self).nonce_manager,
            final(self).message_queue == old(self).message_queue,
            if new_shards@.len() == old(self).config.group_size as nat + 1 {
                &&& match (old(self).status, final(self).status) {
                    (
                        NodeStatus::Leading(LeaderState::ProcessingAddition(_, req, _)),
                        NodeStatus::Leading(LeaderState::AddingMember(t2, req2, sm)),
                    ) => {
                        &&& t2 == now_ms
                        &&& req2 == req
                        &&& sm@.len() == new_shards@.len()
                        &&& forall|j: int|
                            0 <= j < sm@.len() ==> (#[trigger] sm@[j]).0 == j as NodeId
                                && sm@[j].1@ == new_shards@[j]@
                    },
                    _ => false,
                }
                &&& r is DistributeShards
            } else {
                final(self).status == old(self).status && r is NoReply
            },
    {
        if new_shards.len() == self.config.group_size as usize + 1 {
            let mut shard_map: Vec<(NodeId, Vec<u8>)> = Vec::new();
            let mut j: usize = 0;
            while j < new_shards.len()
                invariant
                    j <= new_shards@.len(),
                    shard_map@.len() == j,
                    forall|i: int|
                        0 <= i < j ==> (#[trigger] shard_map@[i]).0 == i as NodeId
                            && shard_map@[i].1@ == new_shards@[i]@,
                decreases new_shards@.len() - j,
            {
                let sc = new_shards[j].clone();
                proof {
                    assert(sc@ =~= new_shards@[j as int]@) by {
                        assert forall|t: int|
                            0 <= t < new_shards@[j as int]@.len() implies sc@[t]
                            == new_shards@[j as int]@[t] by {
                            assert(cloned::<u8>(new_shards@[j as int]@[t], sc@[t]));
                        }
                    }
                }
                shard_map.push((j as NodeId, sc));
                j += 1;
            }
            let mut cur = NodeStatus::Ready;
            core::mem::swap(&mut self.status, &mut cur);
            match cur {
                NodeStatus::Leading(LeaderState::ProcessingAddition(_, req, _)) => {
                    self.status = NodeStatus::Leading(
                        LeaderState::AddingMember(now_ms, req, shard_map),
                    );
                },
                other => {
                    self.status = other;
                },
            }
            HandleOutcome::DistributeShards
        } else {
            HandleOutcome::NoReply
        }
    }

    /// Takes the leader's delivery of this node's new shard after an
    /// addition: a node waiting on that delivery for the same candidate
    /// stores the member and the shard and acknowledges; anything else is
    /// backlogged.
    pub fn add_node_result_impl(&mut self, from: NodeId, result: AddNodeResult, now_ms: u64) -> (r:
        HandleOutcome)
        requires
            old(self).wf(),
        ensures
            final(self).wf(),
            add_node_result_rel(*old(self), *final(self), r, from, result, now_ms),
    {
        let related: bool = match &self.status {
            NodeStatus::Following(WorkerState::WaitingOnMemberAddResult(_, request)) => {
                request.contact_info == result.new_member.contact_information
            },
            _ => false,
        };
        if related {
            self.status = NodeStatus::Ready;
            HandleOutcome::AcceptNewMember(result.new_member, result.encrypted_quorum_key_shard)
        } else {
            self.backlog_message(NodeMessage::Internal(
                from,
                InterNodeMessage::AddNodeResult(result),
            ));
            HandleOutcome::NoReply
        }
    }

    /// Records one member's acknowledgement of a shard delivery. When the
    /// last outstanding acknowledgement of an addition arrives, the new
    /// member is persisted and the group grows by one; when the last one of
    /// a removal arrives, the member is removed, identifiers above it shift
    /// down, and the group shrinks by one; past the timeout the operation
    /// is abandoned without either.
    pub fn inter_node_ack_impl(&mut self, from: NodeId, ok: bool, now_ms: u64) -> (r:
        HandleOutcome)
        requires
            old(self).wf(),
        ensures
            final(self).wf(),
            inter_node_ack_rel(*old(self), *final(self), r, from, ok, now_ms),
    {
        let mut cur = NodeStatus::Ready;
        core::mem::swap(&mut self.status, &mut cur);
        match cur {
            NodeStatus::Leading(LeaderState::AddingMember(t, req, mut members)) => {
                if ok {
                    remove_key(&mut members, from);
                }
                if members.len() == 0 {
                    self.status = NodeStatus::Ready;
                    if self.config.group_size < 255 {
                        self.config.group_size = self.config.group_size + 1;
                    }
                    HandleOutcome::PersistNewMember
                } else if elapsed(now_ms, t) >= DISTRIBUTED_PROCESSING_TIMEOUT_MS {
                    self.status = NodeStatus::Ready;
                    HandleOutcome::NoReply
                } else {
                    self.status = NodeStatus::Leading(LeaderState::AddingMember(t, req, members));
                    HandleOutcome::NoReply
                }
            },
            NodeStatus::Leading(LeaderState::RemovingMember(t, target, mut members)) => {
                if ok {
                    remove_key(&mut members, from);
                }
                if members.len() == 0 {
                    self.status = NodeStatus::Ready;
                    if self.config.node_id > target {
                        self.config.node_id = self.config.node_id - 1;
                    }
                    if self.config.group_size > 0 {
                        self.config.group_size = self.config.group_size - 1;
                    }
                    HandleOutcome::PersistRemoval(target)
                } else if elapsed(now_ms, t) >= DISTRIBUTED_PROCESSING_TIMEOUT_MS {
                    self.status = NodeStatus::Ready;
                    HandleOutcome::NoReply
                } else {
                    self.status = NodeStatus::Leading(
                        LeaderState::RemovingMember(t, target, members),
                    );
                    HandleOutcome::NoReply
                }
            },
            other => {
                self.status = other;
                HandleOutcome::NoReply
            },
        }
    }
}

impl NodeState {
    /// Takes up or backlogs a leader's opening of a member removal: any
    /// ready node — and the leader itself — challenges the member under
    /// removal with a verification request built from a freshly drawn test
    /// and the current epoch.
    pub fn remove_node_init_impl(
        &mut self,
        from: NodeId,
        remove_node_init: RemoveNodeInit,
        now_ms: u64,
        epoch: u64,
        requester_public_key: Vec<u8>,
    ) -> (r: HandleOutcome)
        requires
            old(self).wf(),
        ensures
            final(self).wf(),
            remove_node_init_rel(*old(self), *final(self), r, from, remove_node_init, now_ms, epoch, requester_public_key),
    {
        let is_ready = matches!(self.status, NodeStatus::Ready);
        let is_processing_removal = matches!(
            self.status,
            NodeStatus::Leading(LeaderState::ProcessingRemoval(_, _, _))
        );
        if is_ready || is_processing_removal {
            let (should_pass, test) = generate_test(requester_public_key);
            let verify_request = VerifyRequest {
                append_only_proof: test.test_proof,
                epoch,
                new_hash: test.new_hash,
                previous_hash: test.previous_hash,
            };
            if is_ready {
                self.status = NodeStatus::Following(
                    WorkerState::TestingRemoveMember(now_ms, from, remove_node_init, should_pass),
                );
            }
            HandleOutcome::RunMemberTest(should_pass, verify_request)
        } else {
            self.backlog_message(NodeMessage::Internal(
                from,
                InterNodeMessage::RemoveNodeInit(remove_node_init),
            ));
            HandleOutcome::NoReply
        }
    }

    /// Ends a member's challenge of the node under removal. No answer from
    /// the transport leaves the challenge pending for the timer. A
    /// verification response whose approval disagrees with what the
    /// challenge called for — or any other message — is a failed test, and
    /// the member approves the removal with its shard; a member that saw
    /// the expected verdict withholds it.
    pub fn remove_node_init_finish(
        &mut self,
        should_pass: bool,
        reply: Option<Option<bool>>,
        shard: Option<Vec<u8>>,
        now_ms: u64,
    ) -> (r: Option<RemoveNodeTestResult>)
        requires
            old(self).wf(),
            (old(self).status matches NodeStatus::Following(
                WorkerState::TestingRemoveMember(_, _, _, _),
            )) || (old(self).status matches NodeStatus::Leading(
                LeaderState::ProcessingRemoval(_, _, _),
            )),
        ensures
            final(self).wf(),
            final(self).config == old(self).config,
            final(self).nonce_manager == old(self).nonce_manager,
            final(self).message_queue == old(self).message_queue,
            reply is None ==> r is None && final(self).status == old(self).status,
            match reply {
                Some(verdict) => {
                    let approve = match verdict {
                        Some(shard_present) => shard_present != should_pass,
                        None => true,
                    };
                    &&& match r {
                        Some(result) => {
                            &&& result.encrypted_quorum_key_shard == (if approve {
                                shard
                            } else {
                                None
                            })
                            &&& match old(self).status {
                                NodeStatus::Following(
                                    WorkerState::TestingRemoveMember(_, _, init, _),
                                ) => result.offending_member == init.node_id && final(self).status
                                    == NodeStatus::Following(
                                    WorkerState::WaitingOnMemberRemoveResult(now_ms, init),
                                ),
                                NodeStatus::Leading(
                                    LeaderState::ProcessingRemoval(_, init, _),
                                ) => result.offending_member == init.node_id && final(self).status
                                    == old(self).status,
                                _ => false,
                            }
                        },
                        None => false,
                    }
                },
                None => true,
            },
    {
        let verdict = match reply {
            Some(v) => v,
            None => {
                return None;
            },
        };
        let approve = match verdict {
            Some(shard_present) => shard_present != should_pass,
            None => true,
        };
        let mut cur = NodeStatus::Ready;
        core::mem::swap(&mut self.status, &mut cur);
        let offending_member: NodeId;
        match cur {
            NodeStatus::Following(WorkerState::TestingRemoveMember(_, _, init, _)) => {
                offending_member = init.node_id;
                self.status = NodeStatus::Following(
                    WorkerState::WaitingOnMemberRemoveResult(now_ms, init),
                );
            },
            other => {
                offending_member = match &other {
                    NodeStatus::Leading(LeaderState::ProcessingRemoval(_, init, _)) => {
                        init.node_id
                    },
                    _ => 0,
                };
                self.status = other;
            },
        }
        Some(RemoveNodeTestResult {
            offending_member,
            encrypted_quorum_key_shard: if approve {
                shard
            } else {
                None
            },
        })
    }

    /// Records a member's verdict on the member under removal; with a
    /// threshold of approving shards the leader asks for a re-sharing over
    /// the shrunk member set; past the timeout, or with every member
    /// answered short of the threshold, the removal is abandoned.
    pub fn remove_node_test_result_impl(
        &mut self,
        from: NodeId,
        test_result: RemoveNodeTestResult,
        now_ms: u64,
        threshold: u8,
    ) -> (r: HandleOutcome)
        requires
            old(self).wf(),
        ensures
            final(self).wf(),
            remove_node_test_result_rel(*old(self), *final(self), r, from, test_result, now_ms, threshold),
    {
        let related: bool = match &self.status {
            NodeStatus::Leading(LeaderState::ProcessingRemoval(_, req, _)) => {
                req.node_id == test_result.offending_member
            },
            _ => false,
        };
        if !related {
            self.backlog_message(NodeMessage::Internal(
                from,
                InterNodeMessage::RemoveNodeTestResult(test_result),
            ));
            return HandleOutcome::NoReply;
        }
        let mut cur = NodeStatus::Ready;
        core::mem::swap(&mut self.status, &mut cur);
        match cur {
            NodeStatus::Leading(LeaderState::ProcessingRemoval(t, req, mut map)) => {
                insert_response(&mut map, from, Some(test_result));
                let positives = collect_remove_positive_shards(&map);
                let map_len = map.len();
                self.status = NodeStatus::Leading(LeaderState::ProcessingRemoval(t, req, map));
                if positives.len() >= threshold as usize {
                    let subsets = combinations_of(&positives, threshold as usize);
                    HandleOutcome::TryReshardRemoval(subsets)
                } else if elapsed(now_ms, t) > DISTRIBUTED_PROCESSING_TIMEOUT_MS {
                    self.status = NodeStatus::Ready;
                    HandleOutcome::NoReply
                } else if map_len == self.config.group_size as usize {
                    self.status = NodeStatus::Ready;
                    HandleOutcome::NoReply
                } else {
                    HandleOutcome::NoReply
                }
            },
            other => {
                self.status = other;
                HandleOutcome::NoReply
            },
        }
    }

    /// Takes the leader's delivery of this node's new shard after a removal:
    /// a node waiting on that delivery for the same member under removal
    /// removes the member from its storage, installs the shard and
    /// acknowledges; anything else is backlogged.
    pub fn remove_node_result_impl(
        &mut self,
        from: NodeId,
        result: RemoveNodeResult,
        now_ms: u64,
    ) -> (r: HandleOutcome)
        requires
            old(self).wf(),
        ensures
            final(self).wf(),
            remove_node_result_rel(*old(self), *final(self), r, from, result, now_ms),
    {
        let related: bool = match &self.status {
            NodeStatus::Following(WorkerState::WaitingOnMemberRemoveResult(_, request)) => {
                request.node_id == result.offending_member
            },
            _ => false,
        };
        if related {
            self.status = NodeStatus::Ready;
            HandleOutcome::AcceptRemovedMember(
                result.offending_member,
                result.encrypted_quorum_key_shard,
            )
        } else {
            self.backlog_message(NodeMessage::Internal(
                from,
                InterNodeMessage::RemoveNodeResult(result),
            ));
            HandleOutcome::NoReply
        }
    }

    /// Takes the shards a successful re-sharing produced after a removal,
    /// one per remaining member: the leader starts distributing them and
    /// tracking acknowledgements; a short batch leaves the leader
    /// collecting.
    pub fn reshard_completed_removal(&mut self, new_shards: Vec<Vec<u8>>, now_ms: u64) -> (r:
        HandleOutcome)
        requires
            old(self).wf(),
            old(self).status matches NodeStatus::Leading(LeaderState::ProcessingRemoval(_, _, _)),
            match old(self).status {
                NodeStatus::Leading(LeaderState::ProcessingRemoval(_, req, _)) => req.node_id
                    < old(self).config.group_size as NodeId,
                _ => false,
            },
            old(self).config.group_size > 0,
        ensures
            final(self).wf(),
            final(self).config == old(self).config,
            final(self).nonce_manager == old(self).nonce_manager,
            final(self).message_queue == old(self).message_queue,
            if new_shards@.len() + 1 == old(self).config.group_size as nat {
                &&& match (old(self).status, final(self).status) {
                    (
                        NodeStatus::Leading(LeaderState::ProcessingRemoval(_, req, _)),
                        NodeStatus::Leading(LeaderState::RemovingMember(t2, target, sm)),
                    ) => {
                        &&& t2 == now_ms
                        &&& target == req.node_id
                        &&& sm@.len() == new_shards@.len()
                        &&& forall|j: int|
                            0 <= j < sm@.len() ==> (#[trigger] sm@[j]).0 == (if j
                                < req.node_id as int {
                                j as NodeId
                            } else {
                                (j + 1) as NodeId
                            }) && sm@[j].1@ == new_shards@[j]@
                    },
                    _ => false,
                }
                &&& r is DistributeShardsRemoval
            } else {
                final(self).status == old(self).status && r is NoReply
            },
    {
        let target: NodeId = match &self.status {
            NodeStatus::Leading(LeaderState::ProcessingRemoval(_, req, _)) => req.node_id,
            _ => 0,
        };
        if new_shards.len() == self.config.group_size as usize - 1 {
            let mut shard_map: Vec<(NodeId, Vec<u8>)> = Vec::new();
            let mut j: usize = 0;
            while j < new_shards.len()
                invariant
                    j <= new_shards@.len(),
                    shard_map@.len() == j,
                    target < 256,
                    forall|i: int|
                        0 <= i < j ==> (#[trigger] shard_map@[i]).0 == (if i < target as int {
                            i as NodeId
                        } else {
                            (i + 1) as NodeId
                        }) && shard_map@[i].1@ == new_shards@[i]@,
                decreases new_shards@.len() - j,
            {
                let member_id: NodeId = if (j as NodeId) < target {
                    j as NodeId
                } else {
                    j as NodeId + 1
                };
                let sc = new_shards[j].clone();
                proof {
                    assert(sc@ =~= new_shards@[j as int]@) by {
                        assert forall|t: int|
                            0 <= t < new_shards@[j as int]@.len() implies sc@[t]
                            == new_shards@[j as int]@[t] by {
                            assert(cloned::<u8>(new_shards@[j as int]@[t], sc@[t]));
                        }
                    }
                }
                shard_map.push((member_id, sc));
                j += 1;
            }
            proof {
                assert forall|a: int, b: int|
                    0 <= a < b < shard_map@.len() implies shard_map@[a].0 != shard_map@[b].0 by {}
            }
            let mut cur = NodeStatus::Ready;
            core::mem::swap(&mut self.status, &mut cur);
            match cur {
                NodeStatus::Leading(LeaderState::ProcessingRemoval(_, req, _)) => {
                    self.status = NodeStatus::Leading(
                        LeaderState::RemovingMember(now_ms, req.node_id, shard_map),
                    );
                },
                other => {
                    self.status = other;
                },
            }
            HandleOutcome::DistributeShardsRemoval
        } else {
            HandleOutcome::NoReply
        }
    }
}

/// The state after one tick of the clock at `now_ms`.
pub open spec fn spec_tick(s: NodeState, now_ms: u64) -> NodeState {
    NodeState {
        status: if spec_timed_out(s.status, now_ms) {
            NodeStatus::Ready
        } else {
            s.status
        },
        ..s
    }
}

impl NodeState {
    /// Handles one message as the node's main loop receives it: the clock
    /// ticks first, then the message is dispatched to its handler; each
    /// arm's effect is that handler's, from the ticked state.
    pub fn handle_message(
        &mut self,
        message: NodeMessage,
        now_ms: u64,
        threshold: u8,
        epoch: u64,
        own_public_key: Vec<u8>,
    ) -> (r: HandleOutcome)
        requires
            old(self).wf(),
        ensures
            final(self).wf(),
            ({
                let mid = spec_tick(*old(self), now_ms);
                match message {
                    NodeMessage::Public(PublicNodeMessage::Verify(v)) => public_verify_rel(
                        mid,
                        *final(self),
                        r,
                        v,
                        now_ms,
                    ),
                    NodeMessage::Public(PublicNodeMessage::Enroll(e)) => public_enroll_rel(
                        mid,
                        *final(self),
                        r,
                        e,
                        now_ms,
                    ),
                    NodeMessage::Public(PublicNodeMessage::Remove(rm)) => public_remove_rel(
                        mid,
                        *final(self),
                        r,
                        rm,
                        now_ms,
                    ),
                    NodeMessage::Internal(from, m) => match m {
                        InterNodeMessage::VerifyRequest(req) => verify_request_rel(
                            mid,
                            *final(self),
                            r,
                            from,
                            req,
                        ),
                        InterNodeMessage::VerifyResponse(resp) => verify_response_rel(
                            mid,
                            *final(self),
                            r,
                            from,
                            resp,
                            now_ms,
                            threshold,
                        ),
                        InterNodeMessage::AddNodeInit(init) => add_node_init_rel(
                            mid,
                            *final(self),
                            r,
                            from,
                            init,
                            now_ms,
                            own_public_key,
                        ),
                        InterNodeMessage::AddNodeTestResult(tr) => add_node_test_result_rel(
                            mid,
                            *final(self),
                            r,
                            from,
                            tr,
                            now_ms,
                            threshold,
                        ),
                        InterNodeMessage::AddNodeResult(res) => add_node_result_rel(
                            mid,
                            *final(self),
                            r,
                            from,
                            res,
                            now_ms,
                        ),
                        InterNodeMessage::NewNodeTest(test) => *final(self) == mid && r
                            == HandleOutcome::RunNewNodeTest(test),
                        InterNodeMessage::NewNodeTestResult(_) => *final(self) == mid
                            && r is NoReply,
                        InterNodeMessage::RemoveNodeInit(init) => remove_node_init_rel(
                            mid,
                            *final(self),
                            r,
                            from,
                            init,
                            now_ms,
                            epoch,
                            own_public_key,
                        ),
                        InterNodeMessage::RemoveNodeTestResult(tr) => remove_node_test_result_rel(
                            mid,
                            *final(self),
                            r,
                            from,
                            tr,
                            now_ms,
                            threshold,
                        ),
                        InterNodeMessage::RemoveNodeResult(res) => remove_node_result_rel(
                            mid,
                            *final(self),
                            r,
                            from,
                            res,
                            now_ms,
                        ),
                        InterNodeMessage::InterNodeAck(ack) => inter_node_ack_rel(
                            mid,
                            *final(self),
                            r,
                            from,
                            ack.ok,
                            now_ms,
                        ),
                        InterNodeMessage::TimerTick => *final(self) == mid && r is NoReply,
                    },
                }
            }),
    {
        self.timer_tick(now_ms);
        proof {
            assert(*self == spec_tick(*old(self), now_ms));
        }
        match message {
            NodeMessage::Public(public_message) => match public_message {
                PublicNodeMessage::Verify(verification) => self.public_verify_impl(
                    verification,
                    now_ms,
                ),
                PublicNodeMessage::Enroll(enroll) => self.public_enroll_impl(enroll, now_ms),
                PublicNodeMessage::Remove(remove) => self.public_remove_impl(remove, now_ms),
            },
            NodeMessage::Internal(from, internal_message) => match internal_message {
                InterNodeMessage::VerifyRequest(verify_request) => self.verify_request_impl(
                    from,
                    verify_request,
                ),
                InterNodeMessage::VerifyResponse(verify_response) => self.verify_response_impl(
                    from,
                    verify_response,
                    now_ms,
                    threshold,
                ),
                InterNodeMessage::AddNodeInit(add_node_init) => self.add_node_init_impl(
                    from,
                    add_node_init,
                    now_ms,
                    own_public_key,
                ),
                InterNodeMessage::AddNodeTestResult(test_result) => self
                    .add_node_test_result_impl(from, test_result, now_ms, threshold),
                InterNodeMessage::AddNodeResult(result) => self.add_node_result_impl(
                    from,
                    result,
                    now_ms,
                ),
                InterNodeMessage::NewNodeTest(test) => HandleOutcome::RunNewNodeTest(test),
                InterNodeMessage::NewNodeTestResult(_test_result) => HandleOutcome::NoReply,
                InterNodeMessage::RemoveNodeInit(remove_node_init) => self.remove_node_init_impl(
                    from,
                    remove_node_init,
                    now_ms,
                    epoch,
                    own_public_key,
                ),
                InterNodeMessage::RemoveNodeTestResult(test_result) => self
                    .remove_node_test_result_impl(from, test_result, now_ms, threshold),
                InterNodeMessage::RemoveNodeResult(result) => self.remove_node_result_impl(
                    from,
                    result,
                    now_ms,
                ),
                InterNodeMessage::InterNodeAck(ack) => self.inter_node_ack_impl(
                    from,
                    ack.ok,
                    now_ms,
                ),
                InterNodeMessage::TimerTick => HandleOutcome::NoReply,
            },
        }
    }
}

/// A commitment can be attempted — and so persisted — only when at least the
/// threshold of members have answered the leader's verification request
/// approvingly, each handing over its key shard for the same new root hash;
/// and every subset the attempt may use holds exactly the threshold of those
/// shards.
pub proof fn lemma_commitment_needs_threshold(
    pre: NodeState,
    post: NodeState,
    r: HandleOutcome,
    from: NodeId,
    vote: Option<VerifyResponse>,
    now_ms: u64,
    threshold: u8,
)
    requires
        pre.wf(),
        post.wf(),
        record_verify_vote_rel(pre, post, r, from, vote, now_ms, threshold),
        r is TryCommit,
    ensures
        match post.status {
            NodeStatus::Leading(LeaderState::ProcessingVerification(_, req, map)) => {
                &&& verify_positive_shards(map@).len() >= threshold as nat
                &&& forall|i: int|
                    0 <= i < map@.len() ==> (match (#[trigger] map@[i]).1 {
                        Some(resp) => resp.verified_hash == req.new_hash,
                        None => true,
                    })
            },
            _ => false,
        },
        match r {
            HandleOutcome::TryCommit(subsets) => forall|i: int|
                0 <= i < subsets@.len() ==> (#[trigger] subsets@[i])@.len() == threshold as nat,
            _ => false,
        },
{
}

/// The shape of a generated challenge as a function of its expected verdict.
/// The proof part is empty either way; an auditor accepts an empty proof
/// exactly between two equal root hashes (nothing changed), so a challenge
/// whose two hashes agree is expected to pass and one whose hashes differ is
/// expected to fail.
pub open spec fn generated_test_shape(should_pass: bool, test: NewNodeTest) -> bool {
    &&& test.test_proof.unchanged_nodes@.len() == 0
    &&& test.test_proof.inserted@.len() == 0
    &&& test.previous_hash@ == crate::hashing::hash_of(Seq::new(32, |i: int| 0u8))
    &&& (should_pass ==> test.new_hash == test.previous_hash)
    &&& (!should_pass ==> test.new_hash@ == crate::hashing::hash_of(Seq::new(32, |i: int| 1u8)))
}

/// The challenge a member builds for a node under test. The expected verdict
/// is drawn at random, so no other node can predict it; the challenge's two
/// root hashes agree exactly when the verdict is that its empty proof
/// passes the audit.
pub fn generate_test(requesters_public_key: Vec<u8>) -> (r: (bool, NewNodeTest))
    ensures
        generated_test_shape(r.0, r.1),
        r.1.requesters_public_key == requesters_public_key,
{
    let should_pass = random_below(2) == 1;
    let zeros: [u8; 32] = [0u8; 32];
    let ones: [u8; 32] = [1u8; 32];
    proof {
        assert(zeros@ =~= Seq::new(32, |i: int| 0u8));
        assert(ones@ =~= Seq::new(32, |i: int| 1u8));
    }
    let previous_hash = crate::hashing::hash_value(zeros.as_slice());
    let new_hash = if should_pass {
        previous_hash
    } else {
        crate::hashing::hash_value(ones.as_slice())
    };
    (
        should_pass,
        NewNodeTest {
            new_hash,
            previous_hash,
            requesters_public_key,
            test_proof: crate::messages::AppendOnlyProof {
                unchanged_nodes: Vec::new(),
                inserted: Vec::new(),
            },
        },
    )
}

} // verus!
