//! The quorum node: configuration, nonces, the timer, the backlog, and the
//! verification and membership flows.

use akd::errors::CommunicationError;
use akd::messages::{
    AddNodeResult, AddNodeTestResult, AppendOnlyProof, EnrollMemberRequest, InterNodeMessage,
    MemberInformation, NodeMessage, PublicNodeMessage, RemoveMemberRequest, RemoveNodeInit,
    RemoveNodeResult, VerifyChangesRequest, VerifyResponse,
};
use akd::node::{
    generate_test, Config, HandleOutcome, LeaderState, NodeState, NodeStatus, WorkerState,
    DISTRIBUTED_PROCESSING_TIMEOUT_MS,
};
use akd::nonces::NonceManager;

#[test]
fn config_disabled() {
    let config = Config::disabled();
    assert!(config.is_disabled());
}

fn verify_request() -> VerifyChangesRequest {
    VerifyChangesRequest {
        previous_hash: [1u8; 32],
        new_hash: [2u8; 32],
        append_only_proof: AppendOnlyProof { unchanged_nodes: Vec::new(), inserted: Vec::new() },
        epoch: 7,
    }
}

fn positive_response() -> VerifyResponse {
    VerifyResponse { verified_hash: [2u8; 32], encrypted_quorum_key_shard: Some(vec![9u8, 9u8]) }
}

fn negative_response() -> VerifyResponse {
    VerifyResponse { verified_hash: [2u8; 32], encrypted_quorum_key_shard: None }
}

#[test]
fn outbound_nonces_strictly_increase() {
    let mut nonces = NonceManager::new();
    let first = nonces.get_next_outgoing_nonce(3);
    let second = nonces.get_next_outgoing_nonce(3);
    let third = nonces.get_next_outgoing_nonce(3);
    assert!(first < second && second < third);
    // directions are independent
    assert_eq!(nonces.get_next_outgoing_nonce(4), first);
}

#[test]
fn inbound_nonces_must_advance() {
    let mut nonces = NonceManager::new();
    assert!(nonces.validate_nonce(5, 10).is_ok());
    assert!(nonces.validate_nonce(5, 11).is_ok());
    // a replayed or reordered nonce is rejected
    assert!(matches!(
        nonces.validate_nonce(5, 11),
        Err(CommunicationError::NonceError(_, 11, _))
    ));
    assert!(matches!(
        nonces.validate_nonce(5, 3),
        Err(CommunicationError::NonceError(_, 3, _))
    ));
    // another sender is unaffected
    assert!(nonces.validate_nonce(6, 1).is_ok());
}

#[test]
fn inbound_frames_for_other_nodes_are_rejected() {
    let mut state = NodeState::new(Config { node_id: 1, group_size: 4 });
    assert!(matches!(
        state.accept_inbound(2, 0, 1, vec![1u8]),
        Err(CommunicationError::ReceiveError(_))
    ));
    let message = state.accept_inbound(1, 0, 1, vec![1u8]).unwrap();
    assert_eq!(message.from, 0);
    assert_eq!(message.nonce, 1);
}

#[test]
fn leading_status_times_out_to_ready() {
    let mut state = NodeState::new(Config { node_id: 0, group_size: 4 });
    let outcome = state.public_verify_impl(verify_request(), 1_000);
    assert!(matches!(outcome, HandleOutcome::BroadcastVerify));
    assert!(matches!(state.status, NodeStatus::Leading(_)));
    // a tick before the timeout leaves the leader in place
    state.timer_tick(1_000 + DISTRIBUTED_PROCESSING_TIMEOUT_MS - 1);
    assert!(matches!(state.status, NodeStatus::Leading(_)));
    // a tick at the timeout forces it back to ready
    state.timer_tick(1_000 + DISTRIBUTED_PROCESSING_TIMEOUT_MS);
    assert!(matches!(state.status, NodeStatus::Ready));
}

#[test]
fn backlog_keeps_arrival_order() {
    let mut state = NodeState::new(Config { node_id: 0, group_size: 4 });
    // occupy the node so that public requests are backlogged
    state.public_verify_impl(verify_request(), 0);
    let enroll = EnrollMemberRequest { public_key: vec![1u8], contact_information: "a".to_string() };
    let remove = RemoveMemberRequest { node_id: 2 };
    state.public_enroll_impl(enroll.clone(), 1);
    state.public_remove_impl(remove, 2);
    assert_eq!(
        state.dequeue_backlogged(),
        Some(NodeMessage::Public(PublicNodeMessage::Enroll(enroll)))
    );
    assert_eq!(
        state.dequeue_backlogged(),
        Some(NodeMessage::Public(PublicNodeMessage::Remove(remove)))
    );
    assert_eq!(state.dequeue_backlogged(), None);
}

#[test]
fn verification_with_full_approval_commits_once() {
    let mut state = NodeState::new(Config { node_id: 0, group_size: 4 });
    let outcome = state.public_verify_impl(verify_request(), 0);
    assert!(matches!(outcome, HandleOutcome::BroadcastVerify));

    // two approvals are below the threshold of three
    assert!(matches!(
        state.record_verify_vote(0, Some(positive_response()), 10, 3),
        HandleOutcome::NoReply
    ));
    assert!(matches!(
        state.record_verify_vote(1, Some(positive_response()), 20, 3),
        HandleOutcome::NoReply
    ));
    // the third approval asks for a commitment over every three-shard subset
    match state.record_verify_vote(2, Some(positive_response()), 30, 3) {
        HandleOutcome::TryCommit(subsets) => {
            assert_eq!(subsets.len(), 1);
            assert_eq!(subsets[0].len(), 3);
        },
        other => panic!("expected a commitment attempt, got {:?}", other),
    }
    // the runtime persists the commitment and reports success: ready again
    state.commitment_attempt_result(true, 31);
    assert!(matches!(state.status, NodeStatus::Ready));
}

#[test]
fn verification_without_quorum_times_out() {
    let mut state = NodeState::new(Config { node_id: 0, group_size: 4 });
    state.public_verify_impl(verify_request(), 0);
    state.record_verify_vote(0, Some(positive_response()), 10, 3);
    state.record_verify_vote(1, Some(negative_response()), 20, 3);
    assert!(matches!(state.status, NodeStatus::Leading(_)));
    // a late vote past the timeout abandons the verification: no commitment
    let outcome = state.record_verify_vote(
        2,
        Some(negative_response()),
        DISTRIBUTED_PROCESSING_TIMEOUT_MS + 1,
        3,
    );
    assert!(matches!(outcome, HandleOutcome::NoReply));
    assert!(matches!(state.status, NodeStatus::Ready));
}

#[test]
fn verification_fails_when_all_answer_short_of_threshold() {
    let mut state = NodeState::new(Config { node_id: 0, group_size: 3 });
    state.public_verify_impl(verify_request(), 0);
    state.record_verify_vote(0, Some(negative_response()), 1, 2);
    state.record_verify_vote(1, Some(negative_response()), 2, 2);
    let outcome = state.record_verify_vote(2, Some(negative_response()), 3, 2);
    assert!(matches!(outcome, HandleOutcome::NoReply));
    assert!(matches!(state.status, NodeStatus::Ready));
}

#[test]
fn follower_verdict_carries_shard_only_on_passing_audit() {
    let mut state = NodeState::new(Config { node_id: 1, group_size: 4 });
    let request = akd::messages::VerifyRequest {
        previous_hash: [1u8; 32],
        new_hash: [2u8; 32],
        append_only_proof: AppendOnlyProof { unchanged_nodes: Vec::new(), inserted: Vec::new() },
        epoch: 7,
    };
    let outcome = state.verify_request_impl(0, request);
    assert!(matches!(outcome, HandleOutcome::RunAudit));
    assert!(matches!(state.status, NodeStatus::Following(WorkerState::Verifying(0, _))));
    let response = state.verify_request_finish(true, Some(vec![5u8]));
    assert_eq!(response.verified_hash, [2u8; 32]);
    assert_eq!(response.encrypted_quorum_key_shard, Some(vec![5u8]));
    assert!(matches!(state.status, NodeStatus::Ready));

    // a failing audit withholds the shard
    let request = akd::messages::VerifyRequest {
        previous_hash: [1u8; 32],
        new_hash: [2u8; 32],
        append_only_proof: AppendOnlyProof { unchanged_nodes: Vec::new(), inserted: Vec::new() },
        epoch: 8,
    };
    state.verify_request_impl(0, request);
    let response = state.verify_request_finish(false, Some(vec![5u8]));
    assert_eq!(response.encrypted_quorum_key_shard, None);
}

#[test]
fn generated_challenges_tie_the_test_to_the_verdict() {
    let (should_pass, test) = generate_test(vec![1u8, 2u8]);
    assert_eq!(test.requesters_public_key, vec![1u8, 2u8]);
    assert!(test.test_proof.unchanged_nodes.is_empty());
    assert!(test.test_proof.inserted.is_empty());
    // the challenge's hashes agree exactly when it is expected to pass
    assert_eq!(should_pass, test.previous_hash == test.new_hash);

    // a free node judges the challenge by the audit alone
    let state = NodeState::new(Config { node_id: 1, group_size: 4 });
    assert!(!state.new_node_test_impl(false).test_pass);
    assert!(state.new_node_test_impl(true).test_pass);
}

#[test]
fn any_ready_peer_challenges_a_candidate() {
    let init = akd::messages::AddNodeInit {
        public_key: vec![7u8],
        contact_info: "candidate".to_string(),
    };
    let mut state = NodeState::new(Config { node_id: 2, group_size: 4 });
    // the opening comes from the leader, node 0, not from this node
    let outcome = state.add_node_init_impl(0, init, 100, vec![3u8]);
    assert!(matches!(outcome, HandleOutcome::RunCandidateTest(_, _)));
    assert!(matches!(
        state.status,
        NodeStatus::Following(WorkerState::TestingAddMember(_, 0, _, _))
    ));
}

#[test]
fn any_ready_peer_challenges_a_member_under_removal() {
    let mut state = NodeState::new(Config { node_id: 2, group_size: 4 });
    let outcome = state.remove_node_init_impl(0, RemoveNodeInit { node_id: 1 }, 100, 7, vec![3u8]);
    match outcome {
        HandleOutcome::RunMemberTest(_, request) => assert_eq!(request.epoch, 7),
        other => panic!("expected a member test, got {:?}", other),
    }
    assert!(matches!(
        state.status,
        NodeStatus::Following(WorkerState::TestingRemoveMember(_, 0, _, _))
    ));
}

#[test]
fn follower_accepts_removal_delivery_and_acks() {
    let mut state = NodeState::new(Config { node_id: 2, group_size: 4 });
    let outcome = state.remove_node_init_impl(0, RemoveNodeInit { node_id: 1 }, 0, 7, vec![3u8]);
    let should_pass = match outcome {
        HandleOutcome::RunMemberTest(should_pass, _) => should_pass,
        other => panic!("expected a member test, got {:?}", other),
    };
    // the challenge ended; the node waits on the leader's shard delivery
    state.remove_node_init_finish(should_pass, Some(Some(should_pass)), Some(vec![9u8]), 10);
    assert!(matches!(
        state.status,
        NodeStatus::Following(WorkerState::WaitingOnMemberRemoveResult(_, _))
    ));
    let delivery = RemoveNodeResult {
        offending_member: 1,
        encrypted_quorum_key_shard: Some(vec![4u8]),
    };
    match state.remove_node_result_impl(0, delivery, 20) {
        HandleOutcome::AcceptRemovedMember(target, shard) => {
            assert_eq!(target, 1);
            assert_eq!(shard, Some(vec![4u8]));
        },
        other => panic!("expected the removal to be accepted, got {:?}", other),
    }
    assert!(matches!(state.status, NodeStatus::Ready));
}

#[test]
fn backlog_is_bounded_and_drops_the_newest() {
    let mut state = NodeState::new(Config { node_id: 0, group_size: 4 });
    // occupy the node so that public requests are backlogged
    state.public_verify_impl(verify_request(), 0);
    for i in 0..40u64 {
        state.public_remove_impl(RemoveMemberRequest { node_id: i }, 1);
    }
    let mut drained = 0u64;
    while let Some(message) = state.dequeue_backlogged() {
        // arrival order is kept for the messages that fit
        assert_eq!(
            message,
            NodeMessage::Public(PublicNodeMessage::Remove(RemoveMemberRequest {
                node_id: drained
            }))
        );
        drained += 1;
    }
    assert_eq!(drained, 25);
}

#[test]
fn candidate_test_approval_follows_the_expected_verdict() {
    let init = akd::messages::AddNodeInit {
        public_key: vec![7u8],
        contact_info: "candidate".to_string(),
    };
    let mut state = NodeState::new(Config { node_id: 1, group_size: 4 });
    let outcome = state.add_node_init_impl(1, init, 100, vec![3u8]);
    let should_pass = match outcome {
        HandleOutcome::RunCandidateTest(should_pass, _) => should_pass,
        other => panic!("expected a candidate test, got {:?}", other),
    };
    // the candidate answers as the challenge calls for: approve with a shard
    let result = state.add_node_init_finish(should_pass, Some(should_pass), Some(vec![8u8]), 130);
    assert_eq!(result.contact_info, "candidate");
    assert_eq!(result.encrypted_quorum_key_shard, Some(vec![8u8]));
    assert!(matches!(
        state.status,
        NodeStatus::Following(WorkerState::WaitingOnMemberAddResult(_, _))
    ));

    // a candidate that answers wrongly is disapproved
    let init = akd::messages::AddNodeInit {
        public_key: vec![7u8],
        contact_info: "other".to_string(),
    };
    let mut state = NodeState::new(Config { node_id: 1, group_size: 4 });
    let outcome = state.add_node_init_impl(1, init, 100, vec![3u8]);
    let should_pass = match outcome {
        HandleOutcome::RunCandidateTest(should_pass, _) => should_pass,
        other => panic!("expected a candidate test, got {:?}", other),
    };
    let result = state.add_node_init_finish(should_pass, Some(!should_pass), Some(vec![8u8]), 130);
    assert_eq!(result.encrypted_quorum_key_shard, None);
}

#[test]
fn member_addition_end_to_end_grows_the_group() {
    let mut leader = NodeState::new(Config { node_id: 0, group_size: 4 });
    let enroll = EnrollMemberRequest {
        public_key: vec![7u8],
        contact_information: "candidate".to_string(),
    };
    let outcome = leader.public_enroll_impl(enroll, 0);
    assert!(matches!(outcome, HandleOutcome::BroadcastAddInit));

    // three of the four members approve with their shards
    let approve = |id: u8| AddNodeTestResult {
        contact_info: "candidate".to_string(),
        encrypted_quorum_key_shard: Some(vec![id]),
    };
    assert!(matches!(
        leader.add_node_test_result_impl(1, approve(1), 10, 3),
        HandleOutcome::NoReply
    ));
    assert!(matches!(
        leader.add_node_test_result_impl(2, approve(2), 20, 3),
        HandleOutcome::NoReply
    ));
    let subsets = match leader.add_node_test_result_impl(3, approve(3), 30, 3) {
        HandleOutcome::TryReshard(subsets) => subsets,
        other => panic!("expected a re-sharing, got {:?}", other),
    };
    assert!(subsets.iter().all(|s| s.len() == 3));

    // the cryptographer produced five shards, one per member of the grown set
    let new_shards: Vec<Vec<u8>> = (0u8..5u8).map(|i| vec![i, i]).collect();
    let outcome = leader.reshard_completed(new_shards, 40);
    assert!(matches!(outcome, HandleOutcome::DistributeShards));
    assert!(matches!(leader.status, NodeStatus::Leading(LeaderState::AddingMember(_, _, _))));

    // every member acknowledges its shard; the last one closes the addition
    for id in 0u64..4u64 {
        assert!(matches!(
            leader.inter_node_ack_impl(id, true, 50 + id),
            HandleOutcome::NoReply
        ));
    }
    let outcome = leader.inter_node_ack_impl(4, true, 60);
    assert!(matches!(outcome, HandleOutcome::PersistNewMember));
    assert!(matches!(leader.status, NodeStatus::Ready));
    assert_eq!(leader.config.group_size, 5);
}

#[test]
fn member_receiving_its_shard_stores_the_new_member() {
    let init = akd::messages::AddNodeInit {
        public_key: vec![7u8],
        contact_info: "candidate".to_string(),
    };
    let mut state = NodeState::new(Config { node_id: 2, group_size: 4 });
    let outcome = state.add_node_init_impl(2, init, 0, vec![1u8]);
    let should_pass = match outcome {
        HandleOutcome::RunCandidateTest(should_pass, _) => should_pass,
        other => panic!("expected a candidate test, got {:?}", other),
    };
    state.add_node_init_finish(should_pass, Some(should_pass), Some(vec![9u8]), 10);

    let delivery = AddNodeResult {
        encrypted_quorum_key_shard: Some(vec![4u8]),
        new_member: MemberInformation {
            node_id: 4,
            public_key: vec![7u8],
            contact_information: "candidate".to_string(),
        },
    };
    match state.add_node_result_impl(0, delivery, 20) {
        HandleOutcome::AcceptNewMember(member, shard) => {
            assert_eq!(member.node_id, 4);
            assert_eq!(shard, Some(vec![4u8]));
        },
        other => panic!("expected the member to be accepted, got {:?}", other),
    }
    assert!(matches!(state.status, NodeStatus::Ready));
}

#[test]
fn member_removal_end_to_end_shrinks_the_group() {
    let mut leader = NodeState::new(Config { node_id: 3, group_size: 4 });
    let outcome = leader.public_remove_impl(RemoveMemberRequest { node_id: 1 }, 0);
    assert!(matches!(outcome, HandleOutcome::BroadcastRemoveInit));

    let approve = |id: u8| akd::messages::RemoveNodeTestResult {
        offending_member: 1,
        encrypted_quorum_key_shard: Some(vec![id]),
    };
    leader.remove_node_test_result_impl(0, approve(0), 10, 3);
    leader.remove_node_test_result_impl(2, approve(2), 20, 3);
    let subsets = match leader.remove_node_test_result_impl(3, approve(3), 30, 3) {
        HandleOutcome::TryReshardRemoval(subsets) => subsets,
        other => panic!("expected a re-sharing, got {:?}", other),
    };
    assert!(subsets.iter().all(|s| s.len() == 3));

    // three shards remain, for members 0, 2 and 3
    let new_shards: Vec<Vec<u8>> = (0u8..3u8).map(|i| vec![i]).collect();
    let outcome = leader.reshard_completed_removal(new_shards, 40);
    assert!(matches!(outcome, HandleOutcome::DistributeShardsRemoval));

    for id in [0u64, 2u64] {
        assert!(matches!(
            leader.inter_node_ack_impl(id, true, 50),
            HandleOutcome::NoReply
        ));
    }
    let outcome = leader.inter_node_ack_impl(3, true, 60);
    assert!(matches!(outcome, HandleOutcome::PersistRemoval(1)));
    assert!(matches!(leader.status, NodeStatus::Ready));
    assert_eq!(leader.config.group_size, 3);
    // this node's identifier shifts down past the removed member
    assert_eq!(leader.config.node_id, 2);
}

#[test]
fn handle_message_dispatches_and_ticks() {
    let mut state = NodeState::new(Config { node_id: 0, group_size: 4 });
    // a verification request from a peer is taken up after the tick
    let outcome = state.handle_message(
        NodeMessage::Internal(2, InterNodeMessage::TimerTick),
        5,
        3,
        7,
        vec![1u8],
    );
    assert!(matches!(outcome, HandleOutcome::NoReply));

    let outcome = state.handle_message(
        NodeMessage::Public(PublicNodeMessage::Verify(verify_request())),
        10,
        3,
        7,
        vec![1u8],
    );
    assert!(matches!(outcome, HandleOutcome::BroadcastVerify));

    // while leading, a second public request is backlogged
    let outcome = state.handle_message(
        NodeMessage::Public(PublicNodeMessage::Remove(RemoveMemberRequest { node_id: 2 })),
        20,
        3,
        7,
        vec![1u8],
    );
    assert!(matches!(outcome, HandleOutcome::NoReply));
    assert!(matches!(state.status, NodeStatus::Leading(_)));

    // far later, the tick inside the dispatcher clears the stale leadership
    let outcome = state.handle_message(
        NodeMessage::Internal(0, InterNodeMessage::TimerTick),
        10 + DISTRIBUTED_PROCESSING_TIMEOUT_MS,
        3,
        7,
        vec![1u8],
    );
    assert!(matches!(outcome, HandleOutcome::NoReply));
    assert!(matches!(state.status, NodeStatus::Ready));
    assert_eq!(state.dequeue_backlogged(), Some(NodeMessage::Public(PublicNodeMessage::Remove(
        RemoveMemberRequest { node_id: 2 },
    ))));
}

#[test]
fn reception_timeout_carries_per_node_jitter() {
    let t = akd::node::get_this_reception_timeout_ms();
    assert!((1000..1200).contains(&t));
}
