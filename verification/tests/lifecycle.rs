//! Bounty lifecycle behavior: creation with election, answer collection,
//! quorum closing, cancellation, re-election, and the partition invariant.

use coordinator::bounty::{BountyStatus, NodeResponseStatus, SupportedDownloadProtocols};
use coordinator::coordinator::{Coordinator, MIN_REWARD, MIN_STORAGE};
use coordinator::errors::CoordinatorError;
use coordinator::events::EventLogVariant;
use coordinator::MIN_NODE_DEPOSIT;

const NOW: u64 = 1_700_000_001_234;
const BYTE_COST: u128 = 1;

fn signer() -> String {
    "alice.test".to_string()
}

fn coord_id() -> String {
    "coordinator.test".to_string()
}

fn setup(n: usize) -> Coordinator {
    let mut c = Coordinator::init();
    for k in 0..n {
        let name = format!("n{}", k);
        c.register_node(name, 60_000_000, true, true, signer(), MIN_NODE_DEPOSIT, NOW)
            .unwrap();
    }
    c
}

fn draws(c: &Coordinator) -> Vec<u64> {
    vec![0; c.node_queue.len()]
}

fn make_bounty(c: &mut Coordinator, min_nodes: u64) -> String {
    let d = draws(c);
    let (bounty, _event) = c
        .create_bounty(
            "https://example.test/work".to_string(),
            SupportedDownloadProtocols::HTTPS,
            min_nodes,
            30,
            false,
            false,
            MIN_STORAGE,
            MIN_REWARD,
            signer(),
            coord_id(),
            MIN_STORAGE + MIN_REWARD,
            NOW,
            &d,
        )
        .unwrap();
    bounty.id
}

fn partition_counts_add_up(c: &Coordinator, bounty_id: &str) {
    let counts = c.get_bounty_answer_counts(bounty_id.to_string()).unwrap();
    let elected = c.get_bounty_elected_nodes(bounty_id.to_string()).unwrap();
    assert_eq!(
        counts.successful_nodes + counts.failed_nodes + counts.rejected_nodes
            + counts.unanswered_nodes,
        elected.len() as u64,
    );
}

#[test]
fn test_create_bounty() {
    let mut c = setup(5);
    let id = make_bounty(&mut c, 2);
    assert_eq!(c.get_bounty_count(), 1, "bounty count should be 1");
    assert_eq!(id, format!("0-{}.bounty.{}", NOW % 1_000_000_000, signer()));
    let bounty = c.get_bounty(id.clone()).unwrap();
    assert_eq!(bounty.status, BountyStatus::Pending);
    assert_eq!(bounty.min_nodes, 2);
    // The padded election: ceil(2 * 1.25) = 3 nodes drawn.
    assert_eq!(bounty.elected_nodes.len(), 3);
    // Freshly created: nobody has answered.
    assert_eq!(bounty.unanswered_nodes, bounty.elected_nodes);
    partition_counts_add_up(&c, &id);
    assert_eq!(c.get_bounties_for_owner_count(signer()), 1);
}

#[test]
fn creation_event_carries_the_roster() {
    let mut c = setup(5);
    let d = draws(&c);
    let (bounty, event) = c
        .create_bounty(
            "ipfs://payload".to_string(),
            SupportedDownloadProtocols::IPFS,
            2,
            30,
            false,
            false,
            MIN_STORAGE,
            MIN_REWARD,
            signer(),
            coord_id(),
            MIN_STORAGE + MIN_REWARD,
            NOW,
            &d,
        )
        .unwrap();
    assert_eq!(event.standard, "NEP-297");
    assert_eq!(event.version, "1.0.0");
    match event.event {
        EventLogVariant::BountyCreated(log) => {
            assert_eq!(log.coordinator_id, coord_id());
            assert_eq!(log.bounty_id, bounty.id);
            assert_eq!(log.node_ids, bounty.elected_nodes);
            assert!(log.message.is_none());
        },
        _ => panic!("expected a creation event"),
    }
}

#[test]
fn creation_validates_funds_and_pool() {
    let mut c = setup(5);
    let d = draws(&c);
    let mismatched = c.create_bounty(
        "x".to_string(),
        SupportedDownloadProtocols::EMPTY,
        2,
        30,
        false,
        false,
        MIN_STORAGE,
        MIN_REWARD,
        signer(),
        coord_id(),
        MIN_STORAGE,
        NOW,
        &d,
    );
    assert_eq!(mismatched.unwrap_err(), CoordinatorError::FundsMismatch);
    let small_storage = c.create_bounty(
        "x".to_string(),
        SupportedDownloadProtocols::EMPTY,
        2,
        30,
        false,
        false,
        MIN_STORAGE - 1,
        MIN_REWARD,
        signer(),
        coord_id(),
        MIN_STORAGE - 1 + MIN_REWARD,
        NOW,
        &d,
    );
    assert_eq!(small_storage.unwrap_err(), CoordinatorError::StorageBelowMinimum);
    let small_reward = c.create_bounty(
        "x".to_string(),
        SupportedDownloadProtocols::EMPTY,
        2,
        30,
        false,
        false,
        MIN_STORAGE,
        MIN_REWARD - 1,
        signer(),
        coord_id(),
        MIN_STORAGE + MIN_REWARD - 1,
        NOW,
        &d,
    );
    assert_eq!(small_reward.unwrap_err(), CoordinatorError::RewardBelowMinimum);
    let mut few = setup(2);
    let d2 = draws(&few);
    let not_enough = few.create_bounty(
        "x".to_string(),
        SupportedDownloadProtocols::EMPTY,
        2,
        30,
        false,
        false,
        MIN_STORAGE,
        MIN_REWARD,
        signer(),
        coord_id(),
        MIN_STORAGE + MIN_REWARD,
        NOW,
        &d2,
    );
    assert_eq!(not_enough.unwrap_err(), CoordinatorError::NotEnoughNodes);
}

#[test]
fn election_avoids_unqualified_nodes() {
    // Four GPU nodes and two without: a GPU bounty elects only capable ones.
    let mut c = Coordinator::init();
    for k in 0..4 {
        c.register_node(format!("g{}", k), 60_000_000, true, true, signer(), MIN_NODE_DEPOSIT, NOW)
            .unwrap();
    }
    for k in 0..2 {
        c.register_node(
            format!("plain{}", k),
            60_000_000,
            true,
            false,
            signer(),
            MIN_NODE_DEPOSIT,
            NOW,
        )
        .unwrap();
    }
    let d = draws(&c);
    let (bounty, _) = c
        .create_bounty(
            "x".to_string(),
            SupportedDownloadProtocols::GIT,
            2,
            30,
            false,
            true,
            MIN_STORAGE,
            MIN_REWARD,
            signer(),
            coord_id(),
            MIN_STORAGE + MIN_REWARD,
            NOW,
            &d,
        )
        .unwrap();
    assert_eq!(bounty.elected_nodes.len(), 3);
    for (i, id) in bounty.elected_nodes.iter().enumerate() {
        let node = c.get_node(id.clone()).unwrap();
        assert!(node.allow_gpu, "every elected node must be qualified");
        for other in bounty.elected_nodes.iter().skip(i + 1) {
            assert_ne!(id, other, "no node may be elected twice");
        }
    }
}

#[test]
fn election_fails_without_enough_qualified_nodes() {
    // Three slots wanted, but only two nodes tolerate the timeout.
    let mut c = Coordinator::init();
    for k in 0..2 {
        c.register_node(format!("ok{}", k), 60_000_000, true, true, signer(), MIN_NODE_DEPOSIT, NOW)
            .unwrap();
    }
    for k in 0..3 {
        c.register_node(format!("slow{}", k), 1, true, true, signer(), MIN_NODE_DEPOSIT, NOW)
            .unwrap();
    }
    let d = draws(&c);
    let res = c.create_bounty(
        "x".to_string(),
        SupportedDownloadProtocols::EMPTY,
        2,
        30,
        false,
        false,
        MIN_STORAGE,
        MIN_REWARD,
        signer(),
        coord_id(),
        MIN_STORAGE + MIN_REWARD,
        NOW,
        &d,
    );
    assert_eq!(res.unwrap_err(), CoordinatorError::NotEnoughQualifiedNodes);
    assert_eq!(c.get_bounty_count(), 0);
}

#[test]
fn success_quorum_closes_and_penalizes_the_silent_node() {
    // Five nodes registered, a quorum of two: the election draws three.
    let mut c = setup(5);
    let id = make_bounty(&mut c, 2);
    let elected = c.get_bounty_elected_nodes(id.clone()).unwrap();
    assert_eq!(elected.len(), 3);
    let (_r1, closed1) = c
        .post_answer(
            id.clone(),
            elected[0].clone(),
            "42".to_string(),
            "".to_string(),
            NodeResponseStatus::SUCCESS,
            signer(),
            coord_id(),
            BYTE_COST,
            NOW + 1,
        )
        .unwrap();
    assert!(closed1.is_none());
    partition_counts_add_up(&c, &id);
    let (_r2, closed2) = c
        .post_answer(
            id.clone(),
            elected[1].clone(),
            "42".to_string(),
            "".to_string(),
            NodeResponseStatus::SUCCESS,
            signer(),
            coord_id(),
            BYTE_COST,
            NOW + 2,
        )
        .unwrap();
    let receipt = closed2.expect("the second success reaches the quorum");
    let bounty = c.get_bounty(id.clone()).unwrap();
    assert_eq!(bounty.status, BountyStatus::Success, "bounty should be completed");
    // Under the disjoint partition, both quorums can never be met at once.
    assert!((bounty.failed_nodes.len() as u64) < bounty.min_nodes);
    partition_counts_add_up(&c, &id);
    // The silent third node is penalized once.
    let silent = c.get_node(elected[2].clone()).unwrap();
    assert_eq!(silent.unanswered_runs, 1);
    assert_eq!(silent.last_unanswered, NOW + 2);
    // The storage refund is the prepaid budget minus the two records.
    assert_eq!(receipt.refund.recipient, signer());
    assert_eq!(receipt.refund.amount, MIN_STORAGE - 2 * 80 * BYTE_COST);
    match receipt.event.event {
        EventLogVariant::BountyCompleted(log) => {
            assert_eq!(log.outcome, BountyStatus::Success);
            assert_eq!(log.node_ids, elected);
            assert_eq!(log.reward_recipients, vec![elected[0].clone(), elected[1].clone()]);
        },
        _ => panic!("expected a completion event"),
    }
    assert_eq!(c.get_total_completed_bounties(), 1);
    // The tally groups the two answers under one solution.
    let tally = c.get_bounty_result(id).unwrap();
    assert_eq!(tally, vec![("42".to_string(), 2)]);
}

#[test]
fn test_bounty_full_lifecycle() {
    let mut c = setup(5);
    let id = make_bounty(&mut c, 2);
    assert_eq!(c.get_bounty_count(), 1, "bounty count should be 1");
    let elected = c.get_bounty_elected_nodes(id.clone()).unwrap();
    for k in 0..2 {
        c.post_answer(
            id.clone(),
            elected[k].clone(),
            "".to_string(),
            "went wrong".to_string(),
            NodeResponseStatus::FAILURE,
            signer(),
            coord_id(),
            BYTE_COST,
            NOW + 3,
        )
        .unwrap();
    }
    let bounty = c.get_bounty(id.clone()).expect("bounty should exist");
    assert!(bounty.status != BountyStatus::Pending, "bounty should be completed");
    assert_eq!(bounty.status, BountyStatus::Failed);
    let counts = c.get_bounty_answer_counts(id.clone()).unwrap();
    assert!(counts.answers >= 2, "bounty should have at least min_nodes answers");
    assert!(
        counts.failed_nodes >= 2,
        "bounty should have at least min_nodes failed responses"
    );
    let answer = c.get_answer(id.clone(), elected[0].clone()).unwrap();
    assert_eq!(answer.status, NodeResponseStatus::FAILURE);
    assert_eq!(answer.message, "went wrong");
}

#[test]
fn double_submission_is_refused_and_changes_nothing() {
    let mut c = setup(5);
    let id = make_bounty(&mut c, 2);
    let elected = c.get_bounty_elected_nodes(id.clone()).unwrap();
    c.post_answer(
        id.clone(),
        elected[0].clone(),
        "first".to_string(),
        "".to_string(),
        NodeResponseStatus::SUCCESS,
        signer(),
        coord_id(),
        BYTE_COST,
        NOW + 1,
    )
    .unwrap();
    let counts_before = c.get_bounty_answer_counts(id.clone()).unwrap();
    let node_before = c.get_node(elected[0].clone()).unwrap();
    let again = c.post_answer(
        id.clone(),
        elected[0].clone(),
        "second".to_string(),
        "".to_string(),
        NodeResponseStatus::FAILURE,
        signer(),
        coord_id(),
        BYTE_COST,
        NOW + 2,
    );
    assert_eq!(again.unwrap_err(), CoordinatorError::AlreadyAnswered);
    let counts_after = c.get_bounty_answer_counts(id.clone()).unwrap();
    assert_eq!(counts_before, counts_after);
    let node_after = c.get_node(elected[0].clone()).unwrap();
    assert_eq!(node_before, node_after);
    // The recorded answer is still the first one.
    let ans = c.call_get_answer(id, elected[0].clone(), signer(), coord_id()).unwrap();
    assert_eq!(ans.solution, "first");
}

#[test]
fn outsiders_and_closed_bounties_take_no_answers() {
    let mut c = setup(6);
    let id = make_bounty(&mut c, 2);
    let outsider = format!("n5.node.{}", signer());
    let elected = c.get_bounty_elected_nodes(id.clone()).unwrap();
    if !elected.contains(&outsider) {
        let res = c.post_answer(
            id.clone(),
            outsider,
            "x".to_string(),
            "".to_string(),
            NodeResponseStatus::SUCCESS,
            signer(),
            coord_id(),
            BYTE_COST,
            NOW,
        );
        assert_eq!(res.unwrap_err(), CoordinatorError::NotElected);
    }
    c.cancel_bounty(id.clone(), signer(), coord_id(), NOW + 5).unwrap();
    let res = c.post_answer(
        id,
        elected[0].clone(),
        "x".to_string(),
        "".to_string(),
        NodeResponseStatus::SUCCESS,
        signer(),
        coord_id(),
        BYTE_COST,
        NOW + 6,
    );
    assert_eq!(res.unwrap_err(), CoordinatorError::BountyNotPending);
}

#[test]
fn storage_exhaustion_rejects_the_answer() {
    let mut c = setup(5);
    let id = make_bounty(&mut c, 2);
    let elected = c.get_bounty_elected_nodes(id.clone()).unwrap();
    // At this price one record would overshoot the whole budget.
    let pricey: u128 = MIN_STORAGE / 40;
    let res = c.post_answer(
        id.clone(),
        elected[0].clone(),
        "x".to_string(),
        "".to_string(),
        NodeResponseStatus::SUCCESS,
        signer(),
        coord_id(),
        pricey,
        NOW,
    );
    assert_eq!(res.unwrap_err(), CoordinatorError::StorageExhausted);
    partition_counts_add_up(&c, &id);
}

#[test]
fn cancellation_keeps_answers_and_skips_penalties() {
    // A cancel while one of three elected nodes has answered with a failure.
    let mut c = setup(5);
    let id = make_bounty(&mut c, 2);
    let elected = c.get_bounty_elected_nodes(id.clone()).unwrap();
    c.post_answer(
        id.clone(),
        elected[0].clone(),
        "".to_string(),
        "broken".to_string(),
        NodeResponseStatus::FAILURE,
        signer(),
        coord_id(),
        BYTE_COST,
        NOW + 1,
    )
    .unwrap();
    let receipt = c.cancel_bounty(id.clone(), signer(), coord_id(), NOW + 2).unwrap();
    let bounty = c.get_bounty(id.clone()).unwrap();
    assert_eq!(bounty.status, BountyStatus::Cancelled);
    // Every node that answered is owed a share: exactly the one answer.
    assert_eq!(
        bounty.get_payout_strategy(),
        coordinator::coordinator::PayoutStrategy::AllAnsweredNodes
    );
    assert_eq!(bounty.get_payout_recipient_ids(), vec![elected[0].clone()]);
    match receipt.event.event {
        EventLogVariant::BountyCompleted(log) => {
            assert_eq!(log.outcome, BountyStatus::Cancelled);
            assert_eq!(log.reward_recipients, vec![elected[0].clone()]);
        },
        _ => panic!("expected a completion event"),
    }
    // Cancellation penalizes nobody and counts no completion.
    for nid in elected.iter().skip(1) {
        assert_eq!(c.get_node(nid.clone()).unwrap().unanswered_runs, 0);
    }
    assert_eq!(c.get_total_completed_bounties(), 0);
    partition_counts_add_up(&c, &id);
    // Cancelling twice is a state error.
    let again = c.cancel_bounty(id, signer(), coord_id(), NOW + 3);
    assert_eq!(again.unwrap_err(), CoordinatorError::BountyNotPending);
}

#[test]
fn cancellation_is_owner_or_coordinator_only() {
    let mut c = setup(5);
    let id = make_bounty(&mut c, 2);
    let res = c.cancel_bounty(id, "mallory.test".to_string(), "other.test".to_string(), NOW);
    assert_eq!(res.unwrap_err(), CoordinatorError::Unauthorized);
}

#[test]
fn reelection_replaces_only_the_silent_nodes() {
    let mut c = setup(6);
    let id = make_bounty(&mut c, 2);
    let elected = c.get_bounty_elected_nodes(id.clone()).unwrap();
    c.post_answer(
        id.clone(),
        elected[1].clone(),
        "42".to_string(),
        "".to_string(),
        NodeResponseStatus::SUCCESS,
        signer(),
        coord_id(),
        BYTE_COST,
        NOW + 1,
    )
    .unwrap();
    let d = draws(&c);
    let event = c.reelect_unanswered_nodes(id.clone(), coord_id(), &d).unwrap();
    let after = c.get_bounty_elected_nodes(id.clone()).unwrap();
    assert_eq!(after.len(), elected.len());
    // The answering node keeps its seat, as the prefix of the new roster.
    assert_eq!(after[0], elected[1]);
    // The unanswered set is exactly the fresh draw.
    let unanswered = c.get_unanswered_nodes(id.clone()).unwrap();
    assert_eq!(unanswered, after[1..].to_vec());
    // The retry notification carries only the fresh nodes.
    match event.event {
        EventLogVariant::BountyRetry(log) => {
            assert_eq!(log.node_ids, after[1..].to_vec());
        },
        _ => panic!("expected a retry event"),
    }
    partition_counts_add_up(&c, &id);
}

#[test]
fn rejection_needs_no_election_and_counts_against_the_node() {
    let mut c = setup(5);
    let id = make_bounty(&mut c, 2);
    let bystander = format!("n4.node.{}", signer());
    let elected = c.get_bounty_elected_nodes(id.clone()).unwrap();
    if !elected.contains(&bystander) {
        let resp = c
            .reject_bounty(
                id.clone(),
                bystander.clone(),
                "not my kind of work".to_string(),
                signer(),
                NOW + 1,
            )
            .unwrap();
        assert_eq!(resp.status, NodeResponseStatus::REJECT);
        assert!(!resp.payout_claimed);
        let node = c.get_node(bystander).unwrap();
        assert_eq!(node.rejected_runs, 1);
        assert_eq!(node.last_reject, NOW + 1);
    }
    // Rejecting an elected node that had not answered keeps the partition:
    // the node moves from unanswered to rejected.
    let resp = c
        .reject_bounty(id.clone(), elected[0].clone(), "busy".to_string(), signer(), NOW + 2)
        .unwrap();
    assert_eq!(resp.status, NodeResponseStatus::REJECT);
    let unanswered = c.get_unanswered_nodes(id.clone()).unwrap();
    assert!(!unanswered.contains(&elected[0]));
    partition_counts_add_up(&c, &id);
    // A rejection counts as an answer, so a later submission is refused.
    let late = c.post_answer(
        id,
        elected[0].clone(),
        "42".to_string(),
        "".to_string(),
        NodeResponseStatus::SUCCESS,
        signer(),
        coord_id(),
        BYTE_COST,
        NOW + 3,
    );
    assert_eq!(late.unwrap_err(), CoordinatorError::AlreadyAnswered);
}

#[test]
fn offline_nodes_are_not_drawn() {
    let mut c = setup(5);
    let parked = format!("n0.node.{}", signer());
    c.set_node_offline(parked.clone(), true, signer(), coord_id()).unwrap();
    // Four eligible nodes remain: the padded draw of three must succeed
    // and avoid the offline identity.
    let id = make_bounty(&mut c, 2);
    let elected = c.get_bounty_elected_nodes(id).unwrap();
    assert_eq!(elected.len(), 3);
    assert!(!elected.contains(&parked));
}

#[test]
fn tally_refuses_a_solution_beyond_its_counter() {
    let mut c = setup(260);
    let id = make_bounty(&mut c, 2);
    // Every registered node rejects; all 260 responses share the empty
    // solution text, which one byte cannot count.
    for k in 0..260 {
        let node_id = format!("n{}.node.{}", k, signer());
        c.reject_bounty(id.clone(), node_id, "no".to_string(), signer(), NOW + 1)
            .unwrap();
    }
    c.cancel_bounty(id.clone(), signer(), coord_id(), NOW + 2).unwrap();
    let res = c.get_bounty_result(id);
    assert_eq!(res.unwrap_err(), CoordinatorError::Overflow);
}

#[test]
fn tally_handles_many_answers_with_spread_solutions() {
    // More than 255 answers are fine as long as no single solution
    // overflows the byte counter.
    let mut c = setup(375);
    let id = make_bounty(&mut c, 300);
    let elected = c.get_bounty_elected_nodes(id.clone()).unwrap();
    assert_eq!(elected.len(), 375);
    for k in 0..260 {
        c.post_answer(
            id.clone(),
            elected[k].clone(),
            format!("answer-{}", k),
            "".to_string(),
            NodeResponseStatus::SUCCESS,
            signer(),
            coord_id(),
            BYTE_COST,
            NOW + 1,
        )
        .unwrap();
    }
    c.cancel_bounty(id.clone(), signer(), coord_id(), NOW + 2).unwrap();
    let tally = c.get_bounty_result(id).unwrap();
    assert_eq!(tally.len(), 260);
    for entry in tally.iter() {
        assert_eq!(entry.1, 1);
    }
}

#[test]
fn deposits_can_grow_and_emit_retries() {
    let mut c = setup(5);
    let id = make_bounty(&mut c, 2);
    let before = c.get_bounty(id.clone()).unwrap();
    let (event, transfer) = c
        .add_storage_deposit(id.clone(), signer(), coord_id(), 1_000)
        .unwrap();
    assert_eq!(transfer.recipient, coord_id());
    assert_eq!(transfer.amount, 1_000);
    match event.event {
        EventLogVariant::BountyRetry(log) => assert_eq!(log.node_ids, before.elected_nodes),
        _ => panic!("expected a retry event"),
    }
    let (_e2, _t2) = c
        .add_node_reward_deposit(id.clone(), signer(), coord_id(), 2_000)
        .unwrap();
    let after = c.get_bounty(id).unwrap();
    assert_eq!(after.amt_storage, before.amt_storage + 1_000);
    assert_eq!(after.amt_node_reward, before.amt_node_reward + 2_000);
}

#[test]
fn should_post_answer_follows_the_lifecycle() {
    let mut c = setup(5);
    let id = make_bounty(&mut c, 2);
    let elected = c.get_bounty_elected_nodes(id.clone()).unwrap();
    assert!(c.should_post_answer(id.clone(), elected[0].clone()).unwrap());
    c.post_answer(
        id.clone(),
        elected[0].clone(),
        "42".to_string(),
        "".to_string(),
        NodeResponseStatus::SUCCESS,
        signer(),
        coord_id(),
        BYTE_COST,
        NOW,
    )
    .unwrap();
    assert!(!c.should_post_answer(id.clone(), elected[0].clone()).unwrap());
    assert!(c.should_post_answer(id, elected[1].clone()).unwrap());
}

#[test]
fn status_labels_match_the_wire_spelling() {
    assert_eq!(BountyStatus::Pending.label(), "PENDING");
    assert_eq!(BountyStatus::Failed.label(), "FAILED");
    assert_eq!(BountyStatus::Success.label(), "SUCCESS");
    assert_eq!(BountyStatus::Cancelled.label(), "Cancelled");
    assert_eq!(NodeResponseStatus::SUCCESS.label(), "SUCCESS");
    assert_eq!(NodeResponseStatus::REJECT.label(), "REJECT");
    assert_eq!(SupportedDownloadProtocols::IPFS.label(), "ipfs");
    assert_eq!(SupportedDownloadProtocols::HTTPS.label(), "https");
    assert_eq!(SupportedDownloadProtocols::GIT.label(), "git");
    assert_eq!(SupportedDownloadProtocols::EMPTY.label(), "EMPTY");
}
