//! Payout behavior: eligibility, claiming, double-claim protection, and
//! reclaiming shares abandoned by deregistered nodes.

use coordinator::bounty::NodeResponseStatus;
use coordinator::bounty::SupportedDownloadProtocols;
use coordinator::coordinator::{Coordinator, MIN_REWARD, MIN_STORAGE};
use coordinator::errors::CoordinatorError;
use coordinator::MIN_NODE_DEPOSIT;

const NOW: u64 = 1_700_000_001_234;
const BYTE_COST: u128 = 1;

fn signer() -> String {
    "alice.test".to_string()
}

fn coord_id() -> String {
    "coordinator.test".to_string()
}

fn setup(n: usize) -> Coordinator {
    let mut c = Coordinator::init();
    for k in 0..n {
        let name = format!("n{}", k);
        c.register_node(name, 60_000_000, true, true, signer(), MIN_NODE_DEPOSIT, NOW)
            .unwrap();
    }
    c
}

/// Registers five nodes, runs one bounty to a success quorum of two, and
/// hands back the coordinator, the bounty identity, and the two winners.
fn closed_success_bounty() -> (Coordinator, String, Vec<String>) {
    let mut c = setup(5);
    let d: Vec<u64> = vec![0; c.node_queue.len()];
    let (bounty, _) = c
        .create_bounty(
            "https://example.test/work".to_string(),
            SupportedDownloadProtocols::HTTPS,
            2,
            30,
            false,
            false,
            MIN_STORAGE,
            MIN_REWARD,
            signer(),
            coord_id(),
            MIN_STORAGE + MIN_REWARD,
            NOW,
            &d,
        )
        .unwrap();
    let id = bounty.id;
    let elected = c.get_bounty_elected_nodes(id.clone()).unwrap();
    for k in 0..2 {
        c.post_answer(
            id.clone(),
            elected[k].clone(),
            "42".to_string(),
            "".to_string(),
            NodeResponseStatus::SUCCESS,
            signer(),
            coord_id(),
            BYTE_COST,
            NOW + 1 + k as u64,
        )
        .unwrap();
    }
    (c, id, vec![elected[0].clone(), elected[1].clone()])
}

#[test]
fn reward_is_split_evenly_without_over_payout() {
    let (c, id, winners) = closed_success_bounty();
    let bounty = c.get_bounty(id).unwrap();
    let per = bounty.get_amt_reward_per_node();
    assert_eq!(per, MIN_REWARD / 2);
    let recipients = bounty.get_payout_recipient_ids();
    assert_eq!(recipients, winners);
    // The shares never add up to more than the pool.
    assert!(per * recipients.len() as u128 <= bounty.amt_node_reward);
}

#[test]
fn claims_pay_once_and_only_once() {
    let (mut c, id, winners) = closed_success_bounty();
    assert!(c.should_collect_reward(winners[0].clone(), id.clone()).unwrap());
    let transfer = c.collect_reward(winners[0].clone(), id.clone()).unwrap();
    assert_eq!(transfer.recipient, signer());
    assert_eq!(transfer.amount, MIN_REWARD / 2);
    let node = c.get_node(winners[0].clone()).unwrap();
    assert_eq!(node.lifetime_earnings, MIN_REWARD / 2);
    assert_eq!(c.get_total_payouts(), MIN_REWARD / 2);
    // A second claim fails and does not double-credit anything.
    let again = c.collect_reward(winners[0].clone(), id.clone());
    assert_eq!(again.unwrap_err(), CoordinatorError::AlreadyClaimed);
    let node_after = c.get_node(winners[0].clone()).unwrap();
    assert_eq!(node_after.lifetime_earnings, MIN_REWARD / 2);
    assert_eq!(c.get_total_payouts(), MIN_REWARD / 2);
    // The paid and unpaid recipient lists split accordingly.
    let bounty = c.get_bounty(id).unwrap();
    assert_eq!(bounty.get_paid_recipients(), vec![winners[0].clone()]);
    assert_eq!(bounty.get_unpaid_recipients(), vec![winners[1].clone()]);
}

#[test]
fn only_matching_outcomes_collect() {
    let mut c = setup(5);
    let d: Vec<u64> = vec![0; c.node_queue.len()];
    let (bounty, _) = c
        .create_bounty(
            "x".to_string(),
            SupportedDownloadProtocols::EMPTY,
            2,
            30,
            false,
            false,
            MIN_STORAGE,
            MIN_REWARD,
            signer(),
            coord_id(),
            MIN_STORAGE + MIN_REWARD,
            NOW,
            &d,
        )
        .unwrap();
    let id = bounty.id;
    let elected = c.get_bounty_elected_nodes(id.clone()).unwrap();
    // One failure, then two successes: the success quorum wins.
    c.post_answer(
        id.clone(),
        elected[2].clone(),
        "".to_string(),
        "broke".to_string(),
        NodeResponseStatus::FAILURE,
        signer(),
        coord_id(),
        BYTE_COST,
        NOW + 1,
    )
    .unwrap();
    for k in 0..2 {
        c.post_answer(
            id.clone(),
            elected[k].clone(),
            "42".to_string(),
            "".to_string(),
            NodeResponseStatus::SUCCESS,
            signer(),
            coord_id(),
            BYTE_COST,
            NOW + 2 + k as u64,
        )
        .unwrap();
    }
    assert!(c.should_collect_reward(elected[0].clone(), id.clone()).unwrap());
    // The failing node answered but is outside the recipient set.
    assert!(!c.should_collect_reward(elected[2].clone(), id.clone()).unwrap());
    let res = c.collect_reward(elected[2].clone(), id.clone());
    assert_eq!(res.unwrap_err(), CoordinatorError::NotEligible);
}

#[test]
fn pending_bounties_pay_nothing() {
    let mut c = setup(5);
    let d: Vec<u64> = vec![0; c.node_queue.len()];
    let (bounty, _) = c
        .create_bounty(
            "x".to_string(),
            SupportedDownloadProtocols::EMPTY,
            2,
            30,
            false,
            false,
            MIN_STORAGE,
            MIN_REWARD,
            signer(),
            coord_id(),
            MIN_STORAGE + MIN_REWARD,
            NOW,
            &d,
        )
        .unwrap();
    let id = bounty.id;
    let elected = c.get_bounty_elected_nodes(id.clone()).unwrap();
    c.post_answer(
        id.clone(),
        elected[0].clone(),
        "42".to_string(),
        "".to_string(),
        NodeResponseStatus::SUCCESS,
        signer(),
        coord_id(),
        BYTE_COST,
        NOW + 1,
    )
    .unwrap();
    let res = c.should_collect_reward(elected[0].clone(), id);
    assert_eq!(res.unwrap_err(), CoordinatorError::BountyStillPending);
}

#[test]
fn reclaim_waits_out_the_grace_period() {
    let (c, id, _winners) = closed_success_bounty();
    let early = c.reclaim_reward_from_dropped_nodes(&id, NOW + 1000);
    assert_eq!(early.unwrap_err(), CoordinatorError::TooEarly);
}

#[test]
fn reclaim_refunds_only_dropped_unclaimed_shares() {
    let (mut c, id, winners) = closed_success_bounty();
    let week_later = NOW + 604_800_000 + 1;
    // All answering nodes still registered: nothing to reclaim.
    let nothing = c.reclaim_reward_from_dropped_nodes(&id, week_later).unwrap();
    assert_eq!(nothing.amount, 0);
    assert_eq!(nothing.recipient, signer());
    // One winner claims, then both winners go offline (their records leave
    // the active table): only the unclaimed share comes back.
    c.collect_reward(winners[0].clone(), id.clone()).unwrap();
    c.set_node_offline(winners[0].clone(), true, signer(), coord_id()).unwrap();
    c.set_node_offline(winners[1].clone(), true, signer(), coord_id()).unwrap();
    let refund = c.reclaim_reward_from_dropped_nodes(&id, week_later).unwrap();
    assert_eq!(refund.recipient, signer());
    assert_eq!(refund.amount, MIN_REWARD / 2);
}

#[test]
fn error_reasons_read_as_text() {
    assert_eq!(
        CoordinatorError::NotEnoughQualifiedNodes.message(),
        "not enough qualified nodes to fill bounty"
    );
    assert_eq!(CoordinatorError::NodeAlreadyElected.message(), "node already elected");
    assert!(!CoordinatorError::StorageExhausted.message().is_empty());
    assert!(!CoordinatorError::FundsMismatch.message().is_empty());
}
