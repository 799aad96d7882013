//! Node registry behavior: registration, identity construction, the
//! online/offline partitions, updates, and removal.

use coordinator::coordinator::Coordinator;
use coordinator::errors::CoordinatorError;
use coordinator::MIN_NODE_DEPOSIT;

const NOW: u64 = 1_700_000_000_000;

fn signer() -> String {
    "alice.test".to_string()
}

fn coord_id() -> String {
    "coordinator.test".to_string()
}

#[test]
fn can_register_node() {
    let mut coordinator = Coordinator::init();
    let name = "test".to_string();
    let account_id = format!("{}.node.{}", name, signer());
    let node = coordinator
        .register_node(name, 60000, true, true, signer(), MIN_NODE_DEPOSIT, NOW)
        .unwrap();

    assert_eq!(node.owner_id, signer(), "Owner id should be current account id");
    assert_eq!(coordinator.get_node_count(), 1, "Node count should be 1");
    assert!(
        coordinator.get_node(account_id).is_ok(),
        "Should be able to retrieve node"
    );
    assert!(
        coordinator.get_nodes().contains(&node),
        "Should be able to retrieve node from full listing"
    );
}

#[test]
fn can_mark_node_offline() {
    let mut coordinator = Coordinator::init();
    let name = "test".to_string();
    let account_id = format!("{}.node.{}", name, signer());
    let _node = coordinator
        .register_node(name, 60000, true, true, signer(), MIN_NODE_DEPOSIT, NOW)
        .unwrap();
    let moved = coordinator
        .set_node_offline(account_id.clone(), true, signer(), coord_id())
        .unwrap();
    assert_eq!(moved.id, account_id);
    assert_eq!(coordinator.get_node_count(), 0);
    assert_eq!(coordinator.get_offline_node_count(), 1);
    // Offline nodes are no longer eligible for election.
    assert!(!coordinator.node_queue.contains(&account_id));
    let back = coordinator
        .set_node_offline(account_id.clone(), false, signer(), coord_id())
        .unwrap();
    assert_eq!(back.id, account_id);
    assert_eq!(coordinator.get_node_count(), 1);
    assert_eq!(coordinator.get_offline_node_count(), 0);
    assert!(coordinator.node_queue.contains(&account_id));
}

#[test]
fn test_create_nodes() {
    let mut coordinator = Coordinator::init();
    for k in 0..5 {
        let name = format!("n{}", k);
        coordinator
            .register_node(name, 60000, true, true, signer(), MIN_NODE_DEPOSIT, NOW)
            .unwrap();
    }
    assert_eq!(
        coordinator.get_node_count(),
        5,
        "node bootstrapping didn't return the expected number of nodes"
    );
    assert_eq!(coordinator.get_nodes_for_owner_count(signer()), 5);
    assert_eq!(coordinator.get_nodes_for_owner(signer()).len(), 5);
}

#[test]
fn register_rejects_small_deposit() {
    let mut coordinator = Coordinator::init();
    let res = coordinator.register_node(
        "tiny".to_string(),
        60000,
        true,
        true,
        signer(),
        MIN_NODE_DEPOSIT - 1,
        NOW,
    );
    assert_eq!(res.unwrap_err(), CoordinatorError::InsufficientDeposit);
    assert_eq!(coordinator.get_node_count(), 0);
}

#[test]
fn register_rejects_duplicate_identity() {
    let mut coordinator = Coordinator::init();
    coordinator
        .register_node("dup".to_string(), 60000, true, true, signer(), MIN_NODE_DEPOSIT, NOW)
        .unwrap();
    let res = coordinator.register_node(
        "dup".to_string(),
        60000,
        true,
        true,
        signer(),
        MIN_NODE_DEPOSIT,
        NOW,
    );
    assert_eq!(res.unwrap_err(), CoordinatorError::NodeAlreadyRegistered);
    // An offline node still counts as registered.
    let id = format!("{}.node.{}", "dup", signer());
    coordinator.set_node_offline(id, true, signer(), coord_id()).unwrap();
    let res2 = coordinator.register_node(
        "dup".to_string(),
        60000,
        true,
        true,
        signer(),
        MIN_NODE_DEPOSIT,
        NOW,
    );
    assert_eq!(res2.unwrap_err(), CoordinatorError::NodeAlreadyRegistered);
}

#[test]
fn update_node_changes_capabilities() {
    let mut coordinator = Coordinator::init();
    coordinator
        .register_node("up".to_string(), 60000, true, true, signer(), MIN_NODE_DEPOSIT, NOW)
        .unwrap();
    let id = format!("{}.node.{}", "up", signer());
    let updated = coordinator
        .update_node(id.clone(), false, true, 90000, signer(), coord_id())
        .unwrap();
    assert!(!updated.allow_network);
    assert!(updated.allow_gpu);
    assert_eq!(updated.absolute_timeout, 90000);
    let fetched = coordinator.get_node(id.clone()).unwrap();
    assert_eq!(fetched.absolute_timeout, 90000);
    let denied = coordinator.update_node(
        id,
        true,
        true,
        60000,
        "mallory.test".to_string(),
        coord_id(),
    );
    assert_eq!(denied.unwrap_err(), CoordinatorError::Unauthorized);
}

#[test]
fn remove_node_refunds_deposit_and_keeps_history() {
    let mut coordinator = Coordinator::init();
    coordinator
        .register_node("gone".to_string(), 60000, true, true, signer(), MIN_NODE_DEPOSIT, NOW)
        .unwrap();
    let id = format!("{}.node.{}", "gone", signer());
    let refund = coordinator.remove_node(id.clone(), signer(), coord_id()).unwrap();
    assert_eq!(refund.recipient, signer());
    assert_eq!(refund.amount, MIN_NODE_DEPOSIT);
    // The record is retained for audit; only the queue and index forget it.
    assert!(coordinator.get_node(id).is_ok());
    assert_eq!(coordinator.get_nodes_for_owner_count(signer()), 0);
}

#[test]
fn unknown_node_is_reported() {
    let coordinator = Coordinator::init();
    let res = coordinator.get_node("nobody.node.alice.test".to_string());
    assert_eq!(res.unwrap_err(), CoordinatorError::NodeNotFound);
    assert!(!CoordinatorError::NodeNotFound.message().is_empty());
}

#[test]
fn rand_u64_folds_seed_bytes() {
    let seed = vec![2u8, 3, 1, 1, 1, 1, 1, 1, 0, 0];
    assert_eq!(Coordinator::rand_u64(&seed), 6);
    let seed2 = vec![7u8, 1, 1, 1, 1, 1, 1, 2];
    assert_eq!(Coordinator::rand_u64(&seed2), 14);
}

#[test]
fn node_padding_is_a_quarter_more_rounded_up() {
    let coordinator = Coordinator::init();
    assert_eq!(coordinator.get_node_padding(0), 0);
    assert_eq!(coordinator.get_node_padding(1), 2);
    assert_eq!(coordinator.get_node_padding(2), 3);
    assert_eq!(coordinator.get_node_padding(3), 4);
    assert_eq!(coordinator.get_node_padding(4), 5);
    assert_eq!(coordinator.get_node_padding(8), 10);
}

#[test]
fn earnings_report_fails_on_a_dangling_index_entry() {
    let mut coordinator = Coordinator::init();
    coordinator
        .register_node("ghost".to_string(), 60000, true, true, signer(), MIN_NODE_DEPOSIT, NOW)
        .unwrap();
    let id = format!("{}.node.{}", "ghost", signer());
    // Moving the node offline leaves its id in the owner index while the
    // active record is gone: the sum cannot be computed.
    coordinator.set_node_offline(id, true, signer(), coord_id()).unwrap();
    let res = coordinator.get_lifetime_earnings_for_owner(signer());
    assert_eq!(res.unwrap_err(), CoordinatorError::NodeNotFound);
}

#[test]
fn lifetime_earnings_start_at_zero() {
    let mut coordinator = Coordinator::init();
    coordinator
        .register_node("earn".to_string(), 60000, true, true, signer(), MIN_NODE_DEPOSIT, NOW)
        .unwrap();
    assert_eq!(coordinator.get_lifetime_earnings_for_owner(signer()).unwrap(), 0);
    assert_eq!(coordinator.get_total_payouts(), 0);
}
