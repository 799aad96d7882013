//! The error taxonomy of the engine.
//!
//! Every fallible operation fails synchronously and atomically with one of
//! these reasons: authorization, lifecycle state, resource exhaustion,
//! unknown identities, or a fatal invariant violation. None is retried
//! internally.

use vstd::prelude::*;

verus! {

/// Why an operation was refused. Grouped by kind: authorization
/// ([`Unauthorized`](CoordinatorError::Unauthorized)); lifecycle state;
/// resource exhaustion; unknown identities; fatal invariant violations
/// ([`NotEnoughQualifiedNodes`](CoordinatorError::NotEnoughQualifiedNodes),
/// [`NoQuorum`](CoordinatorError::NoQuorum)); and arithmetic that would not
/// fit the balance or counter type ([`Overflow`](CoordinatorError::Overflow)).
#[derive(Clone, Copy, Debug, PartialEq, Eq, Structural)]
pub enum CoordinatorError {
    /// The caller is neither the resource's owner nor the coordinator.
    Unauthorized,
    /// No node is registered under the given identity.
    NodeNotFound,
    /// No bounty exists under the given identity.
    BountyNotFound,
    /// The node has not submitted an answer to the bounty.
    AnswerNotFound,
    /// A node with this identity is already registered (online or offline).
    NodeAlreadyRegistered,
    /// A bounty with this identity already exists.
    BountyAlreadyExists,
    /// The attached deposit is below the required minimum.
    InsufficientDeposit,
    /// The attached deposit does not equal storage budget plus reward pool.
    FundsMismatch,
    /// The prepaid storage budget is below the protocol minimum.
    StorageBelowMinimum,
    /// The node reward pool is below the protocol minimum.
    RewardBelowMinimum,
    /// Fewer nodes are registered than the padded election count.
    NotEnoughNodes,
    /// An election ran out of qualified candidates.
    NotEnoughQualifiedNodes,
    /// An election drew a node that is already elected for the bounty.
    NodeAlreadyElected,
    /// The bounty is no longer pending, so it cannot be mutated.
    BountyNotPending,
    /// The bounty is still pending, so results cannot be read yet.
    BountyStillPending,
    /// The node has already submitted an answer for this bounty.
    AlreadyAnswered,
    /// The node is not among the bounty's elected nodes.
    NotElected,
    /// Admitting the answer would drive storage use above the prepaid budget.
    StorageExhausted,
    /// The payout for this answer has already been claimed.
    AlreadyClaimed,
    /// The node is not in the closed bounty's recipient set.
    NotEligible,
    /// The payout strategy selects an empty recipient set, so no share can
    /// be computed.
    NoRecipients,
    /// A close was requested with no outcome meeting the quorum.
    NoQuorum,
    /// The grace period since bounty creation has not yet passed.
    TooEarly,
    /// A balance or counter update would exceed its type's range.
    Overflow,
}

impl CoordinatorError {
    /// A human-readable reason, as every error must carry one.
    pub fn message(&self) -> (msg: String) {
        match self {
            CoordinatorError::Unauthorized => "caller is not the owner nor the coordinator"
                .to_owned(),
            CoordinatorError::NodeNotFound => "node is not registered".to_owned(),
            CoordinatorError::BountyNotFound => "bounty does not exist".to_owned(),
            CoordinatorError::AnswerNotFound => "node has not submitted an answer".to_owned(),
            CoordinatorError::NodeAlreadyRegistered => "node already registered".to_owned(),
            CoordinatorError::BountyAlreadyExists => "bounty already exists".to_owned(),
            CoordinatorError::InsufficientDeposit => "attached deposit is below the minimum"
                .to_owned(),
            CoordinatorError::FundsMismatch => {
                "attached deposit must equal the sum of the storage and node reward amounts"
                    .to_owned()
            },
            CoordinatorError::StorageBelowMinimum => {
                "refundable storage deposit is below the protocol minimum".to_owned()
            },
            CoordinatorError::RewardBelowMinimum => "node reward is below the protocol minimum"
                .to_owned(),
            CoordinatorError::NotEnoughNodes => "not enough nodes registered for bounty"
                .to_owned(),
            CoordinatorError::NotEnoughQualifiedNodes => {
                "not enough qualified nodes to fill bounty".to_owned()
            },
            CoordinatorError::NodeAlreadyElected => "node already elected".to_owned(),
            CoordinatorError::BountyNotPending => "bounty is already closed".to_owned(),
            CoordinatorError::BountyStillPending => "bounty is still pending".to_owned(),
            CoordinatorError::AlreadyAnswered => "an answer has already been submitted"
                .to_owned(),
            CoordinatorError::NotElected => "node is not elected for this bounty".to_owned(),
            CoordinatorError::StorageExhausted => "not enough storage left to store answer"
                .to_owned(),
            CoordinatorError::AlreadyClaimed => "payout has already been claimed".to_owned(),
            CoordinatorError::NotEligible => "node is not eligible to collect a reward"
                .to_owned(),
            CoordinatorError::NoRecipients => "the payout strategy selects no recipients"
                .to_owned(),
            CoordinatorError::NoQuorum => "bounty does not have enough answers to be closed"
                .to_owned(),
            CoordinatorError::TooEarly => "the grace period has not passed yet".to_owned(),
            CoordinatorError::Overflow => "balance or counter update would overflow".to_owned(),
        }
    }
}

} // verus!
