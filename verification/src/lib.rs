//! A coordination and accounting engine for a compute-bounty marketplace.
//!
//! A pool of self-registered worker nodes serves bounties: units of work that
//! a quorum of randomly elected workers must pick up, judge, and be paid for.
//! This crate owns the coordination state machine — node registry, election,
//! bounty lifecycle, payout, and storage/fund accounting — over plain values.
//! Everything the host environment supplies (the caller's verified identity,
//! the clock, random seeds, attached deposits) comes in as arguments, and
//! everything the engine wants done outside (fund transfers, event records)
//! goes out as return values, so the whole engine is verified.

use vstd::prelude::*;

pub mod bounty;
pub mod coordinator;
pub mod election;
pub mod errors;
pub mod events;
pub mod ids;
pub mod laws;
pub mod lifecycle;
pub mod node;
pub mod payout;

verus! {

/// The smallest refundable deposit accepted when registering a node,
/// in the smallest unit of the currency.
pub const MIN_NODE_DEPOSIT: u128 = 1_000_000_000_000_000_000_000_000;

} // verus!
