//! Worker-node records: identity, capabilities, and run history.

use vstd::prelude::*;

verus! {

/// The mathematical value of a [`Node`]: every field as a plain value,
/// with account identities as character sequences.
#[verifier::ext_equal]
pub ghost struct NodeView {
    pub id: Seq<char>,
    pub owner_id: Seq<char>,
    pub last_run: u64,
    pub last_success: u64,
    pub last_failure: u64,
    pub last_reject: u64,
    pub last_unanswered: u64,
    pub successful_runs: u64,
    pub failed_runs: u64,
    pub unanswered_runs: u64,
    pub rejected_runs: u64,
    pub allow_network: bool,
    pub allow_gpu: bool,
    pub absolute_timeout: u64,
    pub lifetime_earnings: u128,
    pub deposit: u128,
    pub registration_time: u64,
}

/// One step of a saturating counter: adds one, stopping at the type's
/// largest value.
pub open spec fn sat_inc(c: u64) -> u64 {
    if c < u64::MAX {
        (c + 1) as u64
    } else {
        u64::MAX
    }
}

/// A registered worker node: its identity, the account that owns it, its
/// capability flags and timeout tolerance, its per-outcome run counters and
/// timestamps, its cumulative earnings, and its refundable deposit.
#[derive(Debug, PartialEq, Eq)]
pub struct Node {
    pub id: String,
    pub owner_id: String,
    pub last_run: u64,
    pub last_success: u64,
    pub last_failure: u64,
    pub last_reject: u64,
    pub last_unanswered: u64,
    pub successful_runs: u64,
    pub failed_runs: u64,
    pub unanswered_runs: u64,
    pub rejected_runs: u64,
    pub allow_network: bool,
    pub allow_gpu: bool,
    pub absolute_timeout: u64,
    pub lifetime_earnings: u128,
    pub deposit: u128,
    pub registration_time: u64,
}

impl View for Node {
    type V = NodeView;

    open spec fn view(&self) -> NodeView {
        NodeView {
            id: self.id@,
            owner_id: self.owner_id@,
            last_run: self.last_run,
            last_success: self.last_success,
            last_failure: self.last_failure,
            last_reject: self.last_reject,
            last_unanswered: self.last_unanswered,
            successful_runs: self.successful_runs,
            failed_runs: self.failed_runs,
            unanswered_runs: self.unanswered_runs,
            rejected_runs: self.rejected_runs,
            allow_network: self.allow_network,
            allow_gpu: self.allow_gpu,
            absolute_timeout: self.absolute_timeout,
            lifetime_earnings: self.lifetime_earnings,
            deposit: self.deposit,
            registration_time: self.registration_time,
        }
    }
}

impl DeepView for Node {
    type V = NodeView;

    open spec fn deep_view(&self) -> NodeView {
        self.view()
    }
}

impl Clone for Node {
    /// A clone carries the same mathematical value.
    fn clone(&self) -> (res: Self)
        ensures
            res@ == self@,
    {
        Node {
            id: self.id.clone(),
            owner_id: self.owner_id.clone(),
            last_run: self.last_run,
            last_success: self.last_success,
            last_failure: self.last_failure,
            last_reject: self.last_reject,
            last_unanswered: self.last_unanswered,
            successful_runs: self.successful_runs,
            failed_runs: self.failed_runs,
            unanswered_runs: self.unanswered_runs,
            rejected_runs: self.rejected_runs,
            allow_network: self.allow_network,
            allow_gpu: self.allow_gpu,
            absolute_timeout: self.absolute_timeout,
            lifetime_earnings: self.lifetime_earnings,
            deposit: self.deposit,
            registration_time: self.registration_time,
        }
    }
}

impl Node {
    /// The view a node has right after registration: fresh counters, the
    /// given capabilities, and the deposit attached by the registering call.
    pub open spec fn registered(
        id: Seq<char>,
        absolute_timeout: u64,
        allow_network: bool,
        allow_gpu: bool,
        owner_id: Seq<char>,
        deposit: u128,
        registration_time: u64,
    ) -> NodeView {
        NodeView {
            id: id,
            owner_id: owner_id,
            last_run: 0,
            last_success: 0,
            last_failure: 0,
            last_reject: 0,
            last_unanswered: 0,
            successful_runs: 0,
            failed_runs: 0,
            unanswered_runs: 0,
            rejected_runs: 0,
            allow_network: allow_network,
            allow_gpu: allow_gpu,
            absolute_timeout: absolute_timeout,
            lifetime_earnings: 0,
            deposit: deposit,
            registration_time: registration_time,
        }
    }

    /// Builds a fresh node record for the given owner. The owner's identity,
    /// the attached deposit, and the registration time are facts of the
    /// registering call, so they come in as arguments.
    pub fn new_node(
        id: String,
        absolute_timeout: u64,
        allow_network: bool,
        allow_gpu: bool,
        owner_id: String,
        deposit: u128,
        registration_time: u64,
    ) -> (node: Node)
        ensures
            node@ == Node::registered(
                id@,
                absolute_timeout,
                allow_network,
                allow_gpu,
                owner_id@,
                deposit,
                registration_time,
            ),
    {
        Node {
            id: id,
            owner_id: owner_id,
            last_run: 0,
            last_success: 0,
            last_failure: 0,
            last_reject: 0,
            last_unanswered: 0,
            successful_runs: 0,
            failed_runs: 0,
            unanswered_runs: 0,
            rejected_runs: 0,
            allow_network: allow_network,
            allow_gpu: allow_gpu,
            absolute_timeout: absolute_timeout,
            lifetime_earnings: 0,
            deposit: deposit,
            registration_time: registration_time,
        }
    }
}

} // verus!
