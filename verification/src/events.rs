//! Structured notification records. Every mutating operation that changes a
//! bounty's node-outcome sets or status hands one of these back to the
//! caller, who forwards it to the notification sink.

use vstd::prelude::*;

use crate::bounty::BountyStatus;
use crate::coordinator::PayoutStrategy;

verus! {

/// The name of the event standard every record carries.
pub fn event_standard_name() -> (res: String)
    ensures
        res@ == "NEP-297"@,
{
    "NEP-297".to_owned()
}

/// The version of the event standard every record carries.
pub fn event_standard_spec() -> (res: String)
    ensures
        res@ == "1.0.0"@,
{
    "1.0.0".to_owned()
}

/// The mathematical value of a [`BountyCreatedLog`].
#[verifier::ext_equal]
pub ghost struct BountyCreatedLogView {
    pub coordinator_id: Seq<char>,
    pub bounty_id: Seq<char>,
    pub node_ids: Seq<Seq<char>>,
    pub message: Option<Seq<char>>,
}

/// Announces a freshly created bounty, so nodes learn there is work to do.
#[derive(Debug, PartialEq, Eq)]
pub struct BountyCreatedLog {
    pub coordinator_id: String,
    pub bounty_id: String,
    /// The nodes elected for the bounty.
    pub node_ids: Vec<String>,
    pub message: Option<String>,
}

impl View for BountyCreatedLog {
    type V = BountyCreatedLogView;

    open spec fn view(&self) -> BountyCreatedLogView {
        BountyCreatedLogView {
            coordinator_id: self.coordinator_id@,
            bounty_id: self.bounty_id@,
            node_ids: self.node_ids.deep_view(),
            message: self.message.deep_view(),
        }
    }
}

/// The mathematical value of a [`BountyRetryLog`].
#[verifier::ext_equal]
pub ghost struct BountyRetryLogView {
    pub coordinator_id: Seq<char>,
    pub bounty_id: Seq<char>,
    pub node_ids: Seq<Seq<char>>,
    pub message: Option<Seq<char>>,
}

/// Asks the listed nodes to (re)try an incomplete bounty, for example after
/// its storage deposit grew or stalled nodes were replaced.
#[derive(Debug, PartialEq, Eq)]
pub struct BountyRetryLog {
    pub coordinator_id: String,
    pub bounty_id: String,
    /// Only the nodes that still owe work, not the full roster.
    pub node_ids: Vec<String>,
    pub message: Option<String>,
}

impl View for BountyRetryLog {
    type V = BountyRetryLogView;

    open spec fn view(&self) -> BountyRetryLogView {
        BountyRetryLogView {
            coordinator_id: self.coordinator_id@,
            bounty_id: self.bounty_id@,
            node_ids: self.node_ids.deep_view(),
            message: self.message.deep_view(),
        }
    }
}

/// The mathematical value of a [`BountyCompletedLog`].
#[verifier::ext_equal]
pub ghost struct BountyCompletedLogView {
    pub coordinator_id: Seq<char>,
    pub bounty_id: Seq<char>,
    pub node_ids: Seq<Seq<char>>,
    pub reward_recipients: Seq<Seq<char>>,
    pub outcome: BountyStatus,
    pub payout_strategy: PayoutStrategy,
    pub message: Option<Seq<char>>,
}

/// Announces a closed bounty, so recipients can attempt to collect payouts.
#[derive(Debug, PartialEq, Eq)]
pub struct BountyCompletedLog {
    pub coordinator_id: String,
    pub bounty_id: String,
    /// Every node that was elected for the bounty.
    pub node_ids: Vec<String>,
    /// The nodes the payout strategy owes a share.
    pub reward_recipients: Vec<String>,
    pub outcome: BountyStatus,
    pub payout_strategy: PayoutStrategy,
    pub message: Option<String>,
}

impl View for BountyCompletedLog {
    type V = BountyCompletedLogView;

    open spec fn view(&self) -> BountyCompletedLogView {
        BountyCompletedLogView {
            coordinator_id: self.coordinator_id@,
            bounty_id: self.bounty_id@,
            node_ids: self.node_ids.deep_view(),
            reward_recipients: self.reward_recipients.deep_view(),
            outcome: self.outcome,
            payout_strategy: self.payout_strategy,
            message: self.message.deep_view(),
        }
    }
}

/// The mathematical value of an [`EventLogVariant`].
pub ghost enum EventLogVariantView {
    BountyCreated(BountyCreatedLogView),
    BountyRetry(BountyRetryLogView),
    BountyCompleted(BountyCompletedLogView),
}

/// The payload of an [`EventLog`], by event kind.
#[derive(Debug, PartialEq, Eq)]
#[non_exhaustive]
pub enum EventLogVariant {
    BountyCreated(BountyCreatedLog),
    BountyRetry(BountyRetryLog),
    BountyCompleted(BountyCompletedLog),
}

impl View for EventLogVariant {
    type V = EventLogVariantView;

    open spec fn view(&self) -> EventLogVariantView {
        match self {
            EventLogVariant::BountyCreated(log) => EventLogVariantView::BountyCreated(log@),
            EventLogVariant::BountyRetry(log) => EventLogVariantView::BountyRetry(log@),
            EventLogVariant::BountyCompleted(log) => EventLogVariantView::BountyCompleted(log@),
        }
    }
}

/// The mathematical value of an [`EventLog`].
#[verifier::ext_equal]
pub ghost struct EventLogView {
    pub standard: Seq<char>,
    pub version: Seq<char>,
    pub event: EventLogVariantView,
}

/// The standard envelope of a notification record: standard name, standard
/// version, and the event payload.
#[derive(Debug, PartialEq, Eq)]
pub struct EventLog {
    pub standard: String,
    pub version: String,
    pub event: EventLogVariant,
}

impl View for EventLog {
    type V = EventLogView;

    open spec fn view(&self) -> EventLogView {
        EventLogView { standard: self.standard@, version: self.version@, event: self.event@ }
    }
}

} // verus!
