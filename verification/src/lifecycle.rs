//! The bounty lifecycle state machine: creation, answer collection, quorum
//! detection, and closing.

use vstd::prelude::*;
use vstd::pervasive::VecAdditionalExecFns;

use crate::bounty::{answers_unique, has_answer, Bounty, BountyStatus, BountyView, NodeResponse, NodeResponseStatus, ResponseView};
use crate::coordinator::{
    add_id_for_owner, bounties_upsert, bounty_for, find_bounty_index, has_bounty, ids_for_owner,
    owner_index_add, upsert_bounty, Coordinator, CoordinatorView, Transfer, MIN_REWARD,
    MIN_STORAGE,
};
use crate::errors::CoordinatorError;
use crate::events::{
    event_standard_name, event_standard_spec, BountyCompletedLog, BountyCompletedLogView,
    BountyCreatedLog, BountyCreatedLogView, BountyRetryLog, BountyRetryLogView, EventLog,
    EventLogVariant, EventLogVariantView, EventLogView,
};
use crate::ids::{clone_ids, contains_id, push_id, remove_id, spec_bounty_id, make_bounty_id};
use crate::election::{qualified_member, spec_node_padding};
use crate::node::{sat_inc, Node, NodeView};

verus! {

/// What closing a bounty hands back: the completion notification and the
/// storage refund owed to the bounty's owner.
#[derive(Debug, PartialEq, Eq)]
pub struct CloseReceipt {
    pub event: EventLog,
    pub refund: Transfer,
}

/// The completion notification a close emits: the outcome, the full elected
/// roster, the reward recipients, and the payout strategy, under the
/// standard envelope.
pub open spec fn spec_completed_event(coordinator_id: Seq<char>, b: BountyView) -> EventLogView {
    EventLogView {
        standard: "NEP-297"@,
        version: "1.0.0"@,
        event: EventLogVariantView::BountyCompleted(
            BountyCompletedLogView {
                coordinator_id: coordinator_id,
                bounty_id: b.id,
                node_ids: b.elected_nodes,
                reward_recipients: b.spec_recipients(),
                outcome: b.status,
                payout_strategy: b.spec_payout_strategy(),
                message: None,
            },
        ),
    }
}

/// The creation notification: the bounty's identity and its elected nodes,
/// under the standard envelope.
pub open spec fn spec_created_event(
    coordinator_id: Seq<char>,
    bounty_id: Seq<char>,
    node_ids: Seq<Seq<char>>,
) -> EventLogView {
    EventLogView {
        standard: "NEP-297"@,
        version: "1.0.0"@,
        event: EventLogVariantView::BountyCreated(
            BountyCreatedLogView {
                coordinator_id: coordinator_id,
                bounty_id: bounty_id,
                node_ids: node_ids,
                message: None,
            },
        ),
    }
}

/// The retry notification: the bounty's identity and only the nodes that
/// still owe work, under the standard envelope.
pub open spec fn spec_retry_event(
    coordinator_id: Seq<char>,
    bounty_id: Seq<char>,
    node_ids: Seq<Seq<char>>,
) -> EventLogView {
    EventLogView {
        standard: "NEP-297"@,
        version: "1.0.0"@,
        event: EventLogVariantView::BountyRetry(
            BountyRetryLogView {
                coordinator_id: coordinator_id,
                bounty_id: bounty_id,
                node_ids: node_ids,
                message: Some(Seq::empty()),
            },
        ),
    }
}

/// How many answers a bounty has, split by outcome partition.
#[derive(Clone, Copy, Debug, PartialEq, Eq, Structural)]
pub struct BountyAnswerCounts {
    pub answers: u64,
    pub failed_nodes: u64,
    pub successful_nodes: u64,
    pub rejected_nodes: u64,
    pub unanswered_nodes: u64,
}

/// A node record after being penalized for not answering a closing bounty:
/// its unanswered counter stepped, its unanswered timestamp set to now.
pub open spec fn spec_bump_unanswered(n: NodeView, now: u64) -> NodeView {
    NodeView { unanswered_runs: sat_inc(n.unanswered_runs), last_unanswered: now, ..n }
}

/// The node table after a non-cancel close: every node still listed as
/// unanswered is penalized; every other node is untouched.
pub open spec fn spec_mark_unanswered(
    nodes: Seq<NodeView>,
    unanswered: Seq<Seq<char>>,
    now: u64,
) -> Seq<NodeView> {
    Seq::new(
        nodes.len(),
        |i: int|
            if unanswered.contains(nodes[i].id) {
                spec_bump_unanswered(nodes[i], now)
            } else {
                nodes[i]
            },
    )
}

/// The estimated stored size of one answer record, in bytes. Storage is
/// charged per record at the ledger's per-byte price.
pub const ANSWER_RECORD_BYTES: u128 = 80;

/// A node record after submitting an answer: the counter and timestamp of
/// the reported outcome move; nothing else does.
pub open spec fn spec_bump_for_status(
    n: NodeView,
    status: crate::bounty::NodeResponseStatus,
    now: u64,
) -> NodeView {
    match status {
        crate::bounty::NodeResponseStatus::SUCCESS => NodeView {
            successful_runs: sat_inc(n.successful_runs),
            last_success: now,
            ..n
        },
        crate::bounty::NodeResponseStatus::FAILURE => NodeView {
            failed_runs: sat_inc(n.failed_runs),
            last_failure: now,
            ..n
        },
        crate::bounty::NodeResponseStatus::REJECT => NodeView {
            rejected_runs: sat_inc(n.rejected_runs),
            last_reject: now,
            ..n
        },
        crate::bounty::NodeResponseStatus::EMPTY => n,
    }
}

/// Why submitting an answer would be refused, checked in order: unknown
/// bounty, unknown node, a caller who does not own the node, a bounty no
/// longer pending, a node that is not elected, a node that already answered,
/// and finally a storage budget too small to admit the record.
pub open spec fn spec_post_answer_error(
    c: CoordinatorView,
    bounty_id: Seq<char>,
    node_id: Seq<char>,
    signer: Seq<char>,
    storage_byte_cost: u128,
) -> Option<CoordinatorError> {
    if !has_bounty(c.bounties, bounty_id) {
        Some(CoordinatorError::BountyNotFound)
    } else if !crate::coordinator::has_node(c.nodes, node_id) {
        Some(CoordinatorError::NodeNotFound)
    } else if signer != crate::coordinator::node_for(c.nodes, node_id).owner_id {
        Some(CoordinatorError::Unauthorized)
    } else if bounty_for(c.bounties, bounty_id).status != BountyStatus::Pending {
        Some(CoordinatorError::BountyNotPending)
    } else if !bounty_for(c.bounties, bounty_id).elected_nodes.contains(node_id) {
        Some(CoordinatorError::NotElected)
    } else if has_answer(bounty_for(c.bounties, bounty_id).answers, node_id) {
        Some(CoordinatorError::AlreadyAnswered)
    } else if storage_byte_cost * ANSWER_RECORD_BYTES + bounty_for(
        c.bounties,
        bounty_id,
    ).storage_used > bounty_for(c.bounties, bounty_id).amt_storage {
        Some(CoordinatorError::StorageExhausted)
    } else {
        None
    }
}

/// The elected nodes that already answered, in election order: they keep
/// their seats through a re-election.
pub open spec fn kept_of(elected: Seq<Seq<char>>, answers: Seq<ResponseView>) -> Seq<Seq<char>>
    decreases elected.len(),
{
    if elected.len() == 0 {
        Seq::empty()
    } else if has_answer(answers, elected.last()) {
        kept_of(elected.drop_last(), answers).push(elected.last())
    } else {
        kept_of(elected.drop_last(), answers)
    }
}

/// The elected nodes still without an answer, in election order: a
/// re-election drops them and draws replacements.
pub open spec fn dropped_of(elected: Seq<Seq<char>>, answers: Seq<ResponseView>) -> Seq<
    Seq<char>,
>
    decreases elected.len(),
{
    if elected.len() == 0 {
        Seq::empty()
    } else if has_answer(answers, elected.last()) {
        dropped_of(elected.drop_last(), answers)
    } else {
        dropped_of(elected.drop_last(), answers).push(elected.last())
    }
}

/// Splitting the elected list by answered-ness: membership goes by whether
/// the node answered, lengths add up, and both halves stay duplicate-free.
pub proof fn lemma_kept_dropped(elected: Seq<Seq<char>>, answers: Seq<ResponseView>)
    requires
        elected.no_duplicates(),
    ensures
        forall|x: Seq<char>|
            #[trigger] kept_of(elected, answers).contains(x) <==> (elected.contains(x)
                && has_answer(answers, x)),
        forall|x: Seq<char>|
            #[trigger] dropped_of(elected, answers).contains(x) <==> (elected.contains(x)
                && !has_answer(answers, x)),
        kept_of(elected, answers).no_duplicates(),
        dropped_of(elected, answers).no_duplicates(),
        kept_of(elected, answers).len() + dropped_of(elected, answers).len() == elected.len(),
    decreases elected.len(),
{
    if elected.len() > 0 {
        let head = elected.drop_last();
        let last = elected.last();
        assert forall|p: int, q: int|
            #![trigger head[p], head[q]]
            0 <= p < q < head.len() implies head[p] != head[q] by {
            assert(elected[p] != elected[q]);
        }
        lemma_kept_dropped(head, answers);
        assert(!head.contains(last)) by {
            if head.contains(last) {
                let w = choose|w: int| 0 <= w < head.len() && head[w] == last;
                assert(elected[w] == elected[elected.len() - 1]);
            }
        }
        assert forall|x: Seq<char>| #[trigger] elected.contains(x) implies (head.contains(x) || x
            == last) by {
            let w = choose|w: int| 0 <= w < elected.len() && elected[w] == x;
            if w < elected.len() - 1 {
                assert(head[w] == x);
            }
        }
        assert forall|x: Seq<char>| head.contains(x) implies #[trigger] elected.contains(x) by {
            let w = choose|w: int| 0 <= w < head.len() && head[w] == x;
            assert(elected[w] == x);
        }
        assert(elected.contains(last)) by {
            assert(elected[elected.len() - 1] == last);
        }
        if has_answer(answers, last) {
            crate::ids::lemma_no_dup_push(kept_of(head, answers), last);
            assert forall|x: Seq<char>| #[trigger] kept_of(elected, answers).contains(
                x,
            ) implies (elected.contains(x) && has_answer(answers, x)) by {
                crate::ids::lemma_contains_push(kept_of(head, answers), last, x);
            }
            assert forall|x: Seq<char>|
                elected.contains(x) && has_answer(answers, x) implies #[trigger] kept_of(
                elected,
                answers,
            ).contains(x) by {
                crate::ids::lemma_contains_push(kept_of(head, answers), last, x);
            }
        } else {
            crate::ids::lemma_no_dup_push(dropped_of(head, answers), last);
            assert forall|x: Seq<char>| #[trigger] dropped_of(elected, answers).contains(
                x,
            ) implies (elected.contains(x) && !has_answer(answers, x)) by {
                crate::ids::lemma_contains_push(dropped_of(head, answers), last, x);
            }
            assert forall|x: Seq<char>|
                elected.contains(x) && !has_answer(answers, x) implies #[trigger] dropped_of(
                elected,
                answers,
            ).contains(x) by {
                crate::ids::lemma_contains_push(dropped_of(head, answers), last, x);
            }
        }
    }
}

/// Whether the signer's listed bounties can all be cancelled in one sweep:
/// every listed identity exists, is still pending, and is the signer's (or
/// the coordinator's) to cancel, and no identity is listed twice.
pub open spec fn spec_all_cancellable(
    c: CoordinatorView,
    signer: Seq<char>,
    coordinator_id: Seq<char>,
) -> bool {
    &&& forall|j: int|
        #![trigger ids_for_owner(c.bounty_by_owner, signer)[j]]
        0 <= j < ids_for_owner(c.bounty_by_owner, signer).len() ==> (has_bounty(
            c.bounties,
            ids_for_owner(c.bounty_by_owner, signer)[j],
        ) && bounty_for(c.bounties, ids_for_owner(c.bounty_by_owner, signer)[j]).status
            == BountyStatus::Pending && (bounty_for(
            c.bounties,
            ids_for_owner(c.bounty_by_owner, signer)[j],
        ).owner_id == signer || signer == coordinator_id))
    &&& ids_for_owner(c.bounty_by_owner, signer).no_duplicates()
}

/// The close's effect on a bounty: only the status moves, to `Cancelled` on
/// a cancel, else to `Success` exactly when success reached quorum first.
pub open spec fn spec_closed_status(b: BountyView, cancel: bool) -> BountyStatus {
    if cancel {
        BountyStatus::Cancelled
    } else if b.successful_nodes.len() >= b.min_nodes {
        BountyStatus::Success
    } else {
        BountyStatus::Failed
    }
}

impl Coordinator {
    /// Closes a pending bounty.
    ///
    /// A cancel closes unconditionally as `Cancelled`; a regular close
    /// requires a success or failure quorum and records `Success` when the
    /// success quorum is met (checked first), else `Failed`. On a regular
    /// close every node still unanswered is penalized; a cancel skips that,
    /// and only a regular close counts towards completed bounties. The
    /// bounty leaves the open set, its record is written back, and the
    /// caller receives the completion notification together with the
    /// unused-storage refund owed to the bounty's owner.
    pub fn close_bounty(
        &mut self,
        bounty: &mut Bounty,
        cancel: bool,
        coordinator_id: String,
        now: u64,
    ) -> (res: Result<CloseReceipt, CoordinatorError>)
        requires
            old(self)@.wf(),
            old(bounty)@.wf(),
        ensures
            final(self)@.wf(),
            final(bounty)@.wf(),
            res is Err <==> (old(bounty)@.status != BountyStatus::Pending || (!cancel && old(
                bounty,
            )@.successful_nodes.len() < old(bounty)@.min_nodes && old(
                bounty,
            )@.failed_nodes.len() < old(bounty)@.min_nodes)),
            match res {
                Ok(receipt) => {
                    &&& final(bounty)@ == (BountyView {
                        status: spec_closed_status(old(bounty)@, cancel),
                        ..old(bounty)@
                    })
                    &&& final(bounty)@.payout_ready()
                    &&& old(bounty)@.partitioned() ==> final(bounty)@.partitioned()
                    &&& receipt.refund.recipient@ == old(bounty)@.owner_id
                    &&& receipt.refund.amount == old(bounty)@.amt_storage - old(
                        bounty,
                    )@.storage_used
                    &&& receipt.event@ == spec_completed_event(coordinator_id@, final(bounty)@)
                    &&& final(self)@.bounties == bounties_upsert(
                        old(self)@.bounties,
                        final(bounty)@,
                    )
                    &&& !final(self)@.active_bounties.contains(old(bounty)@.id)
                    &&& forall|x: Seq<char>|
                        x != old(bounty)@.id ==> (#[trigger] final(self)@.active_bounties.contains(
                            x,
                        ) <==> old(self)@.active_bounties.contains(x))
                    &&& final(self)@.nodes == if cancel {
                        old(self)@.nodes
                    } else {
                        spec_mark_unanswered(
                            old(self)@.nodes,
                            old(bounty)@.unanswered_nodes,
                            now,
                        )
                    }
                    &&& final(self)@.total_completed_bounties == if cancel {
                        old(self)@.total_completed_bounties
                    } else {
                        sat_inc(old(self)@.total_completed_bounties)
                    }
                    &&& final(self)@.node_queue == old(self)@.node_queue
                    &&& final(self)@.offline_nodes == old(self)@.offline_nodes
                    &&& final(self)@.universal_bounty_index == old(self)@.universal_bounty_index
                    &&& final(self)@.total_payouts == old(self)@.total_payouts
                    &&& final(self)@.node_by_owner == old(self)@.node_by_owner
                    &&& final(self)@.bounty_by_owner == old(self)@.bounty_by_owner
                },
                Err(e) => {
                    &&& final(self)@ == old(self)@
                    &&& final(bounty)@ == old(bounty)@
                    &&& (e == CoordinatorError::BountyNotPending <==> old(bounty)@.status
                        != BountyStatus::Pending)
                    &&& (e == CoordinatorError::NoQuorum <==> (old(bounty)@.status
                        == BountyStatus::Pending && !cancel && old(
                        bounty,
                    )@.successful_nodes.len() < old(bounty)@.min_nodes && old(
                        bounty,
                    )@.failed_nodes.len() < old(bounty)@.min_nodes))
                },
            },
    {
        if !(bounty.status == BountyStatus::Pending) {
            return Err(CoordinatorError::BountyNotPending);
        }
        let success_quorum = (bounty.successful_nodes.len() as u64) >= bounty.min_nodes;
        let failure_quorum = (bounty.failed_nodes.len() as u64) >= bounty.min_nodes;
        if !cancel && !success_quorum && !failure_quorum {
            return Err(CoordinatorError::NoQuorum);
        }
        if cancel {
            bounty.status = BountyStatus::Cancelled;
        } else if success_quorum {
            bounty.status = BountyStatus::Success;
        } else {
            bounty.status = BountyStatus::Failed;
        }
        proof {
            assert(bounty@ =~= (BountyView {
                status: spec_closed_status(old(bounty)@, cancel),
                ..old(bounty)@
            }));
        }
        // Penalize elected nodes that never responded — skipped on a cancel.
        if !cancel {
            let ghost nodes0 = self.nodes.deep_view();
            let ghost marked = spec_mark_unanswered(nodes0, old(bounty)@.unanswered_nodes, now);
            let mut i: usize = 0;
            while i < self.nodes.len()
                invariant
                    i <= self.nodes.len(),
                    self.nodes@.len() == nodes0.len(),
                    nodes0 == old(self)@.nodes,
                    marked == spec_mark_unanswered(nodes0, old(bounty)@.unanswered_nodes, now),
                    bounty@.unanswered_nodes == old(bounty)@.unanswered_nodes,
                    forall|j: int|
                        #![trigger self.nodes.deep_view()[j]]
                        0 <= j < i ==> self.nodes.deep_view()[j] == marked[j],
                    forall|j: int|
                        #![trigger self.nodes.deep_view()[j]]
                        i <= j < nodes0.len() ==> self.nodes.deep_view()[j] == nodes0[j],
                    self@.node_queue == old(self)@.node_queue,
                    self@.bounties == old(self)@.bounties,
                    self@.active_bounties == old(self)@.active_bounties,
                    self@.offline_nodes == old(self)@.offline_nodes,
                    self@.universal_bounty_index == old(self)@.universal_bounty_index,
                    self@.total_completed_bounties == old(self)@.total_completed_bounties,
                    self@.total_payouts == old(self)@.total_payouts,
                    self@.node_by_owner == old(self)@.node_by_owner,
                    self@.bounty_by_owner == old(self)@.bounty_by_owner,
                decreases self.nodes.len() - i,
            {
                proof {
                    assert(self.nodes.deep_view()[i as int] == nodes0[i as int]);
                }
                let penalized = crate::ids::contains_id(
                    &bounty.unanswered_nodes,
                    &self.nodes[i].id,
                );
                proof {
                    assert(penalized == old(bounty)@.unanswered_nodes.contains(
                        nodes0[i as int].id,
                    ));
                }
                if penalized {
                    let cur = self.nodes[i].clone();
                    let ghost gi = i as int;
                    proof {
                        assert(cur@ == nodes0[gi]);
                    }
                    let bumped = Node {
                        unanswered_runs: cur.unanswered_runs.saturating_add(1),
                        last_unanswered: now,
                        ..cur
                    };
                    proof {
                        assert(bumped@ =~= spec_bump_unanswered(nodes0[gi], now));
                        assert(marked[gi] == spec_bump_unanswered(nodes0[gi], now));
                    }
                    let ghost pre = self.nodes.deep_view();
                    let ghost bv = bumped@;
                    self.nodes.set(i, bumped);
                    proof {
                        assert(self.nodes.deep_view() =~= pre.update(gi, bv));
                        assert(self.nodes.deep_view()[gi] == marked[gi]);
                    }
                } else {
                    proof {
                        assert(marked[i as int] == nodes0[i as int]);
                    }
                }
                i = i + 1;
            }
            proof {
                assert(self.nodes.deep_view() =~= spec_mark_unanswered(
                    nodes0,
                    old(bounty)@.unanswered_nodes,
                    now,
                ));
            }
            self.total_completed_bounties = self.total_completed_bounties.saturating_add(1);
        }
        let ghost cid = coordinator_id@;
        let recipients = bounty.get_payout_recipient_ids();
        let strategy = bounty.get_payout_strategy();
        let log = BountyCompletedLog {
            coordinator_id: coordinator_id,
            bounty_id: bounty.id.clone(),
            node_ids: clone_ids(&bounty.elected_nodes),
            reward_recipients: recipients,
            outcome: bounty.status,
            payout_strategy: strategy,
            message: None,
        };
        let event = EventLog {
            standard: event_standard_name(),
            version: event_standard_spec(),
            event: EventLogVariant::BountyCompleted(log),
        };
        remove_id(&mut self.active_bounties, &bounty.id);
        upsert_bounty(&mut self.bounties, bounty.clone());
        let refund = Transfer {
            recipient: bounty.owner_id.clone(),
            amount: bounty.amt_storage - bounty.storage_used,
        };
        proof {
            assert(event@ =~= spec_completed_event(cid, bounty@));
        }
        Ok(CloseReceipt { event, refund })
    }

    /// Creates a bounty and elects its workers.
    ///
    /// The attached funds must equal the storage budget plus the reward
    /// pool exactly, each part must meet its protocol minimum, and at least
    /// `ceil(min_nodes * 5 / 4)` nodes must be registered. The bounty gets a
    /// collision-free identity from the naming counter, a truncated
    /// timestamp, and the creator; its unanswered set starts as the elected
    /// list. The caller receives the new record and the creation
    /// notification to forward.
    pub fn create_bounty(
        &mut self,
        file_location: String,
        file_download_protocol: crate::bounty::SupportedDownloadProtocols,
        min_nodes: u64,
        timeout_seconds: u64,
        network_required: bool,
        gpu_required: bool,
        amt_storage: u128,
        amt_node_reward: u128,
        signer: String,
        coordinator_id: String,
        attached_deposit: u128,
        now: u64,
        draws: &Vec<u64>,
    ) -> (res: Result<(Bounty, EventLog), CoordinatorError>)
        requires
            old(self)@.wf(),
            draws@.len() >= old(self)@.node_queue.len(),
        ensures
            final(self)@.wf(),
            res is Err ==> final(self)@ == old(self)@,
            (attached_deposit == amt_storage + amt_node_reward && amt_storage >= MIN_STORAGE
                && amt_node_reward >= MIN_REWARD && old(self)@.nodes.len() >= spec_node_padding(
                min_nodes,
            ) && old(self)@.universal_bounty_index < u64::MAX && !has_bounty(
                old(self)@.bounties,
                spec_bounty_id(
                    old(self)@.universal_bounty_index as int,
                    (now as int) % 1_000_000_000,
                    signer@,
                ),
            ) && crate::election::eligible_pool(
                old(self)@.node_queue,
                old(self)@.nodes,
                Bounty::spec_new(
                    spec_bounty_id(
                        old(self)@.universal_bounty_index as int,
                        (now as int) % 1_000_000_000,
                        signer@,
                    ),
                    signer@,
                    coordinator_id@,
                    file_location@,
                    file_download_protocol,
                    min_nodes,
                    timeout_seconds,
                    network_required,
                    gpu_required,
                    amt_storage,
                    amt_node_reward,
                    now,
                ),
            ).len() < spec_node_padding(min_nodes)) ==> res is Err,
            (attached_deposit == amt_storage + amt_node_reward && amt_storage >= MIN_STORAGE
                && amt_node_reward >= MIN_REWARD && old(self)@.nodes.len() >= spec_node_padding(
                min_nodes,
            ) && old(self)@.universal_bounty_index < u64::MAX && !has_bounty(
                old(self)@.bounties,
                spec_bounty_id(
                    old(self)@.universal_bounty_index as int,
                    (now as int) % 1_000_000_000,
                    signer@,
                ),
            ) && crate::election::queue_clean(
                old(self)@.node_queue,
                old(self)@.nodes,
                Bounty::spec_new(
                    spec_bounty_id(
                        old(self)@.universal_bounty_index as int,
                        (now as int) % 1_000_000_000,
                        signer@,
                    ),
                    signer@,
                    coordinator_id@,
                    file_location@,
                    file_download_protocol,
                    min_nodes,
                    timeout_seconds,
                    network_required,
                    gpu_required,
                    amt_storage,
                    amt_node_reward,
                    now,
                ),
            ) && crate::election::eligible_pool(
                old(self)@.node_queue,
                old(self)@.nodes,
                Bounty::spec_new(
                    spec_bounty_id(
                        old(self)@.universal_bounty_index as int,
                        (now as int) % 1_000_000_000,
                        signer@,
                    ),
                    signer@,
                    coordinator_id@,
                    file_location@,
                    file_download_protocol,
                    min_nodes,
                    timeout_seconds,
                    network_required,
                    gpu_required,
                    amt_storage,
                    amt_node_reward,
                    now,
                ),
            ).len() >= spec_node_padding(min_nodes)) ==> res is Ok,
            match res {
                Ok(r) => {
                    &&& attached_deposit == amt_storage + amt_node_reward
                    &&& amt_storage >= MIN_STORAGE
                    &&& amt_node_reward >= MIN_REWARD
                    &&& old(self)@.nodes.len() >= spec_node_padding(min_nodes)
                    &&& old(self)@.universal_bounty_index < u64::MAX
                    &&& r.0@.id == spec_bounty_id(
                        old(self)@.universal_bounty_index as int,
                        (now as int) % 1_000_000_000,
                        signer@,
                    )
                    &&& !has_bounty(old(self)@.bounties, r.0@.id)
                    &&& r.0@ == (BountyView {
                        elected_nodes: r.0@.elected_nodes,
                        unanswered_nodes: r.0@.elected_nodes,
                        ..Bounty::spec_new(
                            r.0@.id,
                            signer@,
                            coordinator_id@,
                            file_location@,
                            file_download_protocol,
                            min_nodes,
                            timeout_seconds,
                            network_required,
                            gpu_required,
                            amt_storage,
                            amt_node_reward,
                            now,
                        )
                    })
                    &&& r.0@.elected_nodes.len() == spec_node_padding(min_nodes)
                    &&& r.0@.elected_nodes.no_duplicates()
                    &&& forall|i: int|
                        #![trigger r.0@.elected_nodes[i]]
                        0 <= i < r.0@.elected_nodes.len() ==> qualified_member(
                            old(self)@.nodes,
                            r.0@,
                            r.0@.elected_nodes[i],
                        )
                    &&& r.0@.wf()
                    &&& r.0@.partitioned()
                    &&& final(self)@.bounties == old(self)@.bounties.push(r.0@)
                    &&& final(self)@.universal_bounty_index == old(
                        self,
                    )@.universal_bounty_index + 1
                    &&& final(self)@.active_bounties.contains(r.0@.id)
                    &&& forall|x: Seq<char>|
                        x != r.0@.id ==> (#[trigger] final(self)@.active_bounties.contains(x)
                            <==> old(self)@.active_bounties.contains(x))
                    &&& final(self)@.bounty_by_owner == owner_index_add(
                        old(self)@.bounty_by_owner,
                        signer@,
                        r.0@.id,
                    )
                    &&& final(self)@.nodes == old(self)@.nodes
                    &&& final(self)@.offline_nodes == old(self)@.offline_nodes
                    &&& final(self)@.node_by_owner == old(self)@.node_by_owner
                    &&& final(self)@.total_completed_bounties == old(
                        self,
                    )@.total_completed_bounties
                    &&& final(self)@.total_payouts == old(self)@.total_payouts
                    &&& final(self)@.node_queue.len() == old(self)@.node_queue.len()
                    &&& forall|x: Seq<char>|
                        #[trigger] final(self)@.node_queue.contains(x) <==> old(
                            self,
                        )@.node_queue.contains(x)
                    &&& r.1@ == spec_created_event(coordinator_id@, r.0@.id, r.0@.elected_nodes)
                },
                Err(e) => {
                    &&& (e == CoordinatorError::FundsMismatch <==> attached_deposit != amt_storage
                        + amt_node_reward)
                    &&& (e == CoordinatorError::StorageBelowMinimum <==> (attached_deposit
                        == amt_storage + amt_node_reward && amt_storage < MIN_STORAGE))
                    &&& (e == CoordinatorError::RewardBelowMinimum <==> (attached_deposit
                        == amt_storage + amt_node_reward && amt_storage >= MIN_STORAGE
                        && amt_node_reward < MIN_REWARD))
                    &&& (e == CoordinatorError::NotEnoughNodes <==> (attached_deposit
                        == amt_storage + amt_node_reward && amt_storage >= MIN_STORAGE
                        && amt_node_reward >= MIN_REWARD && old(self)@.nodes.len()
                        < spec_node_padding(min_nodes)))
                    &&& (e == CoordinatorError::Overflow <==> (attached_deposit == amt_storage
                        + amt_node_reward && amt_storage >= MIN_STORAGE && amt_node_reward
                        >= MIN_REWARD && old(self)@.nodes.len() >= spec_node_padding(min_nodes)
                        && old(self)@.universal_bounty_index == u64::MAX))
                    &&& (e == CoordinatorError::BountyAlreadyExists <==> (attached_deposit
                        == amt_storage + amt_node_reward && amt_storage >= MIN_STORAGE
                        && amt_node_reward >= MIN_REWARD && old(self)@.nodes.len()
                        >= spec_node_padding(min_nodes) && old(self)@.universal_bounty_index
                        < u64::MAX && has_bounty(
                        old(self)@.bounties,
                        spec_bounty_id(
                            old(self)@.universal_bounty_index as int,
                            (now as int) % 1_000_000_000,
                            signer@,
                        ),
                    )))
                },
            },
    {
        let total_nodes = self.get_node_padding(min_nodes);
        let funds_ok: bool = match amt_storage.checked_add(amt_node_reward) {
            Some(total) => attached_deposit == total,
            None => false,
        };
        if !funds_ok {
            return Err(CoordinatorError::FundsMismatch);
        }
        if amt_storage < MIN_STORAGE {
            return Err(CoordinatorError::StorageBelowMinimum);
        }
        if amt_node_reward < MIN_REWARD {
            return Err(CoordinatorError::RewardBelowMinimum);
        }
        if (self.nodes.len() as u64) < total_nodes {
            return Err(CoordinatorError::NotEnoughNodes);
        }
        if self.universal_bounty_index == u64::MAX {
            return Err(CoordinatorError::Overflow);
        }
        // Truncate the timestamp to keep the identity short; the naming
        // counter keeps it collision-free, and the table is checked anyway.
        let bounty_key = make_bounty_id(
            self.universal_bounty_index,
            now % 1_000_000_000,
            &signer,
        );
        let existing = find_bounty_index(&self.bounties, &bounty_key);
        if existing.is_some() {
            return Err(CoordinatorError::BountyAlreadyExists);
        }
        let mut bounty = Bounty::new_bounty(
            bounty_key,
            file_location,
            file_download_protocol,
            min_nodes,
            timeout_seconds,
            network_required,
            gpu_required,
            amt_storage,
            amt_node_reward,
            signer.clone(),
            coordinator_id.clone(),
            now,
        );
        assert(total_nodes <= self.nodes.len() as u64);
        proof {
            assert(bounty@ =~= Bounty::spec_new(
                spec_bounty_id(
                    old(self)@.universal_bounty_index as int,
                    (now as int) % 1_000_000_000,
                    signer@,
                ),
                signer@,
                coordinator_id@,
                file_location@,
                file_download_protocol,
                min_nodes,
                timeout_seconds,
                network_required,
                gpu_required,
                amt_storage,
                amt_node_reward,
                now,
            ));
        }
        let elected = match self.elect_nodes(&bounty, total_nodes as usize, draws) {
            Err(e) => {
                return Err(e);
            },
            Ok(v) => v,
        };
        bounty.elected_nodes = elected;
        bounty.unanswered_nodes = clone_ids(&bounty.elected_nodes);
        proof {
            assert(bounty@.wf());
            assert forall|id: Seq<char>| #[trigger] bounty@.elected_nodes.contains(id) implies (
                !has_answer(bounty@.answers, id) <==> bounty@.unanswered_nodes.contains(id)) by {
            }
            assert(bounty@.partitioned());
        }
        self.universal_bounty_index = self.universal_bounty_index + 1;
        add_id_for_owner(&mut self.bounty_by_owner, &signer, bounty.id.clone());
        let ghost bounties0 = self.bounties.deep_view();
        self.bounties.push(bounty.clone());
        proof {
            let s1 = self.bounties.deep_view();
            assert(s1 =~= bounties0.push(bounty@));
            assert forall|p: int, q: int|
                #![trigger s1[p], s1[q]]
                0 <= p < q < s1.len() implies s1[p].id != s1[q].id by {
                if q < bounties0.len() {
                    assert(bounties0[p].id != bounties0[q].id);
                } else {
                    assert(s1[q] == bounty@);
                    assert(s1[p] == bounties0[p]);
                }
            }
        }
        if !contains_id(&self.active_bounties, &bounty.id) {
            let ghost av = self.active_bounties.deep_view();
            proof {
                crate::ids::lemma_no_dup_push(av, bounty@.id);
            }
            push_id(&mut self.active_bounties, bounty.id.clone());
            proof {
                assert forall|x: Seq<char>| #[trigger] self.active_bounties.deep_view().contains(
                    x,
                ) implies (av.contains(x) || x == bounty@.id) by {
                    crate::ids::lemma_contains_push(av, bounty@.id, x);
                }
                assert(self.active_bounties.deep_view().contains(bounty@.id)) by {
                    crate::ids::lemma_contains_push(av, bounty@.id, bounty@.id);
                }
                assert forall|x: Seq<char>| av.contains(x) implies #[trigger] self
                    .active_bounties
                    .deep_view()
                    .contains(x) by {
                    crate::ids::lemma_contains_push(av, bounty@.id, x);
                }
            }
        }
        let log = BountyCreatedLog {
            coordinator_id: coordinator_id,
            bounty_id: bounty.id.clone(),
            node_ids: clone_ids(&bounty.elected_nodes),
            message: None,
        };
        let event = EventLog {
            standard: event_standard_name(),
            version: event_standard_spec(),
            event: EventLogVariant::BountyCreated(log),
        };
        Ok((bounty, event))
    }

    /// Records one node's answer to a pending bounty, closing the bounty the
    /// moment either outcome reaches the quorum.
    ///
    /// Only the node's owner may submit, only for an elected node, only
    /// once, and only while the bounty can still pay for the record. The
    /// answer joins the outcome set it reports, the node leaves the
    /// unanswered set, and the node's run history is updated. If, right
    /// after recording, the successful or the failed set reaches exactly
    /// `min_nodes`, the bounty closes — success wins where both quorums
    /// could be read, which the disjoint partition rules out — and the
    /// caller receives the close receipt to act on.
    #[verifier::rlimit(100)]
    pub fn post_answer(
        &mut self,
        bounty_id: String,
        node_id: String,
        answer: String,
        message: String,
        status: NodeResponseStatus,
        signer: String,
        coordinator_id: String,
        storage_byte_cost: u128,
        now: u64,
    ) -> (res: Result<(NodeResponse, Option<CloseReceipt>), CoordinatorError>)
        requires
            old(self)@.wf(),
            status != NodeResponseStatus::EMPTY,
        ensures
            final(self)@.wf(),
            match res {
                Ok(r) => spec_post_answer_error(
                    old(self)@,
                    bounty_id@,
                    node_id@,
                    signer@,
                    storage_byte_cost,
                ) is None,
                Err(e) => Some(e) == spec_post_answer_error(
                    old(self)@,
                    bounty_id@,
                    node_id@,
                    signer@,
                    storage_byte_cost,
                ) && final(self)@ == old(self)@,
            },
            res is Ok ==> ({
                &&& res->Ok_0.0@ == (ResponseView {
                    node_id: node_id@,
                    solution: answer@,
                    message: message@,
                    status: status,
                    payout_claimed: false,
                })
                &&& has_bounty(final(self)@.bounties, bounty_id@)
                &&& post_answer_bounty_shape(
                    bounty_for(old(self)@.bounties, bounty_id@),
                    bounty_for(final(self)@.bounties, bounty_id@),
                    res->Ok_0.0@,
                    storage_byte_cost,
                )
                &&& (bounty_for(old(self)@.bounties, bounty_id@).partitioned() ==> bounty_for(
                    final(self)@.bounties,
                    bounty_id@,
                ).partitioned())
                &&& (res->Ok_0.1 is Some <==> (bounty_for(
                    final(self)@.bounties,
                    bounty_id@,
                ).successful_nodes.len() == bounty_for(final(self)@.bounties, bounty_id@).min_nodes
                    || bounty_for(final(self)@.bounties, bounty_id@).failed_nodes.len()
                    == bounty_for(final(self)@.bounties, bounty_id@).min_nodes))
                &&& bounty_for(final(self)@.bounties, bounty_id@).status == (if res->Ok_0.1
                    is Some {
                    if bounty_for(final(self)@.bounties, bounty_id@).successful_nodes.len()
                        >= bounty_for(final(self)@.bounties, bounty_id@).min_nodes {
                        BountyStatus::Success
                    } else {
                        BountyStatus::Failed
                    }
                } else {
                    BountyStatus::Pending
                })
                &&& (res->Ok_0.1 matches Some(rc) ==> rc.event@ == spec_completed_event(
                    coordinator_id@,
                    bounty_for(final(self)@.bounties, bounty_id@),
                ) && rc.refund.recipient@ == bounty_for(final(self)@.bounties, bounty_id@).owner_id
                    && rc.refund.amount == bounty_for(final(self)@.bounties, bounty_id@).amt_storage
                    - bounty_for(final(self)@.bounties, bounty_id@).storage_used)
                &&& final(self)@.bounties == bounties_upsert(
                    old(self)@.bounties,
                    bounty_for(final(self)@.bounties, bounty_id@),
                )
                &&& final(self)@.nodes == (if res->Ok_0.1 is Some {
                    spec_mark_unanswered(
                        old(self)@.nodes,
                        bounty_for(final(self)@.bounties, bounty_id@).unanswered_nodes,
                        now,
                    )
                } else {
                    old(self)@.nodes
                }).update(
                    crate::coordinator::node_index_of(old(self)@.nodes, node_id@),
                    spec_bump_for_status(
                        crate::coordinator::node_for(old(self)@.nodes, node_id@),
                        status,
                        now,
                    ),
                )
                &&& (res->Ok_0.1 is None ==> final(self)@.active_bounties == old(
                    self,
                )@.active_bounties && final(self)@.total_completed_bounties == old(
                    self,
                )@.total_completed_bounties)
                &&& (res->Ok_0.1 is Some ==> !final(self)@.active_bounties.contains(bounty_id@)
                    && (forall|x: Seq<char>|
                    x != bounty_id@ ==> (#[trigger] final(self)@.active_bounties.contains(x)
                        <==> old(self)@.active_bounties.contains(x))) && final(self)@.total_completed_bounties == sat_inc(old(self)@.total_completed_bounties))
                &&& final(self)@.node_queue == old(self)@.node_queue
                &&& final(self)@.offline_nodes == old(self)@.offline_nodes
                &&& final(self)@.universal_bounty_index == old(self)@.universal_bounty_index
                &&& final(self)@.total_payouts == old(self)@.total_payouts
                &&& final(self)@.node_by_owner == old(self)@.node_by_owner
                &&& final(self)@.bounty_by_owner == old(self)@.bounty_by_owner
            }),
    {
        let bi: usize;
        match find_bounty_index(&self.bounties, &bounty_id) {
            None => {
                return Err(CoordinatorError::BountyNotFound);
            },
            Some(i) => {
                bi = i;
            },
        }
        proof {
            crate::coordinator::lemma_bounty_at(self@.bounties, bounty_id@, bi as int);
        }
        let ni: usize;
        match crate::coordinator::find_node_index(&self.nodes, &node_id) {
            None => {
                return Err(CoordinatorError::NodeNotFound);
            },
            Some(i) => {
                ni = i;
            },
        }
        proof {
            crate::coordinator::lemma_node_at(self@.nodes, node_id@, ni as int);
        }
        if !(signer == self.nodes[ni].owner_id) {
            return Err(CoordinatorError::Unauthorized);
        }
        let mut bounty = self.bounties[bi].clone();
        proof {
            assert(bounty@ == bounty_for(old(self)@.bounties, bounty_id@));
            assert(bounty@.wf());
        }
        if !(bounty.status == BountyStatus::Pending) {
            return Err(CoordinatorError::BountyNotPending);
        }
        if !contains_id(&bounty.elected_nodes, &node_id) {
            return Err(CoordinatorError::NotElected);
        }
        let already = crate::bounty::find_answer_index(&bounty.answers, &node_id);
        if already.is_some() {
            proof {
                let w = already->Some_0 as int;
                assert(has_answer(bounty@.answers, node_id@));
            }
            return Err(CoordinatorError::AlreadyAnswered);
        }
        let fits: bool = match storage_byte_cost.checked_mul(ANSWER_RECORD_BYTES) {
            Some(est) => match bounty.storage_used.checked_add(est) {
                Some(used2) => used2 <= bounty.amt_storage,
                None => false,
            },
            None => false,
        };
        if !fits {
            return Err(CoordinatorError::StorageExhausted);
        }
        let est: u128 = storage_byte_cost * ANSWER_RECORD_BYTES;
        let response = NodeResponse::new_node_response(
            node_id.clone(),
            answer,
            message,
            status,
        );
        let ghost b0v = bounty@;
        let ghost rv = response@;
        // Record the answer: into the answer table, out of the unanswered
        // set, into the reported outcome's set.
        bounty.answers.push(response.clone());
        proof {
            assert(bounty@.answers =~= b0v.answers.push(rv));
            crate::bounty::lemma_answers_unique_push(b0v.answers, rv);
        }
        remove_id(&mut bounty.unanswered_nodes, &node_id);
        let ghost set0 = match status {
            NodeResponseStatus::SUCCESS => b0v.successful_nodes,
            NodeResponseStatus::FAILURE => b0v.failed_nodes,
            NodeResponseStatus::REJECT => b0v.rejected_nodes,
            NodeResponseStatus::EMPTY => b0v.rejected_nodes,
        };
        proof {
            assert(!set0.contains(node_id@)) by {
                if set0.contains(node_id@) {
                    assert(has_answer(b0v.answers, node_id@));
                }
            }
            crate::ids::lemma_no_dup_push(set0, node_id@);
        }
        match status {
            NodeResponseStatus::SUCCESS => {
                push_id(&mut bounty.successful_nodes, node_id.clone());
            },
            NodeResponseStatus::FAILURE => {
                push_id(&mut bounty.failed_nodes, node_id.clone());
            },
            NodeResponseStatus::REJECT => {
                push_id(&mut bounty.rejected_nodes, node_id.clone());
            },
            NodeResponseStatus::EMPTY => {
                proof {
                    assert(false);
                }
            },
        }
        bounty.storage_used = bounty.storage_used + est;
        proof {
            lemma_recorded_answer(b0v, bounty@, rv, status, est as int);
        }
        let closed = (bounty.successful_nodes.len() as u64) == bounty.min_nodes || (
        bounty.failed_nodes.len() as u64) == bounty.min_nodes;
        let ghost recorded = bounty@;
        let receipt_opt: Option<CloseReceipt>;
        if closed {
            let closing = self.close_bounty(&mut bounty, false, coordinator_id, now);
            match closing {
                Ok(rc) => {
                    receipt_opt = Some(rc);
                },
                Err(_) => {
                    proof {
                        assert(false);
                    }
                    return Err(CoordinatorError::NoQuorum);
                },
            }
        } else {
            upsert_bounty(&mut self.bounties, bounty.clone());
            receipt_opt = None;
        }
        proof {
            crate::coordinator::lemma_bounties_upsert_props(old(self)@.bounties, bounty@);
            assert(has_bounty(self.bounties.deep_view(), bounty_id@));
            assert(bounty_for(self.bounties.deep_view(), bounty_id@) == bounty@);
        }
        // The answering node's run history, committed last; the close's
        // penalty pass cannot have touched it, because the node had just
        // left the unanswered set.
        proof {
            if closed {
                assert(self.nodes.deep_view() == spec_mark_unanswered(
                    old(self)@.nodes,
                    recorded.unanswered_nodes,
                    now,
                ));
                assert(self.nodes.deep_view().len() == old(self)@.nodes.len());
                assert(!recorded.unanswered_nodes.contains(old(self)@.nodes[ni as int].id));
                assert(self.nodes.deep_view()[ni as int] == old(self)@.nodes[ni as int]);
            } else {
                assert(self.nodes.deep_view()[ni as int] == old(self)@.nodes[ni as int]);
            }
            assert(ni < self.nodes@.len());
        }
        let cur = self.nodes[ni].clone();
        proof {
            assert(cur@ == old(self)@.nodes[ni as int]);
        }
        let bumped = match status {
            NodeResponseStatus::SUCCESS => Node {
                successful_runs: cur.successful_runs.saturating_add(1),
                last_success: now,
                ..cur
            },
            NodeResponseStatus::FAILURE => Node {
                failed_runs: cur.failed_runs.saturating_add(1),
                last_failure: now,
                ..cur
            },
            NodeResponseStatus::REJECT => Node {
                rejected_runs: cur.rejected_runs.saturating_add(1),
                last_reject: now,
                ..cur
            },
            NodeResponseStatus::EMPTY => cur,
        };
        proof {
            assert(bumped@ =~= spec_bump_for_status(old(self)@.nodes[ni as int], status, now));
        }
        let ghost nodes_pre = self.nodes.deep_view();
        let ghost bv2 = bumped@;
        self.nodes.set(ni, bumped);
        proof {
            assert(self.nodes.deep_view() =~= nodes_pre.update(ni as int, bv2));
            assert forall|p: int, q: int|
                #![trigger self.nodes.deep_view()[p], self.nodes.deep_view()[q]]
                0 <= p < q < self.nodes.deep_view().len() implies self.nodes.deep_view()[p].id
                != self.nodes.deep_view()[q].id by {
                assert(nodes_pre[p].id == old(self)@.nodes[p].id);
                assert(nodes_pre[q].id == old(self)@.nodes[q].id);
            }
            assert forall|id: Seq<char>|
                #[trigger] crate::coordinator::has_node(self@.offline_nodes, id) implies
                !crate::coordinator::has_node(self.nodes.deep_view(), id) by {
                if crate::coordinator::has_node(self.nodes.deep_view(), id) {
                    let w = choose|w: int|
                        0 <= w < self.nodes.deep_view().len() && self.nodes.deep_view()[w].id
                            == id;
                    assert(old(self)@.nodes[w].id == id);
                    assert(crate::coordinator::has_node(old(self)@.nodes, id));
                }
            }
        }
        Ok((response, receipt_opt))
    }

    /// Cancels a pending bounty. Only the bounty's owner or the coordinator
    /// itself may do so; the bounty's status moves to `Cancelled`, no
    /// unanswered node is penalized, and the caller receives the completion
    /// notification and the storage refund.
    pub fn cancel_bounty(
        &mut self,
        bounty_id: String,
        signer: String,
        coordinator_id: String,
        now: u64,
    ) -> (res: Result<CloseReceipt, CoordinatorError>)
        requires
            old(self)@.wf(),
        ensures
            final(self)@.wf(),
            res is Err <==> (!has_bounty(old(self)@.bounties, bounty_id@) || bounty_for(
                old(self)@.bounties,
                bounty_id@,
            ).status != BountyStatus::Pending || (signer@ != bounty_for(
                old(self)@.bounties,
                bounty_id@,
            ).owner_id && signer@ != coordinator_id@)),
            match res {
                Ok(receipt) => {
                    &&& has_bounty(old(self)@.bounties, bounty_id@)
                    &&& bounty_for(old(self)@.bounties, bounty_id@).status == BountyStatus::Pending
                    &&& final(self)@.bounties == bounties_upsert(
                        old(self)@.bounties,
                        (BountyView {
                            status: BountyStatus::Cancelled,
                            ..bounty_for(old(self)@.bounties, bounty_id@)
                        }),
                    )
                    &&& (bounty_for(old(self)@.bounties, bounty_id@).partitioned()
                        ==> (BountyView {
                        status: BountyStatus::Cancelled,
                        ..bounty_for(old(self)@.bounties, bounty_id@)
                    }).partitioned())
                    &&& receipt.event@ == spec_completed_event(
                        coordinator_id@,
                        (BountyView {
                            status: BountyStatus::Cancelled,
                            ..bounty_for(old(self)@.bounties, bounty_id@)
                        }),
                    )
                    &&& receipt.refund.recipient@ == bounty_for(
                        old(self)@.bounties,
                        bounty_id@,
                    ).owner_id
                    &&& receipt.refund.amount == bounty_for(
                        old(self)@.bounties,
                        bounty_id@,
                    ).amt_storage - bounty_for(old(self)@.bounties, bounty_id@).storage_used
                    &&& !final(self)@.active_bounties.contains(bounty_id@)
                    &&& forall|x: Seq<char>|
                        x != bounty_id@ ==> (#[trigger] final(self)@.active_bounties.contains(x)
                            <==> old(self)@.active_bounties.contains(x))
                    &&& final(self)@ == (CoordinatorView {
                        bounties: final(self)@.bounties,
                        active_bounties: final(self)@.active_bounties,
                        ..old(self)@
                    })
                },
                Err(e) => {
                    &&& final(self)@ == old(self)@
                    &&& (e == CoordinatorError::BountyNotFound <==> !has_bounty(
                        old(self)@.bounties,
                        bounty_id@,
                    ))
                    &&& (e == CoordinatorError::BountyNotPending <==> (has_bounty(
                        old(self)@.bounties,
                        bounty_id@,
                    ) && bounty_for(old(self)@.bounties, bounty_id@).status
                        != BountyStatus::Pending))
                    &&& (e == CoordinatorError::Unauthorized <==> (has_bounty(
                        old(self)@.bounties,
                        bounty_id@,
                    ) && bounty_for(old(self)@.bounties, bounty_id@).status
                        == BountyStatus::Pending && signer@ != bounty_for(
                        old(self)@.bounties,
                        bounty_id@,
                    ).owner_id && signer@ != coordinator_id@))
                },
            },
    {
        let bi: usize;
        match find_bounty_index(&self.bounties, &bounty_id) {
            None => {
                return Err(CoordinatorError::BountyNotFound);
            },
            Some(i) => {
                bi = i;
            },
        }
        proof {
            crate::coordinator::lemma_bounty_at(self@.bounties, bounty_id@, bi as int);
        }
        if !(self.bounties[bi].status == BountyStatus::Pending) {
            return Err(CoordinatorError::BountyNotPending);
        }
        if !(self.bounties[bi].owner_id == signer || signer == coordinator_id) {
            return Err(CoordinatorError::Unauthorized);
        }
        let mut bounty = self.bounties[bi].clone();
        let closing = self.close_bounty(&mut bounty, true, coordinator_id, now);
        match closing {
            Ok(receipt) => Ok(receipt),
            Err(_) => {
                proof {
                    assert(false);
                }
                Err(CoordinatorError::BountyNotPending)
            },
        }
    }

    /// Cancels every bounty the signer's index entry lists. All-or-nothing:
    /// if any listed bounty is missing, already closed, or not the signer's
    /// to cancel, nothing changes and the first such reason comes back.
    pub fn cancel_all_my_bounties(
        &mut self,
        signer: String,
        coordinator_id: String,
        now: u64,
    ) -> (res: Result<Vec<CloseReceipt>, CoordinatorError>)
        requires
            old(self)@.wf(),
        ensures
            final(self)@.wf(),
            res is Err <==> !spec_all_cancellable(old(self)@, signer@, coordinator_id@),
            match res {
                Ok(receipts) => {
                    &&& receipts@.len() == ids_for_owner(old(self)@.bounty_by_owner, signer@).len()
                    &&& final(self)@.bounties.len() == old(self)@.bounties.len()
                    &&& forall|i: int|
                        #![trigger final(self)@.bounties[i]]
                        0 <= i < old(self)@.bounties.len() ==> final(self)@.bounties[i] == (
                        if ids_for_owner(old(self)@.bounty_by_owner, signer@).contains(
                            old(self)@.bounties[i].id,
                        ) {
                            BountyView { status: BountyStatus::Cancelled, ..old(self)@.bounties[i] }
                        } else {
                            old(self)@.bounties[i]
                        })
                    &&& forall|x: Seq<char>|
                        #[trigger] final(self)@.active_bounties.contains(x) <==> (old(
                            self,
                        )@.active_bounties.contains(x) && !ids_for_owner(
                            old(self)@.bounty_by_owner,
                            signer@,
                        ).contains(x))
                    &&& final(self)@ == (CoordinatorView {
                        bounties: final(self)@.bounties,
                        active_bounties: final(self)@.active_bounties,
                        ..old(self)@
                    })
                },
                Err(e) => {
                    &&& final(self)@ == old(self)@
                    &&& (e == CoordinatorError::BountyNotFound || e
                        == CoordinatorError::BountyNotPending || e
                        == CoordinatorError::Unauthorized)
                },
            },
    {
        let ghost owned = ids_for_owner(old(self)@.bounty_by_owner, signer@);
        let owned_ids: Vec<String>;
        match crate::coordinator::find_owner_index(&self.bounty_by_owner, &signer) {
            None => {
                proof {
                    assert(owned =~= Seq::<Seq<char>>::empty());
                    assert(spec_all_cancellable(old(self)@, signer@, coordinator_id@));
                }
                return Ok(Vec::new());
            },
            Some(oi) => {
                proof {
                    crate::coordinator::lemma_owner_at(self@.bounty_by_owner, signer@, oi as int);
                }
                owned_ids = clone_ids(&self.bounty_by_owner[oi].ids);
            },
        }
        // Validate everything first, so a failure leaves no partial state.
        let mut k: usize = 0;
        while k < owned_ids.len()
            invariant
                k <= owned_ids.len(),
                owned_ids.deep_view() == owned,
                owned == ids_for_owner(old(self)@.bounty_by_owner, signer@),
                self@.wf(),
                *self == *old(self),
                forall|j: int|
                    #![trigger owned[j]]
                    0 <= j < k ==> has_bounty(self@.bounties, owned[j]) && bounty_for(
                        self@.bounties,
                        owned[j],
                    ).status == BountyStatus::Pending && (bounty_for(
                        self@.bounties,
                        owned[j],
                    ).owner_id == signer@ || signer@ == coordinator_id@),
                forall|j: int, l: int| 0 <= j < l < k ==> owned[j] != owned[l],
            decreases owned_ids.len() - k,
        {
            let ghost gk = k as int;
            let bi: usize;
            match find_bounty_index(&self.bounties, &owned_ids[k]) {
                None => {
                    proof {
                        assert(!has_bounty(
                            old(self)@.bounties,
                            ids_for_owner(old(self)@.bounty_by_owner, signer@)[gk],
                        ));
                        assert(!spec_all_cancellable(old(self)@, signer@, coordinator_id@));
                    }
                    return Err(CoordinatorError::BountyNotFound);
                },
                Some(i) => {
                    bi = i;
                },
            }
            proof {
                crate::coordinator::lemma_bounty_at(
                    self@.bounties,
                    owned.index(k as int),
                    bi as int,
                );
            }
            if !(self.bounties[bi].status == BountyStatus::Pending) {
                proof {
                    assert(bounty_for(
                        old(self)@.bounties,
                        ids_for_owner(old(self)@.bounty_by_owner, signer@)[gk],
                    ).status != BountyStatus::Pending);
                    assert(!spec_all_cancellable(old(self)@, signer@, coordinator_id@));
                }
                return Err(CoordinatorError::BountyNotPending);
            }
            if !(self.bounties[bi].owner_id == signer || signer == coordinator_id) {
                proof {
                    assert(bounty_for(
                        old(self)@.bounties,
                        ids_for_owner(old(self)@.bounty_by_owner, signer@)[gk],
                    ).owner_id != signer@ && signer@ != coordinator_id@);
                    assert(!spec_all_cancellable(old(self)@, signer@, coordinator_id@));
                }
                return Err(CoordinatorError::Unauthorized);
            }
            // A repeated identity would find its bounty already cancelled.
            let mut j: usize = 0;
            while j < k
                invariant
                    j <= k,
                    k < owned_ids@.len(),
                    owned_ids.deep_view() == owned,
                    owned == ids_for_owner(old(self)@.bounty_by_owner, signer@),
                    self@.wf(),
                    *self == *old(self),
                    forall|l: int| 0 <= l < j ==> owned[l] != owned[k as int],
                decreases k - j,
            {
                if owned_ids[j] == owned_ids[k] {
                    proof {
                        let gj = j as int;
                        assert(ids_for_owner(old(self)@.bounty_by_owner, signer@)[gj]
                            == ids_for_owner(old(self)@.bounty_by_owner, signer@)[k as int]);
                        assert(!ids_for_owner(
                            old(self)@.bounty_by_owner,
                            signer@,
                        ).no_duplicates());
                        assert(!spec_all_cancellable(old(self)@, signer@, coordinator_id@));
                    }
                    return Err(CoordinatorError::BountyNotPending);
                }
                j = j + 1;
            }
            k = k + 1;
        }
        proof {
            assert forall|j: int|
                #![trigger ids_for_owner(old(self)@.bounty_by_owner, signer@)[j]]
                0 <= j < ids_for_owner(old(self)@.bounty_by_owner, signer@).len() implies (
            has_bounty(
                old(self)@.bounties,
                ids_for_owner(old(self)@.bounty_by_owner, signer@)[j],
            ) && bounty_for(
                old(self)@.bounties,
                ids_for_owner(old(self)@.bounty_by_owner, signer@)[j],
            ).status == BountyStatus::Pending && (bounty_for(
                old(self)@.bounties,
                ids_for_owner(old(self)@.bounty_by_owner, signer@)[j],
            ).owner_id == signer@ || signer@ == coordinator_id@)) by {
                assert(owned[j] == ids_for_owner(old(self)@.bounty_by_owner, signer@)[j]);
            }
            assert(ids_for_owner(old(self)@.bounty_by_owner, signer@).no_duplicates()) by {
                assert forall|j: int, l: int|
                    0 <= j < l < owned.len() implies owned[j] != owned[l] by {}
            }
            assert(spec_all_cancellable(old(self)@, signer@, coordinator_id@));
        }
        let mut receipts: Vec<CloseReceipt> = Vec::new();
        let mut k2: usize = 0;
        while k2 < owned_ids.len()
            invariant
                k2 <= owned_ids.len(),
                owned_ids.deep_view() == owned,
                self@.wf(),
                receipts@.len() == k2,
                forall|j: int|
                    #![trigger owned[j]]
                    0 <= j < owned.len() ==> has_bounty(old(self)@.bounties, owned[j])
                        && bounty_for(old(self)@.bounties, owned[j]).status
                        == BountyStatus::Pending && (bounty_for(
                        old(self)@.bounties,
                        owned[j],
                    ).owner_id == signer@ || signer@ == coordinator_id@),
                forall|j: int, l: int| 0 <= j < l < owned.len() ==> owned[j] != owned[l],
                self@.bounties.len() == old(self)@.bounties.len(),
                forall|i: int|
                    #![trigger self@.bounties[i]]
                    0 <= i < old(self)@.bounties.len() ==> self@.bounties[i] == (if exists|j: int|
                        0 <= j < k2 && owned[j] == old(self)@.bounties[i].id {
                        BountyView { status: BountyStatus::Cancelled, ..old(self)@.bounties[i] }
                    } else {
                        old(self)@.bounties[i]
                    }),
                forall|x: Seq<char>|
                    #[trigger] self@.active_bounties.contains(x) <==> (old(
                        self,
                    )@.active_bounties.contains(x) && !(exists|j: int|
                        0 <= j < k2 && owned[j] == x)),
                self@ == (CoordinatorView {
                    bounties: self@.bounties,
                    active_bounties: self@.active_bounties,
                    ..old(self)@
                }),
            decreases owned_ids.len() - k2,
        {
            let ghost gk = k2 as int;
            let ghost pre = self@;
            proof {
                assert(owned[gk] == old(self)@.bounties[crate::coordinator::bounty_index_of(
                    old(self)@.bounties,
                    owned[gk],
                )].id) by {
                    assert(has_bounty(old(self)@.bounties, owned[gk]));
                }
                let w = crate::coordinator::bounty_index_of(old(self)@.bounties, owned[gk]);
                assert(self@.bounties[w] == old(self)@.bounties[w]) by {
                    if exists|j: int| 0 <= j < gk && owned[j] == old(self)@.bounties[w].id {
                        let j = choose|j: int| 0 <= j < gk && owned[j] == old(
                            self,
                        )@.bounties[w].id;
                        assert(owned[j] != owned[gk]);
                    }
                }
                crate::coordinator::lemma_bounty_at(self@.bounties, owned[gk], w);
            }
            let id_k = owned_ids[k2].clone();
            let cancel_res = self.cancel_bounty(
                id_k,
                signer.clone(),
                coordinator_id.clone(),
                now,
            );
            match cancel_res {
                Ok(rc) => {
                    receipts.push(rc);
                },
                Err(_) => {
                    proof {
                        assert(false);
                    }
                    return Err(CoordinatorError::BountyNotPending);
                },
            }
            proof {
                let w = crate::coordinator::bounty_index_of(pre.bounties, owned[gk]);
                crate::coordinator::lemma_bounty_at(pre.bounties, owned[gk], w);
                assert(self@.bounties =~= pre.bounties.update(
                    w,
                    (BountyView { status: BountyStatus::Cancelled, ..bounty_for(
                        pre.bounties,
                        owned[gk],
                    ) }),
                ));
                assert forall|i: int|
                    #![trigger self@.bounties[i]]
                    0 <= i < old(self)@.bounties.len() implies self@.bounties[i] == (if exists|
                    j: int,
                |
                    0 <= j < gk + 1 && owned[j] == old(self)@.bounties[i].id {
                    BountyView { status: BountyStatus::Cancelled, ..old(self)@.bounties[i] }
                } else {
                    old(self)@.bounties[i]
                }) by {
                    if i == w {
                        assert(owned[gk] == old(self)@.bounties[i].id);
                    } else {
                        assert(self@.bounties[i] == pre.bounties[i]);
                        if exists|j: int| 0 <= j < gk + 1 && owned[j] == old(
                            self,
                        )@.bounties[i].id {
                            let j = choose|j: int|
                                0 <= j < gk + 1 && owned[j] == old(self)@.bounties[i].id;
                            if j == gk {
                                assert(old(self)@.bounties[i].id == owned[gk]);
                                assert(old(self)@.bounties[w].id == owned[gk]);
                                assert(false);
                            }
                        }
                    }
                }
            }
            k2 = k2 + 1;
        }
        Ok(receipts)
    }

    /// Builds the retry notification for a bounty, carrying only the listed
    /// nodes so nodes already holding the assignment are not re-notified.
    pub fn send_retry_event(
        &self,
        bounty_id: &String,
        nodes: &Vec<String>,
        coordinator_id: String,
    ) -> (res: Result<EventLog, CoordinatorError>)
        requires
            self@.wf(),
        ensures
            res is Err <==> !has_bounty(self@.bounties, bounty_id@),
            match res {
                Ok(ev) => ev@ == spec_retry_event(coordinator_id@, bounty_id@, nodes.deep_view()),
                Err(e) => e == CoordinatorError::BountyNotFound,
            },
    {
        if find_bounty_index(&self.bounties, bounty_id).is_none() {
            return Err(CoordinatorError::BountyNotFound);
        }
        let log = BountyRetryLog {
            coordinator_id: coordinator_id,
            bounty_id: bounty_id.clone(),
            node_ids: clone_ids(nodes),
            message: Some(String::new()),
        };
        let event = EventLog {
            standard: event_standard_name(),
            version: event_standard_spec(),
            event: EventLogVariant::BountyRetry(log),
        };
        proof {
            assert(event@ =~= spec_retry_event(
                event@.event->BountyRetry_0.coordinator_id,
                bounty_id@,
                nodes.deep_view(),
            ));
        }
        Ok(event)
    }

    /// Reads a node's answer to a closed or cancelled bounty. For a bounty
    /// still in flight, use [`Coordinator::call_get_answer`].
    pub fn get_answer(&self, bounty_id: String, node_id: String) -> (res: Result<
        NodeResponse,
        CoordinatorError,
    >)
        requires
            self@.wf(),
        ensures
            res is Err <==> (!has_bounty(self@.bounties, bounty_id@) || bounty_for(
                self@.bounties,
                bounty_id@,
            ).status == BountyStatus::Pending || !crate::coordinator::has_node(
                self@.nodes,
                node_id@,
            ) || !has_answer(bounty_for(self@.bounties, bounty_id@).answers, node_id@)),
            match res {
                Ok(r) => {
                    &&& has_bounty(self@.bounties, bounty_id@)
                    &&& bounty_for(self@.bounties, bounty_id@).status != BountyStatus::Pending
                    &&& crate::coordinator::has_node(self@.nodes, node_id@)
                    &&& has_answer(bounty_for(self@.bounties, bounty_id@).answers, node_id@)
                    &&& r@ == crate::bounty::answer_for(
                        bounty_for(self@.bounties, bounty_id@).answers,
                        node_id@,
                    )
                },
                Err(e) => {
                    &&& (e == CoordinatorError::BountyNotFound <==> !has_bounty(
                        self@.bounties,
                        bounty_id@,
                    ))
                    &&& (e == CoordinatorError::BountyStillPending <==> (has_bounty(
                        self@.bounties,
                        bounty_id@,
                    ) && bounty_for(self@.bounties, bounty_id@).status == BountyStatus::Pending))
                    &&& (e == CoordinatorError::NodeNotFound <==> (has_bounty(
                        self@.bounties,
                        bounty_id@,
                    ) && bounty_for(self@.bounties, bounty_id@).status != BountyStatus::Pending
                        && !crate::coordinator::has_node(self@.nodes, node_id@)))
                    &&& (e == CoordinatorError::AnswerNotFound <==> (has_bounty(
                        self@.bounties,
                        bounty_id@,
                    ) && bounty_for(self@.bounties, bounty_id@).status != BountyStatus::Pending
                        && crate::coordinator::has_node(self@.nodes, node_id@) && !has_answer(
                        bounty_for(self@.bounties, bounty_id@).answers,
                        node_id@,
                    )))
                },
            },
    {
        let bi: usize;
        match find_bounty_index(&self.bounties, &bounty_id) {
            None => {
                return Err(CoordinatorError::BountyNotFound);
            },
            Some(i) => {
                bi = i;
            },
        }
        proof {
            crate::coordinator::lemma_bounty_at(self@.bounties, bounty_id@, bi as int);
        }
        if self.bounties[bi].status == BountyStatus::Pending {
            return Err(CoordinatorError::BountyStillPending);
        }
        if crate::coordinator::find_node_index(&self.nodes, &node_id).is_none() {
            return Err(CoordinatorError::NodeNotFound);
        }
        let ai: usize;
        match crate::bounty::find_answer_index(&self.bounties[bi].answers, &node_id) {
            None => {
                return Err(CoordinatorError::AnswerNotFound);
            },
            Some(i) => {
                ai = i;
            },
        }
        proof {
            crate::bounty::lemma_answer_at(
                bounty_for(self@.bounties, bounty_id@).answers,
                node_id@,
                ai as int,
            );
        }
        Ok(self.bounties[bi].answers[ai].clone())
    }

    /// Reads a node's answer to a bounty still in flight. Only the node's
    /// owner or the coordinator itself may look.
    pub fn call_get_answer(
        &self,
        bounty_id: String,
        node_id: String,
        signer: String,
        coordinator_id: String,
    ) -> (res: Result<NodeResponse, CoordinatorError>)
        requires
            self@.wf(),
        ensures
            res is Err <==> (!has_bounty(self@.bounties, bounty_id@) || bounty_for(
                self@.bounties,
                bounty_id@,
            ).status != BountyStatus::Pending || !bounty_for(
                self@.bounties,
                bounty_id@,
            ).elected_nodes.contains(node_id@) || !crate::coordinator::has_node(
                self@.nodes,
                node_id@,
            ) || (signer@ != coordinator_id@ && signer@ != crate::coordinator::node_for(
                self@.nodes,
                node_id@,
            ).owner_id) || !has_answer(bounty_for(self@.bounties, bounty_id@).answers, node_id@)),
            match res {
                Ok(r) => {
                    &&& has_bounty(self@.bounties, bounty_id@)
                    &&& bounty_for(self@.bounties, bounty_id@).status == BountyStatus::Pending
                    &&& bounty_for(self@.bounties, bounty_id@).elected_nodes.contains(node_id@)
                    &&& crate::coordinator::has_node(self@.nodes, node_id@)
                    &&& (signer@ == coordinator_id@ || signer@ == crate::coordinator::node_for(
                        self@.nodes,
                        node_id@,
                    ).owner_id)
                    &&& has_answer(bounty_for(self@.bounties, bounty_id@).answers, node_id@)
                    &&& r@ == crate::bounty::answer_for(
                        bounty_for(self@.bounties, bounty_id@).answers,
                        node_id@,
                    )
                },
                Err(e) => {
                    e == CoordinatorError::BountyNotFound || e == CoordinatorError::BountyNotPending
                        || e == CoordinatorError::NotElected || e == CoordinatorError::NodeNotFound
                        || e == CoordinatorError::Unauthorized || e
                        == CoordinatorError::AnswerNotFound
                },
            },
    {
        let bi: usize;
        match find_bounty_index(&self.bounties, &bounty_id) {
            None => {
                return Err(CoordinatorError::BountyNotFound);
            },
            Some(i) => {
                bi = i;
            },
        }
        proof {
            crate::coordinator::lemma_bounty_at(self@.bounties, bounty_id@, bi as int);
        }
        if !(self.bounties[bi].status == BountyStatus::Pending) {
            return Err(CoordinatorError::BountyNotPending);
        }
        if !contains_id(&self.bounties[bi].elected_nodes, &node_id) {
            return Err(CoordinatorError::NotElected);
        }
        let ni: usize;
        match crate::coordinator::find_node_index(&self.nodes, &node_id) {
            None => {
                return Err(CoordinatorError::NodeNotFound);
            },
            Some(i) => {
                ni = i;
            },
        }
        proof {
            crate::coordinator::lemma_node_at(self@.nodes, node_id@, ni as int);
        }
        if !(signer == coordinator_id || signer == self.nodes[ni].owner_id) {
            return Err(CoordinatorError::Unauthorized);
        }
        let ai: usize;
        match crate::bounty::find_answer_index(&self.bounties[bi].answers, &node_id) {
            None => {
                return Err(CoordinatorError::AnswerNotFound);
            },
            Some(i) => {
                ai = i;
            },
        }
        proof {
            crate::bounty::lemma_answer_at(
                bounty_for(self@.bounties, bounty_id@).answers,
                node_id@,
                ai as int,
            );
        }
        Ok(self.bounties[bi].answers[ai].clone())
    }

    /// Whether a node should still work and answer a bounty: it is elected,
    /// has not answered, and no outcome has reached its quorum yet.
    pub fn should_post_answer(&self, bounty_id: String, node_id: String) -> (res: Result<
        bool,
        CoordinatorError,
    >)
        requires
            self@.wf(),
        ensures
            res is Err <==> (!has_bounty(self@.bounties, bounty_id@)
                || !crate::coordinator::has_node(self@.nodes, node_id@)),
            match res {
                Ok(b) => b == {
                    let bounty = bounty_for(self@.bounties, bounty_id@);
                    &&& bounty.status == BountyStatus::Pending
                    &&& bounty.elected_nodes.contains(node_id@)
                    &&& !has_answer(bounty.answers, node_id@)
                    &&& bounty.successful_nodes.len() < bounty.min_nodes
                    &&& bounty.failed_nodes.len() < bounty.min_nodes
                },
                Err(e) => {
                    &&& (e == CoordinatorError::BountyNotFound <==> !has_bounty(
                        self@.bounties,
                        bounty_id@,
                    ))
                    &&& (e == CoordinatorError::NodeNotFound <==> (has_bounty(
                        self@.bounties,
                        bounty_id@,
                    ) && !crate::coordinator::has_node(self@.nodes, node_id@)))
                },
            },
    {
        let bi: usize;
        match find_bounty_index(&self.bounties, &bounty_id) {
            None => {
                return Err(CoordinatorError::BountyNotFound);
            },
            Some(i) => {
                bi = i;
            },
        }
        proof {
            crate::coordinator::lemma_bounty_at(self@.bounties, bounty_id@, bi as int);
        }
        if crate::coordinator::find_node_index(&self.nodes, &node_id).is_none() {
            return Err(CoordinatorError::NodeNotFound);
        }
        let bounty = &self.bounties[bi];
        if !(bounty.status == BountyStatus::Pending) {
            return Ok(false);
        }
        if !contains_id(&bounty.elected_nodes, &node_id) {
            return Ok(false);
        }
        if crate::bounty::find_answer_index(&bounty.answers, &node_id).is_some() {
            return Ok(false);
        }
        if (bounty.successful_nodes.len() as u64) >= bounty.min_nodes {
            return Ok(false);
        }
        if (bounty.failed_nodes.len() as u64) >= bounty.min_nodes {
            return Ok(false);
        }
        Ok(true)
    }

    /// Records a bare rejection from a node's owner: a `REJECT` response is
    /// written (replacing any previous response), the node joins the
    /// rejected set and leaves the unanswered set, and its reject history is
    /// updated. No lifecycle guard applies and no closing is triggered.
    /// Rejecting an elected node that had not answered keeps the partition
    /// invariant; a rejection from outside the elected set, or over an
    /// earlier answer, does not respect it.
    pub fn reject_bounty(
        &mut self,
        bounty_id: String,
        node_id: String,
        message: String,
        signer: String,
        now: u64,
    ) -> (res: Result<NodeResponse, CoordinatorError>)
        requires
            old(self)@.wf(),
        ensures
            final(self)@.wf(),
            res is Err <==> (!has_bounty(old(self)@.bounties, bounty_id@)
                || !crate::coordinator::has_node(old(self)@.nodes, node_id@) || signer@
                != crate::coordinator::node_for(old(self)@.nodes, node_id@).owner_id),
            match res {
                Ok(r) => {
                    &&& r@ == (ResponseView {
                        node_id: node_id@,
                        solution: Seq::empty(),
                        message: message@,
                        status: NodeResponseStatus::REJECT,
                        payout_claimed: false,
                    })
                    &&& final(self)@.bounties == bounties_upsert(
                        old(self)@.bounties,
                        bounty_for(final(self)@.bounties, bounty_id@),
                    )
                    &&& bounty_for(final(self)@.bounties, bounty_id@).answers
                        == crate::bounty::answers_upsert(
                        bounty_for(old(self)@.bounties, bounty_id@).answers,
                        r@,
                    )
                    &&& bounty_for(final(self)@.bounties, bounty_id@).rejected_nodes.contains(
                        node_id@,
                    )
                    &&& forall|x: Seq<char>|
                        x != node_id@ ==> (#[trigger] bounty_for(
                            final(self)@.bounties,
                            bounty_id@,
                        ).rejected_nodes.contains(x) <==> bounty_for(
                            old(self)@.bounties,
                            bounty_id@,
                        ).rejected_nodes.contains(x))
                    &&& !bounty_for(final(self)@.bounties, bounty_id@).unanswered_nodes.contains(
                        node_id@,
                    )
                    &&& forall|x: Seq<char>|
                        x != node_id@ ==> (#[trigger] bounty_for(
                            final(self)@.bounties,
                            bounty_id@,
                        ).unanswered_nodes.contains(x) <==> bounty_for(
                            old(self)@.bounties,
                            bounty_id@,
                        ).unanswered_nodes.contains(x))
                    &&& ((bounty_for(old(self)@.bounties, bounty_id@).partitioned() && bounty_for(
                        old(self)@.bounties,
                        bounty_id@,
                    ).elected_nodes.contains(node_id@) && !has_answer(
                        bounty_for(old(self)@.bounties, bounty_id@).answers,
                        node_id@,
                    )) ==> bounty_for(final(self)@.bounties, bounty_id@).partitioned())
                    &&& bounty_for(final(self)@.bounties, bounty_id@) == (BountyView {
                        answers: bounty_for(final(self)@.bounties, bounty_id@).answers,
                        rejected_nodes: bounty_for(
                            final(self)@.bounties,
                            bounty_id@,
                        ).rejected_nodes,
                        unanswered_nodes: bounty_for(
                            final(self)@.bounties,
                            bounty_id@,
                        ).unanswered_nodes,
                        ..bounty_for(old(self)@.bounties, bounty_id@)
                    })
                    &&& final(self)@.nodes == old(self)@.nodes.update(
                        crate::coordinator::node_index_of(old(self)@.nodes, node_id@),
                        (NodeView {
                            rejected_runs: sat_inc(
                                crate::coordinator::node_for(
                                    old(self)@.nodes,
                                    node_id@,
                                ).rejected_runs,
                            ),
                            last_reject: now,
                            ..crate::coordinator::node_for(old(self)@.nodes, node_id@)
                        }),
                    )
                    &&& final(self)@ == (CoordinatorView {
                        nodes: final(self)@.nodes,
                        bounties: final(self)@.bounties,
                        ..old(self)@
                    })
                },
                Err(e) => {
                    &&& final(self)@ == old(self)@
                    &&& (e == CoordinatorError::BountyNotFound <==> !has_bounty(
                        old(self)@.bounties,
                        bounty_id@,
                    ))
                    &&& (e == CoordinatorError::NodeNotFound <==> (has_bounty(
                        old(self)@.bounties,
                        bounty_id@,
                    ) && !crate::coordinator::has_node(old(self)@.nodes, node_id@)))
                    &&& (e == CoordinatorError::Unauthorized <==> (has_bounty(
                        old(self)@.bounties,
                        bounty_id@,
                    ) && crate::coordinator::has_node(old(self)@.nodes, node_id@) && signer@
                        != crate::coordinator::node_for(old(self)@.nodes, node_id@).owner_id))
                },
            },
    {
        let bi: usize;
        match find_bounty_index(&self.bounties, &bounty_id) {
            None => {
                return Err(CoordinatorError::BountyNotFound);
            },
            Some(i) => {
                bi = i;
            },
        }
        proof {
            crate::coordinator::lemma_bounty_at(self@.bounties, bounty_id@, bi as int);
        }
        let ni: usize;
        match crate::coordinator::find_node_index(&self.nodes, &node_id) {
            None => {
                return Err(CoordinatorError::NodeNotFound);
            },
            Some(i) => {
                ni = i;
            },
        }
        proof {
            crate::coordinator::lemma_node_at(self@.nodes, node_id@, ni as int);
        }
        if !(signer == self.nodes[ni].owner_id) {
            return Err(CoordinatorError::Unauthorized);
        }
        let mut bounty = self.bounties[bi].clone();
        let ghost b0v = bounty@;
        let response = NodeResponse::new_node_response(
            node_id.clone(),
            String::new(),
            message,
            NodeResponseStatus::REJECT,
        );
        let ghost rv = response@;
        let was_present = contains_id(&bounty.rejected_nodes, &node_id);
        let ghost rj = bounty.rejected_nodes.deep_view();
        if !was_present {
            proof {
                crate::ids::lemma_no_dup_push(rj, node_id@);
            }
            push_id(&mut bounty.rejected_nodes, node_id.clone());
            proof {
                assert forall|x: Seq<char>| #[trigger] bounty@.rejected_nodes.contains(
                    x,
                ) implies (rj.contains(x) || x == node_id@) by {
                    crate::ids::lemma_contains_push(rj, node_id@, x);
                }
                assert(bounty@.rejected_nodes.contains(node_id@)) by {
                    crate::ids::lemma_contains_push(rj, node_id@, node_id@);
                }
                assert forall|x: Seq<char>| rj.contains(x) implies #[trigger] bounty@
                    .rejected_nodes
                    .contains(x) by {
                    crate::ids::lemma_contains_push(rj, node_id@, x);
                }
            }
        }
        crate::bounty::upsert_answer(&mut bounty.answers, response.clone());
        remove_id(&mut bounty.unanswered_nodes, &node_id);
        proof {
            crate::bounty::lemma_answers_upsert_props(b0v.answers, rv);
            assert forall|id: Seq<char>| #[trigger] bounty@.unanswered_nodes.contains(
                id,
            ) implies bounty@.elected_nodes.contains(id) by {
                assert(id != node_id@);
                assert(b0v.unanswered_nodes.contains(id));
            }
            assert((b0v.partitioned() && b0v.elected_nodes.contains(node_id@) && !has_answer(
                b0v.answers,
                node_id@,
            )) ==> bounty@.partitioned()) by {
                if b0v.partitioned() && b0v.elected_nodes.contains(node_id@) && !has_answer(
                    b0v.answers,
                    node_id@,
                ) {
                    assert(b0v.unanswered_nodes.contains(node_id@));
                    assert(!b0v.rejected_nodes.contains(node_id@));
                    assert(!was_present);
                    assert(bounty@.rejected_nodes == rj.push(node_id@));
                    assert(bounty@.answers == b0v.answers.push(rv));
                    lemma_recorded_answer(b0v, bounty@, rv, NodeResponseStatus::REJECT, 0);
                }
            }
            assert(bounty@.wf()) by {
                assert forall|id: Seq<char>| #[trigger] bounty@.successful_nodes.contains(
                    id,
                ) implies has_answer(bounty@.answers, id) by {
                    assert(has_answer(b0v.answers, id));
                }
                assert forall|id: Seq<char>| #[trigger] bounty@.failed_nodes.contains(id) implies
                    has_answer(bounty@.answers, id) by {
                    assert(has_answer(b0v.answers, id));
                }
                assert forall|id: Seq<char>| #[trigger] bounty@.rejected_nodes.contains(
                    id,
                ) implies has_answer(bounty@.answers, id) by {
                    if id != node_id@ {
                        assert(b0v.rejected_nodes.contains(id));
                        assert(has_answer(b0v.answers, id));
                    }
                }
                assert forall|i: int|
                    #![trigger bounty@.answers[i]]
                    0 <= i < bounty@.answers.len() && bounty@.answers[i].status
                        == NodeResponseStatus::SUCCESS implies bounty@.successful_nodes.contains(
                    bounty@.answers[i].node_id,
                ) by {
                    if has_answer(b0v.answers, rv.node_id) {
                        let w = crate::bounty::answer_index_of(b0v.answers, rv.node_id);
                        if i != w {
                            assert(bounty@.answers[i] == b0v.answers[i]);
                        }
                    } else {
                        if i < b0v.answers.len() {
                            assert(bounty@.answers[i] == b0v.answers[i]);
                        }
                    }
                }
                assert forall|i: int|
                    #![trigger bounty@.answers[i]]
                    0 <= i < bounty@.answers.len() && bounty@.answers[i].status
                        == NodeResponseStatus::FAILURE implies bounty@.failed_nodes.contains(
                    bounty@.answers[i].node_id,
                ) by {
                    if has_answer(b0v.answers, rv.node_id) {
                        let w = crate::bounty::answer_index_of(b0v.answers, rv.node_id);
                        if i != w {
                            assert(bounty@.answers[i] == b0v.answers[i]);
                        }
                    } else {
                        if i < b0v.answers.len() {
                            assert(bounty@.answers[i] == b0v.answers[i]);
                        }
                    }
                }
            }
        }
        upsert_bounty(&mut self.bounties, bounty.clone());
        proof {
            crate::coordinator::lemma_bounties_upsert_props(old(self)@.bounties, bounty@);
        }
        let cur = self.nodes[ni].clone();
        let bumped = Node {
            rejected_runs: cur.rejected_runs.saturating_add(1),
            last_reject: now,
            ..cur
        };
        let ghost nodes_pre = self.nodes.deep_view();
        let ghost bv2 = bumped@;
        self.nodes.set(ni, bumped);
        proof {
            assert(self.nodes.deep_view() =~= nodes_pre.update(ni as int, bv2));
            assert forall|p: int, q: int|
                #![trigger self.nodes.deep_view()[p], self.nodes.deep_view()[q]]
                0 <= p < q < self.nodes.deep_view().len() implies self.nodes.deep_view()[p].id
                != self.nodes.deep_view()[q].id by {
                assert(nodes_pre[p].id == old(self)@.nodes[p].id);
                assert(nodes_pre[q].id == old(self)@.nodes[q].id);
            }
            assert forall|id: Seq<char>|
                #[trigger] crate::coordinator::has_node(self@.offline_nodes, id) implies
                !crate::coordinator::has_node(self.nodes.deep_view(), id) by {
                if crate::coordinator::has_node(self.nodes.deep_view(), id) {
                    let w = choose|w: int|
                        0 <= w < self.nodes.deep_view().len() && self.nodes.deep_view()[w].id
                            == id;
                    assert(old(self)@.nodes[w].id == id);
                    assert(crate::coordinator::has_node(old(self)@.nodes, id));
                }
            }
            assert(final(self)@ =~= (CoordinatorView {
                nodes: final(self)@.nodes,
                bounties: final(self)@.bounties,
                ..old(self)@
            }));
        }
        Ok(response)
    }

    /// Grows a bounty's prepaid storage budget by the attached deposit and
    /// asks the elected nodes to retry. Only the bounty's owner, or the
    /// coordinator the bounty was created under, may add to the deposit.
    pub fn add_storage_deposit(
        &mut self,
        bounty_id: String,
        signer: String,
        coordinator_id: String,
        attached_deposit: u128,
    ) -> (res: Result<(EventLog, Transfer), CoordinatorError>)
        requires
            old(self)@.wf(),
        ensures
            final(self)@.wf(),
            res is Err <==> (!has_bounty(old(self)@.bounties, bounty_id@) || (signer@
                != bounty_for(old(self)@.bounties, bounty_id@).owner_id && coordinator_id@
                != bounty_for(old(self)@.bounties, bounty_id@).coordinator_id) || bounty_for(
                old(self)@.bounties,
                bounty_id@,
            ).amt_storage + attached_deposit > u128::MAX),
            match res {
                Ok(r) => {
                    &&& final(self)@.bounties == bounties_upsert(
                        old(self)@.bounties,
                        (BountyView {
                            amt_storage: (bounty_for(
                                old(self)@.bounties,
                                bounty_id@,
                            ).amt_storage + attached_deposit) as u128,
                            ..bounty_for(old(self)@.bounties, bounty_id@)
                        }),
                    )
                    &&& r.0@ == spec_retry_event(
                        coordinator_id@,
                        bounty_id@,
                        bounty_for(old(self)@.bounties, bounty_id@).elected_nodes,
                    )
                    &&& r.1.recipient@ == coordinator_id@
                    &&& r.1.amount == attached_deposit
                    &&& final(self)@ == (CoordinatorView {
                        bounties: final(self)@.bounties,
                        ..old(self)@
                    })
                },
                Err(e) => {
                    &&& final(self)@ == old(self)@
                    &&& (e == CoordinatorError::BountyNotFound || e
                        == CoordinatorError::Unauthorized || e == CoordinatorError::Overflow)
                },
            },
    {
        let bi: usize;
        match find_bounty_index(&self.bounties, &bounty_id) {
            None => {
                return Err(CoordinatorError::BountyNotFound);
            },
            Some(i) => {
                bi = i;
            },
        }
        proof {
            crate::coordinator::lemma_bounty_at(self@.bounties, bounty_id@, bi as int);
        }
        if !(self.bounties[bi].owner_id == signer
            || self.bounties[bi].coordinator_id == coordinator_id) {
            return Err(CoordinatorError::Unauthorized);
        }
        let grown: u128;
        match self.bounties[bi].amt_storage.checked_add(attached_deposit) {
            None => {
                return Err(CoordinatorError::Overflow);
            },
            Some(total) => {
                grown = total;
            },
        }
        let mut bounty = self.bounties[bi].clone();
        bounty.amt_storage = grown;
        let event = match self.send_retry_event(
            &bounty_id,
            &bounty.elected_nodes,
            coordinator_id.clone(),
        ) {
            Ok(ev) => ev,
            Err(_) => {
                proof {
                    assert(false);
                }
                return Err(CoordinatorError::BountyNotFound);
            },
        };
        upsert_bounty(&mut self.bounties, bounty);
        proof {
            assert(final(self)@ =~= (CoordinatorView {
                bounties: final(self)@.bounties,
                ..old(self)@
            }));
        }
        Ok((event, Transfer { recipient: coordinator_id, amount: attached_deposit }))
    }

    /// Grows a bounty's reward pool by the attached deposit and asks the
    /// elected nodes to retry. Only the bounty's owner, or the coordinator
    /// the bounty was created under, may add to the deposit.
    pub fn add_node_reward_deposit(
        &mut self,
        bounty_id: String,
        signer: String,
        coordinator_id: String,
        attached_deposit: u128,
    ) -> (res: Result<(EventLog, Transfer), CoordinatorError>)
        requires
            old(self)@.wf(),
        ensures
            final(self)@.wf(),
            res is Err <==> (!has_bounty(old(self)@.bounties, bounty_id@) || (signer@
                != bounty_for(old(self)@.bounties, bounty_id@).owner_id && coordinator_id@
                != bounty_for(old(self)@.bounties, bounty_id@).coordinator_id) || bounty_for(
                old(self)@.bounties,
                bounty_id@,
            ).amt_node_reward + attached_deposit > u128::MAX),
            match res {
                Ok(r) => {
                    &&& final(self)@.bounties == bounties_upsert(
                        old(self)@.bounties,
                        (BountyView {
                            amt_node_reward: (bounty_for(
                                old(self)@.bounties,
                                bounty_id@,
                            ).amt_node_reward + attached_deposit) as u128,
                            ..bounty_for(old(self)@.bounties, bounty_id@)
                        }),
                    )
                    &&& r.0@ == spec_retry_event(
                        coordinator_id@,
                        bounty_id@,
                        bounty_for(old(self)@.bounties, bounty_id@).elected_nodes,
                    )
                    &&& r.1.recipient@ == coordinator_id@
                    &&& r.1.amount == attached_deposit
                    &&& final(self)@ == (CoordinatorView {
                        bounties: final(self)@.bounties,
                        ..old(self)@
                    })
                },
                Err(e) => {
                    &&& final(self)@ == old(self)@
                    &&& (e == CoordinatorError::BountyNotFound || e
                        == CoordinatorError::Unauthorized || e == CoordinatorError::Overflow)
                },
            },
    {
        let bi: usize;
        match find_bounty_index(&self.bounties, &bounty_id) {
            None => {
                return Err(CoordinatorError::BountyNotFound);
            },
            Some(i) => {
                bi = i;
            },
        }
        proof {
            crate::coordinator::lemma_bounty_at(self@.bounties, bounty_id@, bi as int);
        }
        if !(self.bounties[bi].owner_id == signer
            || self.bounties[bi].coordinator_id == coordinator_id) {
            return Err(CoordinatorError::Unauthorized);
        }
        let grown: u128;
        match self.bounties[bi].amt_node_reward.checked_add(attached_deposit) {
            None => {
                return Err(CoordinatorError::Overflow);
            },
            Some(total) => {
                grown = total;
            },
        }
        let mut bounty = self.bounties[bi].clone();
        bounty.amt_node_reward = grown;
        let event = match self.send_retry_event(
            &bounty_id,
            &bounty.elected_nodes,
            coordinator_id.clone(),
        ) {
            Ok(ev) => ev,
            Err(_) => {
                proof {
                    assert(false);
                }
                return Err(CoordinatorError::BountyNotFound);
            },
        };
        upsert_bounty(&mut self.bounties, bounty);
        proof {
            assert(final(self)@ =~= (CoordinatorView {
                bounties: final(self)@.bounties,
                ..old(self)@
            }));
        }
        Ok((event, Transfer { recipient: coordinator_id, amount: attached_deposit }))
    }

    /// The sizes of a bounty's answer table and of its four outcome
    /// partitions.
    pub fn get_bounty_answer_counts(&self, bounty_id: String) -> (res: Result<
        BountyAnswerCounts,
        CoordinatorError,
    >)
        requires
            self@.wf(),
        ensures
            res is Err <==> !has_bounty(self@.bounties, bounty_id@),
            match res {
                Ok(c) => {
                    &&& c.answers == bounty_for(self@.bounties, bounty_id@).answers.len()
                    &&& c.failed_nodes == bounty_for(self@.bounties, bounty_id@).failed_nodes.len()
                    &&& c.successful_nodes == bounty_for(
                        self@.bounties,
                        bounty_id@,
                    ).successful_nodes.len()
                    &&& c.rejected_nodes == bounty_for(
                        self@.bounties,
                        bounty_id@,
                    ).rejected_nodes.len()
                    &&& c.unanswered_nodes == bounty_for(
                        self@.bounties,
                        bounty_id@,
                    ).unanswered_nodes.len()
                },
                Err(e) => e == CoordinatorError::BountyNotFound,
            },
    {
        let bi: usize;
        match find_bounty_index(&self.bounties, &bounty_id) {
            None => {
                return Err(CoordinatorError::BountyNotFound);
            },
            Some(i) => {
                bi = i;
            },
        }
        proof {
            crate::coordinator::lemma_bounty_at(self@.bounties, bounty_id@, bi as int);
        }
        let bounty = &self.bounties[bi];
        Ok(
            BountyAnswerCounts {
                answers: bounty.answers.len() as u64,
                failed_nodes: bounty.failed_nodes.len() as u64,
                successful_nodes: bounty.successful_nodes.len() as u64,
                rejected_nodes: bounty.rejected_nodes.len() as u64,
                unanswered_nodes: bounty.unanswered_nodes.len() as u64,
            },
        )
    }

    /// Tallies a closed or cancelled bounty's answers by solution text, so
    /// the creator can judge the result by vote count.
    pub fn get_bounty_result(&self, bounty_id: String) -> (res: Result<
        Vec<(String, u8)>,
        CoordinatorError,
    >)
        requires
            self@.wf(),
        ensures
            res is Err <==> (!has_bounty(self@.bounties, bounty_id@) || bounty_for(
                self@.bounties,
                bounty_id@,
            ).status == BountyStatus::Pending || (exists|k: int|
                #![trigger bounty_for(self@.bounties, bounty_id@).answers[k]]
                0 <= k < bounty_for(self@.bounties, bounty_id@).answers.len()
                    && crate::bounty::count_solution(
                    bounty_for(self@.bounties, bounty_id@).answers,
                    bounty_for(self@.bounties, bounty_id@).answers[k].solution,
                ) > 255)),
            match res {
                Ok(tally) => crate::bounty::spec_result_tally_ok(
                    tally@,
                    bounty_for(self@.bounties, bounty_id@).answers,
                ),
                Err(e) => {
                    &&& (e == CoordinatorError::BountyNotFound <==> !has_bounty(
                        self@.bounties,
                        bounty_id@,
                    ))
                    &&& (e == CoordinatorError::BountyStillPending <==> (has_bounty(
                        self@.bounties,
                        bounty_id@,
                    ) && bounty_for(self@.bounties, bounty_id@).status == BountyStatus::Pending))
                    &&& (e == CoordinatorError::Overflow <==> (has_bounty(
                        self@.bounties,
                        bounty_id@,
                    ) && bounty_for(self@.bounties, bounty_id@).status != BountyStatus::Pending
                        && (exists|k: int|
                        #![trigger bounty_for(self@.bounties, bounty_id@).answers[k]]
                        0 <= k < bounty_for(self@.bounties, bounty_id@).answers.len()
                            && crate::bounty::count_solution(
                            bounty_for(self@.bounties, bounty_id@).answers,
                            bounty_for(self@.bounties, bounty_id@).answers[k].solution,
                        ) > 255)))
                },
            },
    {
        let bi: usize;
        match find_bounty_index(&self.bounties, &bounty_id) {
            None => {
                return Err(CoordinatorError::BountyNotFound);
            },
            Some(i) => {
                bi = i;
            },
        }
        proof {
            crate::coordinator::lemma_bounty_at(self@.bounties, bounty_id@, bi as int);
        }
        if self.bounties[bi].status == BountyStatus::Pending {
            return Err(CoordinatorError::BountyStillPending);
        }
        let ghost answers = bounty_for(self@.bounties, bounty_id@).answers;
        let wide = crate::bounty::tally_solutions(&self.bounties[bi].answers);
        let mut p: usize = 0;
        while p < wide.len()
            invariant
                p <= wide@.len(),
                self@.wf(),
                has_bounty(self@.bounties, bounty_id@),
                answers == bounty_for(self@.bounties, bounty_id@).answers,
                bounty_for(self@.bounties, bounty_id@).status != BountyStatus::Pending,
                crate::bounty::spec_tally64_ok(wide@, answers),
                forall|q: int| #![trigger wide@[q]] 0 <= q < p ==> wide@[q].1 <= 255,
            decreases wide@.len() - p,
        {
            if wide[p].1 > 255 {
                // One solution occurs more often than the result's byte
                // counter can say.
                proof {
                    let key = wide@[p as int].0@;
                    assert(crate::bounty::count_solution(answers, key) > 255);
                    crate::bounty::lemma_count_solution_bounds(answers, key);
                    let w = choose|w: int|
                        0 <= w < answers.len() && answers[w].solution == key;
                    assert(bounty_for(self@.bounties, bounty_id@).answers[w].solution == key);
                    assert(crate::bounty::count_solution(
                        answers,
                        bounty_for(self@.bounties, bounty_id@).answers[w].solution,
                    ) > 255);
                }
                return Err(CoordinatorError::Overflow);
            }
            p = p + 1;
        }
        proof {
            assert forall|sol: Seq<char>| #[trigger] crate::bounty::count_solution(
                answers,
                sol,
            ) <= 255 by {
                if crate::bounty::count_solution(answers, sol) > 255 {
                    crate::bounty::lemma_count_solution_bounds(answers, sol);
                    let w = choose|w: int|
                        0 <= w < answers.len() && answers[w].solution == sol;
                    assert(answers[w].solution == sol);
                    let q = choose|q: int|
                        0 <= q < wide@.len() && wide@[q].0@ == answers[w].solution;
                    assert(wide@[q].1 as int == crate::bounty::count_solution(answers, sol));
                    assert(wide@[q].1 <= 255);
                }
            }
            assert(!(exists|k: int|
                #![trigger bounty_for(self@.bounties, bounty_id@).answers[k]]
                0 <= k < bounty_for(self@.bounties, bounty_id@).answers.len()
                    && crate::bounty::count_solution(
                    bounty_for(self@.bounties, bounty_id@).answers,
                    bounty_for(self@.bounties, bounty_id@).answers[k].solution,
                ) > 255));
        }
        let bounty_ref = &self.bounties[bi];
        proof {
            assert(bounty_ref@ == bounty_for(self@.bounties, bounty_id@));
        }
        let tally = bounty_ref.get_result();
        Ok(tally)
    }

    /// Replaces the elected nodes that never answered a still-pending
    /// bounty: those with answers keep their seats, the rest are dropped,
    /// an equal number of fresh nodes is elected and appended, and the
    /// unanswered set becomes exactly the fresh draw. The retry notification
    /// carries only the fresh nodes, so nodes already holding the assignment
    /// are not re-notified.
    #[verifier::rlimit(100)]
    pub fn reelect_unanswered_nodes(
        &mut self,
        bounty_id: String,
        coordinator_id: String,
        draws: &Vec<u64>,
    ) -> (res: Result<EventLog, CoordinatorError>)
        requires
            old(self)@.wf(),
            draws@.len() >= old(self)@.node_queue.len(),
        ensures
            final(self)@.wf(),
            (has_bounty(old(self)@.bounties, bounty_id@) && bounty_for(
                old(self)@.bounties,
                bounty_id@,
            ).status == BountyStatus::Pending && crate::election::eligible_pool(
                old(self)@.node_queue,
                old(self)@.nodes,
                (BountyView {
                    elected_nodes: kept_of(
                        bounty_for(old(self)@.bounties, bounty_id@).elected_nodes,
                        bounty_for(old(self)@.bounties, bounty_id@).answers,
                    ),
                    ..bounty_for(old(self)@.bounties, bounty_id@)
                }),
            ).len() < bounty_for(old(self)@.bounties, bounty_id@).elected_nodes.len() - kept_of(
                bounty_for(old(self)@.bounties, bounty_id@).elected_nodes,
                bounty_for(old(self)@.bounties, bounty_id@).answers,
            ).len()) ==> res is Err,
            (has_bounty(old(self)@.bounties, bounty_id@) && bounty_for(
                old(self)@.bounties,
                bounty_id@,
            ).status == BountyStatus::Pending && crate::election::queue_clean(
                old(self)@.node_queue,
                old(self)@.nodes,
                (BountyView {
                    elected_nodes: kept_of(
                        bounty_for(old(self)@.bounties, bounty_id@).elected_nodes,
                        bounty_for(old(self)@.bounties, bounty_id@).answers,
                    ),
                    ..bounty_for(old(self)@.bounties, bounty_id@)
                }),
            ) && crate::election::eligible_pool(
                old(self)@.node_queue,
                old(self)@.nodes,
                (BountyView {
                    elected_nodes: kept_of(
                        bounty_for(old(self)@.bounties, bounty_id@).elected_nodes,
                        bounty_for(old(self)@.bounties, bounty_id@).answers,
                    ),
                    ..bounty_for(old(self)@.bounties, bounty_id@)
                }),
            ).len() >= bounty_for(old(self)@.bounties, bounty_id@).elected_nodes.len() - kept_of(
                bounty_for(old(self)@.bounties, bounty_id@).elected_nodes,
                bounty_for(old(self)@.bounties, bounty_id@).answers,
            ).len()) ==> res is Ok,
            match res {
                Ok(ev) => {
                    &&& has_bounty(old(self)@.bounties, bounty_id@)
                    &&& bounty_for(old(self)@.bounties, bounty_id@).status == BountyStatus::Pending
                    &&& has_bounty(final(self)@.bounties, bounty_id@)
                    &&& reelected_shape(
                        bounty_for(old(self)@.bounties, bounty_id@),
                        bounty_for(final(self)@.bounties, bounty_id@),
                        old(self)@.nodes,
                    )
                    &&& (bounty_for(old(self)@.bounties, bounty_id@).partitioned() ==> bounty_for(
                        final(self)@.bounties,
                        bounty_id@,
                    ).partitioned())
                    &&& ev@ == spec_retry_event(
                        coordinator_id@,
                        bounty_id@,
                        bounty_for(final(self)@.bounties, bounty_id@).elected_nodes.skip(
                            kept_of(
                                bounty_for(old(self)@.bounties, bounty_id@).elected_nodes,
                                bounty_for(old(self)@.bounties, bounty_id@).answers,
                            ).len() as int,
                        ),
                    )
                    &&& final(self)@.bounties == bounties_upsert(
                        old(self)@.bounties,
                        bounty_for(final(self)@.bounties, bounty_id@),
                    )
                    &&& final(self)@.node_queue.len() == old(self)@.node_queue.len()
                    &&& forall|x: Seq<char>|
                        #[trigger] final(self)@.node_queue.contains(x) <==> old(
                            self,
                        )@.node_queue.contains(x)
                    &&& final(self)@ == (CoordinatorView {
                        bounties: final(self)@.bounties,
                        node_queue: final(self)@.node_queue,
                        ..old(self)@
                    })
                },
                Err(e) => {
                    &&& final(self)@ == old(self)@
                    &&& (e == CoordinatorError::BountyNotFound <==> !has_bounty(
                        old(self)@.bounties,
                        bounty_id@,
                    ))
                    &&& (e == CoordinatorError::BountyNotPending <==> (has_bounty(
                        old(self)@.bounties,
                        bounty_id@,
                    ) && bounty_for(old(self)@.bounties, bounty_id@).status
                        != BountyStatus::Pending))
                    &&& (e == CoordinatorError::BountyNotFound || e
                        == CoordinatorError::BountyNotPending || e
                        == CoordinatorError::NotEnoughQualifiedNodes || e
                        == CoordinatorError::NodeNotFound || e
                        == CoordinatorError::NodeAlreadyElected)
                },
            },
    {
        let bi: usize;
        match find_bounty_index(&self.bounties, &bounty_id) {
            None => {
                return Err(CoordinatorError::BountyNotFound);
            },
            Some(i) => {
                bi = i;
            },
        }
        proof {
            crate::coordinator::lemma_bounty_at(self@.bounties, bounty_id@, bi as int);
        }
        if !(self.bounties[bi].status == BountyStatus::Pending) {
            return Err(CoordinatorError::BountyNotPending);
        }
        let mut bounty = self.bounties[bi].clone();
        let ghost b0v = bounty@;
        proof {
            lemma_kept_dropped(b0v.elected_nodes, b0v.answers);
        }
        // Partition the current roster by answered-ness.
        let mut kept: Vec<String> = Vec::new();
        let mut dropped: Vec<String> = Vec::new();
        let mut i: usize = 0;
        while i < bounty.elected_nodes.len()
            invariant
                i <= bounty.elected_nodes@.len(),
                bounty@ == b0v,
                kept.deep_view() == kept_of(b0v.elected_nodes.take(i as int), b0v.answers),
                dropped.deep_view() == dropped_of(b0v.elected_nodes.take(i as int), b0v.answers),
            decreases bounty.elected_nodes@.len() - i,
        {
            let ghost gi = i as int;
            proof {
                assert(b0v.elected_nodes.take(gi + 1).drop_last() =~= b0v.elected_nodes.take(gi));
                assert(b0v.elected_nodes.take(gi + 1).last() == b0v.elected_nodes[gi]);
            }
            if crate::bounty::find_answer_index(
                &bounty.answers,
                &bounty.elected_nodes[i],
            ).is_some() {
                let ghost before = kept.deep_view();
                let id_i = bounty.elected_nodes[i].clone();
                kept.push(id_i);
                proof {
                    assert(kept.deep_view() =~= before.push(b0v.elected_nodes[gi]));
                }
            } else {
                let ghost before = dropped.deep_view();
                let id_i = bounty.elected_nodes[i].clone();
                dropped.push(id_i);
                proof {
                    assert(dropped.deep_view() =~= before.push(b0v.elected_nodes[gi]));
                }
            }
            i = i + 1;
        }
        proof {
            assert(b0v.elected_nodes.take(b0v.elected_nodes.len() as int)
                =~= b0v.elected_nodes);
        }
        let ghost kept_v = kept.deep_view();
        let ghost dropped_v = dropped.deep_view();
        let kept_len = kept.len();
        bounty.elected_nodes = kept;
        proof {
            assert(bounty@ =~= (BountyView {
                elected_nodes: kept_of(
                    bounty_for(old(self)@.bounties, bounty_id@).elected_nodes,
                    bounty_for(old(self)@.bounties, bounty_id@).answers,
                ),
                ..bounty_for(old(self)@.bounties, bounty_id@)
            }));
            assert(dropped.deep_view().len() == bounty_for(
                old(self)@.bounties,
                bounty_id@,
            ).elected_nodes.len() - kept_of(
                bounty_for(old(self)@.bounties, bounty_id@).elected_nodes,
                bounty_for(old(self)@.bounties, bounty_id@).answers,
            ).len());
        }
        let fresh: Vec<String>;
        match self.elect_nodes(&bounty, dropped.len(), draws) {
            Err(e) => {
                return Err(e);
            },
            Ok(v) => {
                fresh = v;
            },
        }
        let ghost fresh_v = fresh.deep_view();
        let fresh_copy = clone_ids(&fresh);
        let mut fresh_moved = fresh;
        bounty.elected_nodes.append(&mut fresh_moved);
        proof {
            assert(bounty@.elected_nodes =~= kept_v + fresh_v);
            assert forall|i: int|
                #![trigger fresh_v[i]]
                0 <= i < fresh_v.len() implies qualified_member(
                old(self)@.nodes,
                b0v,
                fresh_v[i],
            ) && !kept_v.contains(fresh_v[i]) by {}
        }
        // The dropped nodes leave the unanswered set; the fresh draw joins.
        let mut k: usize = 0;
        while k < dropped.len()
            invariant
                k <= dropped@.len(),
                dropped.deep_view() == dropped_v,
                bounty@.unanswered_nodes.no_duplicates(),
                forall|x: Seq<char>|
                    #[trigger] bounty@.unanswered_nodes.contains(x) <==> (b0v
                        .unanswered_nodes
                        .contains(x) && !(exists|j: int|
                        #![trigger dropped_v[j]]
                        0 <= j < k && dropped_v[j] == x)),
                bounty@ == (BountyView {
                    unanswered_nodes: bounty@.unanswered_nodes,
                    elected_nodes: bounty@.elected_nodes,
                    ..b0v
                }),
                bounty@.elected_nodes == kept_v + fresh_v,
            decreases dropped@.len() - k,
        {
            let ghost gk = k as int;
            let ghost pre = bounty@.unanswered_nodes;
            remove_id(&mut bounty.unanswered_nodes, &dropped[k]);
            proof {
                assert forall|x: Seq<char>| #[trigger] bounty@.unanswered_nodes.contains(
                    x,
                ) implies (b0v.unanswered_nodes.contains(x) && !(exists|j: int|
                    #![trigger dropped_v[j]]
                    0 <= j < gk + 1 && dropped_v[j] == x)) by {
                    assert(x != dropped_v[gk]);
                    assert(pre.contains(x));
                }
                assert forall|x: Seq<char>|
                    (b0v.unanswered_nodes.contains(x) && !(exists|j: int|
                        #![trigger dropped_v[j]]
                        0 <= j < gk + 1 && dropped_v[j] == x)) implies #[trigger] bounty@
                    .unanswered_nodes
                    .contains(x) by {
                    assert(x != dropped_v[gk]);
                    assert(pre.contains(x));
                }
            }
            k = k + 1;
        }
        let ghost u_mid = bounty@.unanswered_nodes;
        proof {
            assert forall|x: Seq<char>| #[trigger] u_mid.contains(x) implies (b0v
                .unanswered_nodes
                .contains(x) && has_answer(b0v.answers, x)) by {
                assert(b0v.unanswered_nodes.contains(x));
                if !has_answer(b0v.answers, x) {
                    assert(b0v.elected_nodes.contains(x));
                    assert(dropped_v.contains(x));
                    let j = choose|j: int| 0 <= j < dropped_v.len() && dropped_v[j] == x;
                    assert(dropped_v[j] == x);
                }
            }
            assert forall|x: Seq<char>|
                (b0v.unanswered_nodes.contains(x) && has_answer(b0v.answers, x)) implies
                #[trigger] u_mid.contains(x) by {
                if exists|j: int| #![trigger dropped_v[j]] 0 <= j < dropped_v.len()
                    && dropped_v[j] == x {
                    let j = choose|j: int| 0 <= j < dropped_v.len() && dropped_v[j] == x;
                    assert(dropped_v.contains(x));
                }
            }
        }
        let mut f: usize = kept_len;
        while f < bounty.elected_nodes.len()
            invariant
                kept_v.len() <= bounty.elected_nodes@.len(),
                kept_v.len() <= f <= bounty.elected_nodes@.len(),
                bounty@.elected_nodes == kept_v + fresh_v,
                bounty@.unanswered_nodes.no_duplicates(),
                old(self)@.wf(),
                b0v.wf(),
                fresh_v.no_duplicates(),
                forall|x: Seq<char>| #[trigger] fresh_v.contains(x) ==> !kept_v.contains(x),
                forall|x: Seq<char>|
                    #[trigger] kept_v.contains(x) <==> (b0v.elected_nodes.contains(x)
                        && has_answer(b0v.answers, x)),
                forall|x: Seq<char>|
                    #[trigger] u_mid.contains(x) <==> (b0v.unanswered_nodes.contains(x)
                        && has_answer(b0v.answers, x)),
                forall|x: Seq<char>|
                    #[trigger] bounty@.unanswered_nodes.contains(x) <==> (u_mid.contains(x) || (
                    exists|j: int|
                        #![trigger fresh_v[j]]
                        0 <= j < f - kept_v.len() && fresh_v[j] == x)),
                bounty@ == (BountyView {
                    unanswered_nodes: bounty@.unanswered_nodes,
                    elected_nodes: bounty@.elected_nodes,
                    ..b0v
                }),
            decreases bounty.elected_nodes@.len() - f,
        {
            let ghost gf = f as int;
            proof {
                assert(f < bounty.elected_nodes@.len());
                assert(bounty@.elected_nodes.len() == kept_v.len() + fresh_v.len());
                assert(kept_v.len() <= gf < kept_v.len() + fresh_v.len());
            }
            let ghost fid = fresh_v[gf - kept_v.len()];
            proof {
                assert(bounty@.elected_nodes[gf] == fid);
                assert(fresh_v.contains(fid)) by {
                    assert(fresh_v[gf - kept_v.len()] == fid);
                }
                assert(!bounty@.unanswered_nodes.contains(fid)) by {
                    if u_mid.contains(fid) {
                        assert(b0v.unanswered_nodes.contains(fid) && has_answer(
                            b0v.answers,
                            fid,
                        ));
                        assert(b0v.elected_nodes.contains(fid));
                        assert(kept_v.contains(fid));
                    }
                    if exists|j: int|
                        #![trigger fresh_v[j]]
                        0 <= j < gf - kept_v.len() && fresh_v[j] == fid {
                        let j = choose|j: int|
                            0 <= j < gf - kept_v.len() && fresh_v[j] == fid;
                        assert(fresh_v[j] == fresh_v[gf - kept_v.len()]);
                    }
                }
                crate::ids::lemma_no_dup_push(bounty@.unanswered_nodes, fid);
            }
            let ghost pre = bounty@.unanswered_nodes;
            let id_f = bounty.elected_nodes[f].clone();
            push_id(&mut bounty.unanswered_nodes, id_f);
            proof {
                assert forall|x: Seq<char>| #[trigger] bounty@.unanswered_nodes.contains(
                    x,
                ) implies (u_mid.contains(x) || (exists|j: int|
                    #![trigger fresh_v[j]]
                    0 <= j < gf + 1 - kept_v.len() && fresh_v[j] == x)) by {
                    crate::ids::lemma_contains_push(pre, fid, x);
                    if x == fid {
                        assert(fresh_v[gf - kept_v.len()] == x);
                    }
                }
                assert forall|x: Seq<char>|
                    (u_mid.contains(x) || (exists|j: int|
                        #![trigger fresh_v[j]]
                        0 <= j < gf + 1 - kept_v.len() && fresh_v[j] == x)) implies #[trigger]
                    bounty@.unanswered_nodes.contains(x) by {
                    crate::ids::lemma_contains_push(pre, fid, x);
                }
            }
            f = f + 1;
        }
        proof {
            lemma_reelected(b0v, bounty@, kept_v, fresh_v, old(self)@.nodes);
        }
        let event = match self.send_retry_event(&bounty_id, &fresh_copy, coordinator_id) {
            Ok(ev) => ev,
            Err(_) => {
                proof {
                    assert(false);
                }
                return Err(CoordinatorError::BountyNotFound);
            },
        };
        proof {
            assert(bounty@.elected_nodes.skip(kept_v.len() as int) =~= fresh_v);
        }
        upsert_bounty(&mut self.bounties, bounty.clone());
        proof {
            crate::coordinator::lemma_bounties_upsert_props(old(self)@.bounties, bounty@);
            assert(bounty@.elected_nodes.take(kept_v.len() as int) =~= kept_v);
            assert(final(self)@ =~= (CoordinatorView {
                bounties: final(self)@.bounties,
                node_queue: final(self)@.node_queue,
                ..old(self)@
            }));
        }
        Ok(event)
    }
}

/// What a re-election does to a bounty: the answered nodes keep their seats
/// as a prefix, the fresh draw follows, and the unanswered set is exactly
/// the fresh draw. Nothing else moves.
pub open spec fn reelected_shape(b0: BountyView, b1: BountyView, nodes: Seq<NodeView>) -> bool {
    &&& b1.elected_nodes.len() == b0.elected_nodes.len()
    &&& b1.elected_nodes.take(kept_of(b0.elected_nodes, b0.answers).len() as int) == kept_of(
        b0.elected_nodes,
        b0.answers,
    )
    &&& b1.elected_nodes.no_duplicates()
    &&& forall|i: int|
        #![trigger b1.elected_nodes[i]]
        kept_of(b0.elected_nodes, b0.answers).len() <= i < b1.elected_nodes.len()
            ==> qualified_member(nodes, b0, b1.elected_nodes[i]) && !kept_of(
            b0.elected_nodes,
            b0.answers,
        ).contains(b1.elected_nodes[i])
    &&& forall|x: Seq<char>|
        #[trigger] b1.unanswered_nodes.contains(x) <==> ((b0.unanswered_nodes.contains(x)
            && has_answer(b0.answers, x)) || b1.elected_nodes.skip(
            kept_of(b0.elected_nodes, b0.answers).len() as int,
        ).contains(x))
    &&& b1 == (BountyView {
        elected_nodes: b1.elected_nodes,
        unanswered_nodes: b1.unanswered_nodes,
        ..b0
    })
}

/// After a re-election the bounty is still well-formed and — where the
/// partition invariant held — still partitioned.
proof fn lemma_reelected(
    b0: BountyView,
    b1: BountyView,
    kept: Seq<Seq<char>>,
    fresh: Seq<Seq<char>>,
    nodes: Seq<NodeView>,
)
    requires
        b0.wf(),
        kept == kept_of(b0.elected_nodes, b0.answers),
        b1.elected_nodes == kept + fresh,
        fresh.no_duplicates(),
        forall|x: Seq<char>| #[trigger] fresh.contains(x) ==> !kept.contains(x),
        forall|x: Seq<char>|
            #[trigger] b1.unanswered_nodes.contains(x) <==> ((b0.unanswered_nodes.contains(x)
                && has_answer(b0.answers, x)) || fresh.contains(x)),
        b1.unanswered_nodes.no_duplicates(),
        b1 == (BountyView {
            elected_nodes: b1.elected_nodes,
            unanswered_nodes: b1.unanswered_nodes,
            ..b0
        }),
    ensures
        b1.wf(),
        b0.partitioned() ==> b1.partitioned(),
{
    lemma_kept_dropped(b0.elected_nodes, b0.answers);
    assert forall|x: Seq<char>| #[trigger] b1.elected_nodes.contains(x) implies (kept.contains(x)
        || fresh.contains(x)) by {
        crate::ids::lemma_contains_concat(kept, fresh, x);
    }
    assert forall|x: Seq<char>| (kept.contains(x) || fresh.contains(x)) implies #[trigger] b1
        .elected_nodes
        .contains(x) by {
        crate::ids::lemma_contains_concat(kept, fresh, x);
    }
    assert forall|p: int, q: int|
        #![trigger b1.elected_nodes[p], b1.elected_nodes[q]]
        0 <= p < q < b1.elected_nodes.len() implies b1.elected_nodes[p] != b1.elected_nodes[q] by {
        if q < kept.len() {
            assert(b1.elected_nodes[p] == kept[p]);
            assert(b1.elected_nodes[q] == kept[q]);
        } else if p >= kept.len() {
            assert(b1.elected_nodes[p] == fresh[p - kept.len()]);
            assert(b1.elected_nodes[q] == fresh[q - kept.len()]);
        } else {
            assert(b1.elected_nodes[p] == kept[p]);
            assert(b1.elected_nodes[q] == fresh[q - kept.len()]);
            assert(kept.contains(kept[p]));
            assert(fresh.contains(fresh[q - kept.len()]));
        }
    }
    assert forall|id: Seq<char>| #[trigger] b1.successful_nodes.contains(id) implies
        b1.elected_nodes.contains(id) && has_answer(b1.answers, id) by {
        assert(b0.successful_nodes.contains(id));
        assert(b0.elected_nodes.contains(id) && has_answer(b0.answers, id));
        assert(kept.contains(id));
    }
    assert forall|id: Seq<char>| #[trigger] b1.failed_nodes.contains(id) implies
        b1.elected_nodes.contains(id) && has_answer(b1.answers, id) by {
        assert(b0.failed_nodes.contains(id));
        assert(b0.elected_nodes.contains(id) && has_answer(b0.answers, id));
        assert(kept.contains(id));
    }
    assert forall|id: Seq<char>| #[trigger] b1.unanswered_nodes.contains(id) implies
        b1.elected_nodes.contains(id) by {
        if b0.unanswered_nodes.contains(id) && has_answer(b0.answers, id) {
            assert(b0.elected_nodes.contains(id));
            assert(kept.contains(id));
        } else {
            assert(fresh.contains(id));
        }
    }
    assert(b1.wf());
    if b0.partitioned() {
        assert forall|id: Seq<char>| #[trigger] b1.rejected_nodes.contains(id) implies
            b1.elected_nodes.contains(id) && !b1.unanswered_nodes.contains(id) by {
            assert(b0.rejected_nodes.contains(id));
            assert(b0.elected_nodes.contains(id));
            assert(has_answer(b0.answers, id));
            assert(kept.contains(id));
            if b1.unanswered_nodes.contains(id) {
                if b0.unanswered_nodes.contains(id) && has_answer(b0.answers, id) {
                    assert(!b0.unanswered_nodes.contains(id));
                } else {
                    assert(fresh.contains(id));
                }
            }
        }
        assert forall|id: Seq<char>| #[trigger] b1.successful_nodes.contains(id) implies
            !b1.unanswered_nodes.contains(id) by {
            assert(b0.successful_nodes.contains(id));
            assert(kept.contains(id));
            if b1.unanswered_nodes.contains(id) {
                if b0.unanswered_nodes.contains(id) && has_answer(b0.answers, id) {
                    assert(b0.elected_nodes.contains(id));
                } else {
                    assert(fresh.contains(id));
                }
            }
        }
        assert forall|id: Seq<char>| #[trigger] b1.failed_nodes.contains(id) implies
            !b1.unanswered_nodes.contains(id) by {
            assert(b0.failed_nodes.contains(id));
            assert(kept.contains(id));
            if b1.unanswered_nodes.contains(id) {
                if b0.unanswered_nodes.contains(id) && has_answer(b0.answers, id) {
                    assert(b0.elected_nodes.contains(id));
                } else {
                    assert(fresh.contains(id));
                }
            }
        }
        assert forall|id: Seq<char>| #[trigger] b1.elected_nodes.contains(id) implies
            b1.successful_nodes.contains(id) || b1.failed_nodes.contains(id)
            || b1.rejected_nodes.contains(id) || b1.unanswered_nodes.contains(id) by {
            if kept.contains(id) {
                assert(b0.elected_nodes.contains(id) && has_answer(b0.answers, id));
                assert(!b0.unanswered_nodes.contains(id));
                assert(b0.successful_nodes.contains(id) || b0.failed_nodes.contains(id)
                    || b0.rejected_nodes.contains(id) || b0.unanswered_nodes.contains(id));
            } else {
                assert(fresh.contains(id));
                assert(b1.unanswered_nodes.contains(id));
            }
        }
        assert forall|i: int|
            #![trigger b1.answers[i]]
            0 <= i < b1.answers.len() implies b1.elected_nodes.contains(b1.answers[i].node_id) by {
            assert(b0.elected_nodes.contains(b0.answers[i].node_id));
            assert(has_answer(b0.answers, b0.answers[i].node_id));
            assert(kept.contains(b0.answers[i].node_id));
        }
        assert forall|id: Seq<char>| #[trigger] b1.elected_nodes.contains(id) implies (has_answer(
            b1.answers,
            id,
        ) <==> !b1.unanswered_nodes.contains(id)) by {
            if kept.contains(id) {
                assert(has_answer(b0.answers, id));
                if b1.unanswered_nodes.contains(id) {
                    if b0.unanswered_nodes.contains(id) && has_answer(b0.answers, id) {
                        assert(b0.elected_nodes.contains(id));
                        assert(!b0.unanswered_nodes.contains(id));
                    } else {
                        assert(fresh.contains(id));
                    }
                }
            } else {
                assert(fresh.contains(id));
                assert(b1.unanswered_nodes.contains(id));
                if has_answer(b1.answers, id) {
                    assert(b0.elected_nodes.contains(id));
                    assert(kept.contains(id));
                }
            }
        }
        assert(b1.partitioned());
    }
}

/// What recording one answer does to a bounty: the response joins the
/// answers, the node leaves the unanswered set and joins the set of the
/// outcome it reported, the storage charge is added, and nothing else moves.
/// The status is whatever it was (closing is a separate step).
pub open spec fn post_answer_bounty_shape(
    b0: BountyView,
    b1: BountyView,
    resp: ResponseView,
    storage_byte_cost: u128,
) -> bool {
    &&& b1.answers == b0.answers.push(resp)
    &&& b1.storage_used == b0.storage_used + storage_byte_cost * ANSWER_RECORD_BYTES
    &&& !b1.unanswered_nodes.contains(resp.node_id)
    &&& (forall|x: Seq<char>|
        x != resp.node_id ==> (#[trigger] b1.unanswered_nodes.contains(x)
            <==> b0.unanswered_nodes.contains(x)))
    &&& (b0.unanswered_nodes.contains(resp.node_id) ==> b1.unanswered_nodes.len()
        == b0.unanswered_nodes.len() - 1)
    &&& (!b0.unanswered_nodes.contains(resp.node_id) ==> b1.unanswered_nodes.len()
        == b0.unanswered_nodes.len())
    &&& (resp.status == NodeResponseStatus::SUCCESS ==> b1.successful_nodes
        == b0.successful_nodes.push(resp.node_id) && b1.failed_nodes == b0.failed_nodes
        && b1.rejected_nodes == b0.rejected_nodes)
    &&& (resp.status == NodeResponseStatus::FAILURE ==> b1.failed_nodes == b0.failed_nodes.push(
        resp.node_id,
    ) && b1.successful_nodes == b0.successful_nodes && b1.rejected_nodes == b0.rejected_nodes)
    &&& (resp.status == NodeResponseStatus::REJECT ==> b1.rejected_nodes
        == b0.rejected_nodes.push(resp.node_id) && b1.successful_nodes == b0.successful_nodes
        && b1.failed_nodes == b0.failed_nodes)
    &&& b1.elected_nodes == b0.elected_nodes
    &&& b1.id == b0.id
    &&& b1.owner_id == b0.owner_id
    &&& b1.coordinator_id == b0.coordinator_id
    &&& b1.file_location == b0.file_location
    &&& b1.file_download_protocol == b0.file_download_protocol
    &&& b1.min_nodes == b0.min_nodes
    &&& b1.bounty_created == b0.bounty_created
    &&& b1.network_required == b0.network_required
    &&& b1.gpu_required == b0.gpu_required
    &&& b1.amt_storage == b0.amt_storage
    &&& b1.amt_node_reward == b0.amt_node_reward
    &&& b1.timeout_seconds == b0.timeout_seconds
}

/// After recording an admissible answer, the bounty is still well-formed and
/// — where the partition invariant held — still partitioned.
proof fn lemma_recorded_answer(
    b0: BountyView,
    b1: BountyView,
    resp: ResponseView,
    status: NodeResponseStatus,
    est: int,
)
    requires
        b0.wf(),
        b0.elected_nodes.contains(resp.node_id),
        !has_answer(b0.answers, resp.node_id),
        resp.status == status,
        status != NodeResponseStatus::EMPTY,
        b1.answers == b0.answers.push(resp),
        answers_unique(b1.answers),
        b1.unanswered_nodes.no_duplicates(),
        !b1.unanswered_nodes.contains(resp.node_id),
        forall|x: Seq<char>|
            x != resp.node_id ==> (#[trigger] b1.unanswered_nodes.contains(x)
                <==> b0.unanswered_nodes.contains(x)),
        status == NodeResponseStatus::SUCCESS ==> b1.successful_nodes == b0.successful_nodes.push(
            resp.node_id,
        ) && b1.successful_nodes.no_duplicates() && b1.failed_nodes == b0.failed_nodes
            && b1.rejected_nodes == b0.rejected_nodes,
        status == NodeResponseStatus::FAILURE ==> b1.failed_nodes == b0.failed_nodes.push(
            resp.node_id,
        ) && b1.failed_nodes.no_duplicates() && b1.successful_nodes == b0.successful_nodes
            && b1.rejected_nodes == b0.rejected_nodes,
        status == NodeResponseStatus::REJECT ==> b1.rejected_nodes == b0.rejected_nodes.push(
            resp.node_id,
        ) && b1.rejected_nodes.no_duplicates() && b1.successful_nodes == b0.successful_nodes
            && b1.failed_nodes == b0.failed_nodes,
        b1.elected_nodes == b0.elected_nodes,
        b1.storage_used == b0.storage_used + est,
        0 <= est,
        b1.storage_used <= b1.amt_storage,
        b1.amt_storage == b0.amt_storage,
        b1.status == b0.status,
        b1.min_nodes == b0.min_nodes,
    ensures
        b1.wf(),
        b0.partitioned() ==> b1.partitioned(),
{
    assert forall|id: Seq<char>| #[trigger] b1.successful_nodes.contains(id) implies
        b1.elected_nodes.contains(id) && has_answer(b1.answers, id) by {
        crate::ids::lemma_contains_push(b0.successful_nodes, resp.node_id, id);
        crate::bounty::lemma_has_answer_push(b0.answers, resp, id);
        if status == NodeResponseStatus::SUCCESS {
            if id != resp.node_id {
                assert(b0.successful_nodes.contains(id));
            }
        } else {
            assert(b0.successful_nodes.contains(id));
        }
    }
    assert forall|id: Seq<char>| #[trigger] b1.failed_nodes.contains(id) implies
        b1.elected_nodes.contains(id) && has_answer(b1.answers, id) by {
        crate::ids::lemma_contains_push(b0.failed_nodes, resp.node_id, id);
        crate::bounty::lemma_has_answer_push(b0.answers, resp, id);
        if status == NodeResponseStatus::FAILURE {
            if id != resp.node_id {
                assert(b0.failed_nodes.contains(id));
            }
        } else {
            assert(b0.failed_nodes.contains(id));
        }
    }
    assert forall|id: Seq<char>| #[trigger] b1.rejected_nodes.contains(id) implies has_answer(
        b1.answers,
        id,
    ) by {
        crate::ids::lemma_contains_push(b0.rejected_nodes, resp.node_id, id);
        crate::bounty::lemma_has_answer_push(b0.answers, resp, id);
        if status == NodeResponseStatus::REJECT {
            if id != resp.node_id {
                assert(b0.rejected_nodes.contains(id));
            }
        } else {
            assert(b0.rejected_nodes.contains(id));
        }
    }
    assert forall|id: Seq<char>| #[trigger] b1.unanswered_nodes.contains(id) implies
        b1.elected_nodes.contains(id) by {
        assert(id != resp.node_id);
        assert(b0.unanswered_nodes.contains(id));
    }
    assert forall|i: int|
        #![trigger b1.answers[i]]
        0 <= i < b1.answers.len() && b1.answers[i].status == NodeResponseStatus::SUCCESS implies
        b1.successful_nodes.contains(b1.answers[i].node_id) by {
        crate::ids::lemma_contains_push(b0.successful_nodes, resp.node_id, b1.answers[i].node_id);
        if i < b0.answers.len() {
            assert(b1.answers[i] == b0.answers[i]);
            assert(b0.successful_nodes.contains(b0.answers[i].node_id));
        } else {
            assert(b1.answers[i] == resp);
        }
    }
    assert forall|i: int|
        #![trigger b1.answers[i]]
        0 <= i < b1.answers.len() && b1.answers[i].status == NodeResponseStatus::FAILURE implies
        b1.failed_nodes.contains(b1.answers[i].node_id) by {
        crate::ids::lemma_contains_push(b0.failed_nodes, resp.node_id, b1.answers[i].node_id);
        if i < b0.answers.len() {
            assert(b1.answers[i] == b0.answers[i]);
            assert(b0.failed_nodes.contains(b0.answers[i].node_id));
        } else {
            assert(b1.answers[i] == resp);
        }
    }
    assert(b1.wf());
    if b0.partitioned() {
        assert(b0.unanswered_nodes.contains(resp.node_id));
        assert forall|id: Seq<char>| #[trigger] b1.successful_nodes.contains(id) implies
            !b1.failed_nodes.contains(id) && !b1.rejected_nodes.contains(id)
            && !b1.unanswered_nodes.contains(id) by {
            crate::ids::lemma_contains_push(b0.successful_nodes, resp.node_id, id);
            crate::ids::lemma_contains_push(b0.failed_nodes, resp.node_id, id);
            crate::ids::lemma_contains_push(b0.rejected_nodes, resp.node_id, id);
            if id == resp.node_id {
                assert(!b0.successful_nodes.contains(id));
                assert(!b0.failed_nodes.contains(id));
                assert(!b0.rejected_nodes.contains(id));
            } else {
                assert(b0.successful_nodes.contains(id));
            }
        }
        assert forall|id: Seq<char>| #[trigger] b1.failed_nodes.contains(id) implies
            !b1.rejected_nodes.contains(id) && !b1.unanswered_nodes.contains(id) by {
            crate::ids::lemma_contains_push(b0.failed_nodes, resp.node_id, id);
            crate::ids::lemma_contains_push(b0.rejected_nodes, resp.node_id, id);
            if id == resp.node_id {
                assert(!b0.rejected_nodes.contains(id));
            } else {
                assert(b0.failed_nodes.contains(id));
            }
        }
        assert forall|id: Seq<char>| #[trigger] b1.rejected_nodes.contains(id) implies
            !b1.unanswered_nodes.contains(id) && b1.elected_nodes.contains(id) by {
            crate::ids::lemma_contains_push(b0.rejected_nodes, resp.node_id, id);
            if id != resp.node_id {
                assert(b0.rejected_nodes.contains(id));
            }
        }
        assert forall|id: Seq<char>| #[trigger] b1.elected_nodes.contains(id) implies
            b1.successful_nodes.contains(id) || b1.failed_nodes.contains(id)
            || b1.rejected_nodes.contains(id) || b1.unanswered_nodes.contains(id) by {
            crate::ids::lemma_contains_push(b0.successful_nodes, resp.node_id, id);
            crate::ids::lemma_contains_push(b0.failed_nodes, resp.node_id, id);
            crate::ids::lemma_contains_push(b0.rejected_nodes, resp.node_id, id);
            assert(b0.elected_nodes.contains(id));
        }
        assert forall|i: int|
            #![trigger b1.answers[i]]
            0 <= i < b1.answers.len() implies b1.elected_nodes.contains(b1.answers[i].node_id) by {
            if i < b0.answers.len() {
                assert(b1.answers[i] == b0.answers[i]);
            } else {
                assert(b1.answers[i] == resp);
            }
        }
        assert forall|id: Seq<char>| #[trigger] b1.elected_nodes.contains(id) implies (has_answer(
            b1.answers,
            id,
        ) <==> !b1.unanswered_nodes.contains(id)) by {
            crate::bounty::lemma_has_answer_push(b0.answers, resp, id);
            assert(b0.elected_nodes.contains(id));
        }
        assert(b1.partitioned());
    }
}

} // verus!
