//! The payout engine: who is owed a share of a closed bounty's reward pool,
//! claiming it, and reclaiming shares abandoned by deregistered nodes.

use vstd::prelude::*;

use crate::bounty::{
    answer_for, answer_index_of, has_answer, BountyStatus, BountyView, ResponseView,
};
use crate::coordinator::{
    bounties_upsert, bounty_for, find_bounty_index, has_bounty, has_node, node_for,
    upsert_bounty, Coordinator, CoordinatorView, PayoutStrategy, Transfer,
};
use crate::errors::CoordinatorError;
use crate::node::{Node, NodeView};

verus! {

/// How long after a bounty's creation the owner must wait before reclaiming
/// shares abandoned by deregistered nodes, in milliseconds: one week.
pub const RECLAIM_GRACE_MS: u64 = 604_800_000;

/// Whether the node's answer makes it a member of the recipient set the
/// payout strategy selects.
pub open spec fn spec_eligible(b: BountyView, node_id: Seq<char>) -> bool {
    match b.spec_payout_strategy() {
        PayoutStrategy::AllAnsweredNodes => true,
        PayoutStrategy::FailedNodes => answer_for(b.answers, node_id).status
            == crate::bounty::NodeResponseStatus::FAILURE,
        PayoutStrategy::SuccessfulNodes => answer_for(b.answers, node_id).status
            == crate::bounty::NodeResponseStatus::SUCCESS,
    }
}

/// Why a reward collection would be refused, checked in order: unknown
/// bounty, no answer from the node, no payout strategy determined yet,
/// unknown node, a node that is not elected, a bounty still pending, and a
/// payout already claimed.
pub open spec fn spec_collect_error(
    c: CoordinatorView,
    node_id: Seq<char>,
    bounty_id: Seq<char>,
) -> Option<CoordinatorError> {
    if !has_bounty(c.bounties, bounty_id) {
        Some(CoordinatorError::BountyNotFound)
    } else if !has_answer(bounty_for(c.bounties, bounty_id).answers, node_id) {
        Some(CoordinatorError::AnswerNotFound)
    } else if !bounty_for(c.bounties, bounty_id).payout_ready() {
        Some(CoordinatorError::BountyStillPending)
    } else if !has_node(c.nodes, node_id) {
        Some(CoordinatorError::NodeNotFound)
    } else if !bounty_for(c.bounties, bounty_id).elected_nodes.contains(node_id) {
        Some(CoordinatorError::NotElected)
    } else if bounty_for(c.bounties, bounty_id).status == BountyStatus::Pending {
        Some(CoordinatorError::BountyStillPending)
    } else if answer_for(bounty_for(c.bounties, bounty_id).answers, node_id).payout_claimed {
        Some(CoordinatorError::AlreadyClaimed)
    } else {
        None
    }
}

/// The total refund the bounty owner may reclaim: one share for each answer
/// whose node has since been deregistered and whose payout was never
/// claimed.
pub open spec fn spec_reclaim_sum(
    answers: Seq<ResponseView>,
    nodes: Seq<NodeView>,
    per: int,
) -> int
    decreases answers.len(),
{
    if answers.len() == 0 {
        0
    } else {
        spec_reclaim_sum(answers.drop_last(), nodes, per) + if !has_node(
            nodes,
            answers.last().node_id,
        ) && !answers.last().payout_claimed {
            per
        } else {
            0int
        }
    }
}

/// Whether some answer's node has been deregistered without claiming its
/// share — the situation the owner may reclaim.
pub open spec fn spec_has_reclaimable(answers: Seq<ResponseView>, nodes: Seq<NodeView>) -> bool {
    exists|j: int|
        #![trigger answers[j]]
        0 <= j < answers.len() && !has_node(nodes, answers[j].node_id)
            && !answers[j].payout_claimed
}

/// With a non-negative share, the reclaimable sum over a prefix of the
/// answers never exceeds the sum over all of them.
pub proof fn lemma_reclaim_sum_prefix(
    answers: Seq<ResponseView>,
    nodes: Seq<NodeView>,
    per: int,
    k: int,
)
    requires
        0 <= k <= answers.len(),
        per >= 0,
    ensures
        0 <= spec_reclaim_sum(answers.take(k), nodes, per),
        spec_reclaim_sum(answers.take(k), nodes, per) <= spec_reclaim_sum(answers, nodes, per),
    decreases answers.len(),
{
    if answers.len() == 0 {
        assert(answers.take(k) =~= answers);
    } else if k == answers.len() {
        assert(answers.take(k) =~= answers);
        lemma_reclaim_sum_prefix(answers.drop_last(), nodes, per, answers.len() - 1);
        assert(answers.drop_last().take(answers.len() - 1) =~= answers.drop_last());
    } else {
        assert(answers.take(k) =~= answers.drop_last().take(k));
        lemma_reclaim_sum_prefix(answers.drop_last(), nodes, per, k);
    }
}

impl Coordinator {
    /// Whether a node may collect a reward for a bounty: the bounty is
    /// closed, the node answered and is elected, the payout was not claimed
    /// yet, and the node's reported outcome matches the payout strategy.
    pub fn should_collect_reward(&self, node_id: String, bounty_id: String) -> (res: Result<
        bool,
        CoordinatorError,
    >)
        requires
            self@.wf(),
        ensures
            match res {
                Ok(b) => spec_collect_error(self@, node_id@, bounty_id@) is None && b
                    == spec_eligible(bounty_for(self@.bounties, bounty_id@), node_id@),
                Err(e) => Some(e) == spec_collect_error(self@, node_id@, bounty_id@),
            },
    {
        let bi: usize;
        match find_bounty_index(&self.bounties, &bounty_id) {
            None => {
                return Err(CoordinatorError::BountyNotFound);
            },
            Some(i) => {
                bi = i;
            },
        }
        proof {
            crate::coordinator::lemma_bounty_at(self@.bounties, bounty_id@, bi as int);
        }
        let ai: usize;
        match crate::bounty::find_answer_index(&self.bounties[bi].answers, &node_id) {
            None => {
                return Err(CoordinatorError::AnswerNotFound);
            },
            Some(i) => {
                ai = i;
            },
        }
        proof {
            crate::bounty::lemma_answer_at(
                bounty_for(self@.bounties, bounty_id@).answers,
                node_id@,
                ai as int,
            );
        }
        let bounty = &self.bounties[bi];
        let ready = (bounty.successful_nodes.len() as u64) >= bounty.min_nodes || (
        bounty.failed_nodes.len() as u64) >= bounty.min_nodes || bounty.status
            == BountyStatus::Cancelled;
        if !ready {
            return Err(CoordinatorError::BountyStillPending);
        }
        if crate::coordinator::find_node_index(&self.nodes, &node_id).is_none() {
            return Err(CoordinatorError::NodeNotFound);
        }
        if !crate::ids::contains_id(&bounty.elected_nodes, &node_id) {
            return Err(CoordinatorError::NotElected);
        }
        if bounty.status == BountyStatus::Pending {
            return Err(CoordinatorError::BountyStillPending);
        }
        if bounty.answers[ai].payout_claimed {
            return Err(CoordinatorError::AlreadyClaimed);
        }
        let strategy = bounty.get_payout_strategy();
        match strategy {
            PayoutStrategy::AllAnsweredNodes => Ok(true),
            PayoutStrategy::FailedNodes => Ok(
                bounty.answers[ai].status == crate::bounty::NodeResponseStatus::FAILURE,
            ),
            PayoutStrategy::SuccessfulNodes => Ok(
                bounty.answers[ai].status == crate::bounty::NodeResponseStatus::SUCCESS,
            ),
        }
    }

    /// Releases a node's share of a closed bounty's reward pool: marks the
    /// answer claimed, credits the node's lifetime earnings and the
    /// aggregate payout counter, and hands back the transfer owed to the
    /// node's owner. Claiming twice fails and changes nothing.
    pub fn collect_reward(&mut self, node_id: String, bounty_id: String) -> (res: Result<
        Transfer,
        CoordinatorError,
    >)
        requires
            old(self)@.wf(),
        ensures
            final(self)@.wf(),
            res is Err <==> (spec_collect_error(old(self)@, node_id@, bounty_id@) is Some
                || !spec_eligible(bounty_for(old(self)@.bounties, bounty_id@), node_id@)
                || node_for(old(self)@.nodes, node_id@).lifetime_earnings + bounty_for(
                old(self)@.bounties,
                bounty_id@,
            ).spec_reward_per_node() > u128::MAX || old(self)@.total_payouts + bounty_for(
                old(self)@.bounties,
                bounty_id@,
            ).spec_reward_per_node() > u128::MAX),
            match res {
                Ok(t) => {
                    &&& spec_collect_error(old(self)@, node_id@, bounty_id@) is None
                    &&& spec_eligible(bounty_for(old(self)@.bounties, bounty_id@), node_id@)
                    &&& t.amount as int == bounty_for(
                        old(self)@.bounties,
                        bounty_id@,
                    ).spec_reward_per_node()
                    &&& t.recipient@ == node_for(old(self)@.nodes, node_id@).owner_id
                    &&& final(self)@.bounties == bounties_upsert(
                        old(self)@.bounties,
                        (BountyView {
                            answers: bounty_for(old(self)@.bounties, bounty_id@).answers.update(
                                answer_index_of(
                                    bounty_for(old(self)@.bounties, bounty_id@).answers,
                                    node_id@,
                                ),
                                (ResponseView {
                                    payout_claimed: true,
                                    ..answer_for(
                                        bounty_for(old(self)@.bounties, bounty_id@).answers,
                                        node_id@,
                                    )
                                }),
                            ),
                            ..bounty_for(old(self)@.bounties, bounty_id@)
                        }),
                    )
                    &&& final(self)@.nodes == old(self)@.nodes.update(
                        crate::coordinator::node_index_of(old(self)@.nodes, node_id@),
                        (NodeView {
                            lifetime_earnings: (node_for(
                                old(self)@.nodes,
                                node_id@,
                            ).lifetime_earnings + t.amount) as u128,
                            ..node_for(old(self)@.nodes, node_id@)
                        }),
                    )
                    &&& final(self)@.total_payouts == old(self)@.total_payouts + t.amount
                    &&& final(self)@ == (CoordinatorView {
                        bounties: final(self)@.bounties,
                        nodes: final(self)@.nodes,
                        total_payouts: final(self)@.total_payouts,
                        ..old(self)@
                    })
                },
                Err(e) => {
                    &&& final(self)@ == old(self)@
                    &&& (match spec_collect_error(old(self)@, node_id@, bounty_id@) {
                        Some(err) => e == err,
                        None => (!spec_eligible(
                            bounty_for(old(self)@.bounties, bounty_id@),
                            node_id@,
                        ) && e == CoordinatorError::NotEligible) || (spec_eligible(
                            bounty_for(old(self)@.bounties, bounty_id@),
                            node_id@,
                        ) && e == CoordinatorError::Overflow && (node_for(
                            old(self)@.nodes,
                            node_id@,
                        ).lifetime_earnings + bounty_for(
                            old(self)@.bounties,
                            bounty_id@,
                        ).spec_reward_per_node() > u128::MAX || old(self)@.total_payouts
                            + bounty_for(
                            old(self)@.bounties,
                            bounty_id@,
                        ).spec_reward_per_node() > u128::MAX)),
                    })
                },
            },
    {
        match self.should_collect_reward(node_id.clone(), bounty_id.clone()) {
            Err(e) => {
                return Err(e);
            },
            Ok(false) => {
                return Err(CoordinatorError::NotEligible);
            },
            Ok(true) => {},
        }
        let bi: usize;
        match find_bounty_index(&self.bounties, &bounty_id) {
            None => {
                proof {
                    assert(false);
                }
                return Err(CoordinatorError::BountyNotFound);
            },
            Some(i) => {
                bi = i;
            },
        }
        proof {
            crate::coordinator::lemma_bounty_at(self@.bounties, bounty_id@, bi as int);
        }
        let ai: usize;
        match crate::bounty::find_answer_index(&self.bounties[bi].answers, &node_id) {
            None => {
                proof {
                    assert(false);
                }
                return Err(CoordinatorError::AnswerNotFound);
            },
            Some(i) => {
                ai = i;
            },
        }
        proof {
            crate::bounty::lemma_answer_at(
                bounty_for(self@.bounties, bounty_id@).answers,
                node_id@,
                ai as int,
            );
        }
        let ni: usize;
        match crate::coordinator::find_node_index(&self.nodes, &node_id) {
            None => {
                proof {
                    assert(false);
                }
                return Err(CoordinatorError::NodeNotFound);
            },
            Some(i) => {
                ni = i;
            },
        }
        proof {
            crate::coordinator::lemma_node_at(self@.nodes, node_id@, ni as int);
        }
        let mut bounty = self.bounties[bi].clone();
        proof {
            let bv = bounty@;
            if bv.spec_payout_strategy() == PayoutStrategy::SuccessfulNodes {
                assert(bv.successful_nodes.contains(bv.answers[ai as int].node_id));
                assert(bv.spec_recipients().len() > 0);
            } else if bv.spec_payout_strategy() == PayoutStrategy::FailedNodes {
                assert(bv.failed_nodes.contains(bv.answers[ai as int].node_id));
                assert(bv.spec_recipients().len() > 0);
            } else {
                assert(bv.spec_recipients().len() == bv.answers.len());
            }
        }
        let payout = bounty.get_amt_reward_per_node();
        let new_earnings: u128;
        match self.nodes[ni].lifetime_earnings.checked_add(payout) {
            None => {
                return Err(CoordinatorError::Overflow);
            },
            Some(v) => {
                new_earnings = v;
            },
        }
        let new_total: u128;
        match self.total_payouts.checked_add(payout) {
            None => {
                return Err(CoordinatorError::Overflow);
            },
            Some(v) => {
                new_total = v;
            },
        }
        let ghost b0v = bounty@;
        let mut updated = bounty.answers[ai].clone();
        updated.payout_claimed = true;
        let ghost uv = updated@;
        vstd::pervasive::VecAdditionalExecFns::set(&mut bounty.answers, ai, updated);
        proof {
            assert(bounty@.answers =~= b0v.answers.update(ai as int, uv));
            assert(bounty@.wf()) by {
                assert forall|id: Seq<char>| #[trigger] bounty@.successful_nodes.contains(
                    id,
                ) implies has_answer(bounty@.answers, id) by {
                    assert(has_answer(b0v.answers, id));
                    let w = choose|w: int|
                        0 <= w < b0v.answers.len() && b0v.answers[w].node_id == id;
                    assert(bounty@.answers[w].node_id == id);
                }
                assert forall|id: Seq<char>| #[trigger] bounty@.failed_nodes.contains(id) implies
                    has_answer(bounty@.answers, id) by {
                    assert(has_answer(b0v.answers, id));
                    let w = choose|w: int|
                        0 <= w < b0v.answers.len() && b0v.answers[w].node_id == id;
                    assert(bounty@.answers[w].node_id == id);
                }
                assert forall|id: Seq<char>| #[trigger] bounty@.rejected_nodes.contains(
                    id,
                ) implies has_answer(bounty@.answers, id) by {
                    assert(has_answer(b0v.answers, id));
                    let w = choose|w: int|
                        0 <= w < b0v.answers.len() && b0v.answers[w].node_id == id;
                    assert(bounty@.answers[w].node_id == id);
                }
            }
        }
        let node_owner = self.nodes[ni].owner_id.clone();
        upsert_bounty(&mut self.bounties, bounty);
        let cur = self.nodes[ni].clone();
        let enriched = Node { lifetime_earnings: new_earnings, ..cur };
        let ghost nodes_pre = self.nodes.deep_view();
        let ghost ev2 = enriched@;
        self.nodes.set(ni, enriched);
        self.total_payouts = new_total;
        proof {
            assert(self.nodes.deep_view() =~= nodes_pre.update(ni as int, ev2));
            assert forall|p: int, q: int|
                #![trigger self.nodes.deep_view()[p], self.nodes.deep_view()[q]]
                0 <= p < q < self.nodes.deep_view().len() implies self.nodes.deep_view()[p].id
                != self.nodes.deep_view()[q].id by {
                assert(nodes_pre[p].id == old(self)@.nodes[p].id);
                assert(nodes_pre[q].id == old(self)@.nodes[q].id);
            }
            assert forall|id: Seq<char>| #[trigger] has_node(self@.offline_nodes, id) implies
                !has_node(self.nodes.deep_view(), id) by {
                if has_node(self.nodes.deep_view(), id) {
                    let w = choose|w: int|
                        0 <= w < self.nodes.deep_view().len() && self.nodes.deep_view()[w].id
                            == id;
                    assert(old(self)@.nodes[w].id == id);
                    assert(has_node(old(self)@.nodes, id));
                }
            }
            assert(final(self)@ =~= (CoordinatorView {
                bounties: final(self)@.bounties,
                nodes: final(self)@.nodes,
                total_payouts: final(self)@.total_payouts,
                ..old(self)@
            }));
        }
        Ok(Transfer { recipient: node_owner, amount: payout })
    }

    /// Refunds the bounty owner the shares of answers whose nodes have
    /// since been deregistered and never claimed, once the grace period from
    /// the bounty's creation has passed. Nothing is marked: the refund is
    /// recomputed on every call.
    pub fn reclaim_reward_from_dropped_nodes(&self, bounty_id: &String, now: u64) -> (res: Result<
        Transfer,
        CoordinatorError,
    >)
        requires
            self@.wf(),
        ensures
            res is Err <==> (!has_bounty(self@.bounties, bounty_id@) || bounty_for(
                self@.bounties,
                bounty_id@,
            ).bounty_created + RECLAIM_GRACE_MS >= now || (spec_has_reclaimable(
                bounty_for(self@.bounties, bounty_id@).answers,
                self@.nodes,
            ) && (!bounty_for(self@.bounties, bounty_id@).payout_ready() || bounty_for(
                self@.bounties,
                bounty_id@,
            ).spec_recipients().len() == 0 || spec_reclaim_sum(
                bounty_for(self@.bounties, bounty_id@).answers,
                self@.nodes,
                bounty_for(self@.bounties, bounty_id@).spec_reward_per_node(),
            ) > u128::MAX))),
            match res {
                Ok(t) => {
                    &&& has_bounty(self@.bounties, bounty_id@)
                    &&& bounty_for(self@.bounties, bounty_id@).bounty_created + RECLAIM_GRACE_MS
                        < now
                    &&& t.recipient@ == bounty_for(self@.bounties, bounty_id@).owner_id
                    &&& t.amount as int == spec_reclaim_sum(
                        bounty_for(self@.bounties, bounty_id@).answers,
                        self@.nodes,
                        bounty_for(self@.bounties, bounty_id@).spec_reward_per_node(),
                    )
                },
                Err(e) => {
                    e == CoordinatorError::BountyNotFound || e == CoordinatorError::TooEarly || e
                        == CoordinatorError::BountyStillPending || e
                        == CoordinatorError::NoRecipients || e == CoordinatorError::Overflow
                },
            },
    {
        let bi: usize;
        match find_bounty_index(&self.bounties, bounty_id) {
            None => {
                return Err(CoordinatorError::BountyNotFound);
            },
            Some(i) => {
                bi = i;
            },
        }
        proof {
            crate::coordinator::lemma_bounty_at(self@.bounties, bounty_id@, bi as int);
        }
        let bounty = &self.bounties[bi];
        let old_enough: bool = match bounty.bounty_created.checked_add(RECLAIM_GRACE_MS) {
            Some(deadline) => deadline < now,
            None => false,
        };
        if !old_enough {
            return Err(CoordinatorError::TooEarly);
        }
        // The per-share amount is needed only if some answer qualifies.
        let mut any_qualifying = false;
        let mut i: usize = 0;
        while i < bounty.answers.len()
            invariant
                i <= bounty.answers@.len(),
                bounty@ == bounty_for(self@.bounties, bounty_id@),
                self@.wf(),
                any_qualifying == exists|j: int|
                    #![trigger bounty@.answers[j]]
                    0 <= j < i && !has_node(self@.nodes, bounty@.answers[j].node_id)
                        && !bounty@.answers[j].payout_claimed,
            decreases bounty.answers@.len() - i,
        {
            let found_n = crate::coordinator::find_node_index(
                &self.nodes,
                &bounty.answers[i].node_id,
            );
            let missing = found_n.is_none();
            proof {
                if !missing {
                    let w = found_n->Some_0 as int;
                    assert(self@.nodes[w].id == bounty@.answers[i as int].node_id);
                    assert(has_node(self@.nodes, bounty@.answers[i as int].node_id));
                }
            }
            if missing && !bounty.answers[i].payout_claimed {
                proof {
                    assert(!has_node(self@.nodes, bounty@.answers[i as int].node_id));
                }
                any_qualifying = true;
            }
            proof {
                if !any_qualifying {
                    assert forall|j: int|
                        #![trigger bounty@.answers[j]]
                        0 <= j < i + 1 implies !(!has_node(
                        self@.nodes,
                        bounty@.answers[j].node_id,
                    ) && !bounty@.answers[j].payout_claimed) by {}
                }
            }
            i = i + 1;
        }
        proof {
            assert(any_qualifying == spec_has_reclaimable(
                bounty_for(self@.bounties, bounty_id@).answers,
                self@.nodes,
            ));
        }
        let per: u128;
        if any_qualifying {
            let ready = (bounty.successful_nodes.len() as u64) >= bounty.min_nodes || (
            bounty.failed_nodes.len() as u64) >= bounty.min_nodes || bounty.status
                == BountyStatus::Cancelled;
            if !ready {
                return Err(CoordinatorError::BountyStillPending);
            }
            let empty_recipients: bool = match bounty.get_payout_strategy() {
                PayoutStrategy::AllAnsweredNodes => bounty.answers.len() == 0,
                PayoutStrategy::FailedNodes => bounty.failed_nodes.len() == 0,
                PayoutStrategy::SuccessfulNodes => bounty.successful_nodes.len() == 0,
            };
            if empty_recipients {
                proof {
                    assert(bounty@.spec_recipients().len() == 0);
                }
                return Err(CoordinatorError::NoRecipients);
            }
            per = bounty.get_amt_reward_per_node();
        } else {
            per = 0;
        }
        let mut total: u128 = 0;
        let mut k: usize = 0;
        while k < bounty.answers.len()
            invariant
                k <= bounty.answers@.len(),
                bounty@ == bounty_for(self@.bounties, bounty_id@),
                self@.wf(),
                has_bounty(self@.bounties, bounty_id@),
                bounty@.bounty_created + RECLAIM_GRACE_MS < now,
                any_qualifying == spec_has_reclaimable(bounty@.answers, self@.nodes),
                any_qualifying ==> bounty@.payout_ready() && bounty@.spec_recipients().len() > 0,
                any_qualifying ==> per as int == bounty@.spec_reward_per_node(),
                !any_qualifying ==> forall|j: int|
                    #![trigger bounty@.answers[j]]
                    0 <= j < bounty@.answers.len() ==> !(!has_node(
                        self@.nodes,
                        bounty@.answers[j].node_id,
                    ) && !bounty@.answers[j].payout_claimed),
                total as int == spec_reclaim_sum(
                    bounty@.answers.take(k as int),
                    self@.nodes,
                    bounty@.spec_reward_per_node(),
                ),
            decreases bounty.answers@.len() - k,
        {
            let ghost gk = k as int;
            proof {
                assert(bounty@.answers.take(gk + 1).drop_last() =~= bounty@.answers.take(gk));
                assert(bounty@.answers.take(gk + 1).last() == bounty@.answers[gk]);
            }
            let found_n = crate::coordinator::find_node_index(
                &self.nodes,
                &bounty.answers[k].node_id,
            );
            let missing = found_n.is_none();
            proof {
                if !missing {
                    let w = found_n->Some_0 as int;
                    assert(self@.nodes[w].id == bounty@.answers[gk].node_id);
                    assert(has_node(self@.nodes, bounty@.answers[gk].node_id));
                }
            }
            if missing && !bounty.answers[k].payout_claimed {
                proof {
                    assert(!has_node(self@.nodes, bounty@.answers[gk].node_id));
                    assert(any_qualifying) by {
                        if !any_qualifying {
                            assert(!(!has_node(self@.nodes, bounty@.answers[gk].node_id)
                                && !bounty@.answers[gk].payout_claimed));
                        }
                    }
                }
                match total.checked_add(per) {
                    None => {
                        proof {
                            assert(spec_reclaim_sum(
                                bounty@.answers.take(gk + 1),
                                self@.nodes,
                                bounty@.spec_reward_per_node(),
                            ) > u128::MAX);
                            lemma_reclaim_sum_prefix(
                                bounty@.answers,
                                self@.nodes,
                                bounty@.spec_reward_per_node(),
                                gk + 1,
                            );
                        }
                        return Err(CoordinatorError::Overflow);
                    },
                    Some(v) => {
                        total = v;
                    },
                }
            }
            k = k + 1;
        }
        proof {
            assert(bounty@.answers.take(bounty@.answers.len() as int) =~= bounty@.answers);
        }
        Ok(Transfer { recipient: self.bounties[bi].owner_id.clone(), amount: total })
    }
}

} // verus!
