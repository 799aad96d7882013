//! The election engine: drawing a qualified subset of registered nodes for a
//! bounty, pseudo-randomly and without repetition.

use vstd::prelude::*;

use crate::bounty::{Bounty, BountyView};
use crate::coordinator::{
    find_node_index, has_node, lemma_node_at, node_for, Coordinator, CoordinatorView,
};
use crate::errors::CoordinatorError;
use crate::ids::{clone_ids, contains_id, lemma_contains_push, lemma_no_dup_push, push_id,
    swap_remove_id};
use crate::node::{Node, NodeView};

verus! {

/// The padded election count: `min_nodes` plus one quarter, rounded up, so
/// expected node attrition still leaves a quorum. Saturates at the counter
/// type's limit.
pub open spec fn spec_node_padding(min_nodes: u64) -> int {
    if (min_nodes * 5 + 3) / 4 > u64::MAX {
        u64::MAX as int
    } else {
        (min_nodes * 5 + 3) / 4
    }
}

/// Whether a node may work a bounty: it allows network access where the
/// bounty requires it, allows GPU compute where the bounty requires it, and
/// tolerates at least the bounty's requested timeout (the node's tolerance
/// is in milliseconds, the bounty's request in seconds).
pub open spec fn spec_node_qualified(n: NodeView, b: BountyView) -> bool {
    &&& n.allow_network || !b.network_required
    &&& n.allow_gpu || !b.gpu_required
    &&& n.absolute_timeout >= b.timeout_seconds * 1000
}

/// Whether `id` names a registered node that qualifies for the bounty.
pub open spec fn qualified_member(nodes: Seq<NodeView>, b: BountyView, id: Seq<char>) -> bool {
    has_node(nodes, id) && spec_node_qualified(node_for(nodes, id), b)
}

/// Whether `id` could fill a seat for the bounty: a qualified registered
/// node that is not already elected for it.
pub open spec fn spec_eligible_id(nodes: Seq<NodeView>, b: BountyView, id: Seq<char>) -> bool {
    qualified_member(nodes, b, id) && !b.elected_nodes.contains(id)
}

/// Whether every queue entry has a node record and none is already elected
/// for the bounty: the queue states under which an election's outcome does
/// not depend on the draws.
pub open spec fn queue_clean(queue: Seq<Seq<char>>, nodes: Seq<NodeView>, b: BountyView) -> bool {
    forall|x: Seq<char>|
        #[trigger] queue.contains(x) ==> has_node(nodes, x) && !b.elected_nodes.contains(x)
}

/// The queue members that could fill a seat for the bounty.
pub open spec fn eligible_pool(
    queue: Seq<Seq<char>>,
    nodes: Seq<NodeView>,
    b: BountyView,
) -> Set<Seq<char>> {
    queue.to_set().filter(|id: Seq<char>| spec_eligible_id(nodes, b, id))
}

/// The eligible pool is a finite set whose members are exactly the eligible
/// queue entries.
pub proof fn lemma_pool_props(queue: Seq<Seq<char>>, nodes: Seq<NodeView>, b: BountyView)
    ensures
        eligible_pool(queue, nodes, b).finite(),
        forall|id: Seq<char>|
            #[trigger] eligible_pool(queue, nodes, b).contains(id) <==> (queue.contains(id)
                && spec_eligible_id(nodes, b, id)),
{
    broadcast use vstd::seq_lib::seq_to_set_is_finite;
    broadcast use vstd::set::group_set_axioms;

    queue.to_set().lemma_len_filter(|id: Seq<char>| spec_eligible_id(nodes, b, id));
}

/// Taking one entry out of the queue takes exactly that entry out of the
/// eligible pool.
pub proof fn lemma_pool_step(
    q1: Seq<Seq<char>>,
    q2: Seq<Seq<char>>,
    nodes: Seq<NodeView>,
    b: BountyView,
    key: Seq<char>,
)
    requires
        q1.contains(key),
        !q2.contains(key),
        forall|x: Seq<char>| x != key ==> (#[trigger] q2.contains(x) <==> q1.contains(x)),
    ensures
        eligible_pool(q2, nodes, b) =~= eligible_pool(q1, nodes, b).remove(key),
{
    broadcast use vstd::set::group_set_axioms;

    lemma_pool_props(q1, nodes, b);
    lemma_pool_props(q2, nodes, b);
}

/// Mixes the first `k + 1` bytes of a random seed into one draw by wrapping
/// multiplication.
pub open spec fn spec_seed_mix(seeds: Seq<u8>, k: int) -> u64
    decreases k,
{
    if k <= 0 {
        seeds[0] as u64
    } else {
        spec_seed_mix(seeds, k - 1).wrapping_mul(seeds[k] as u64)
    }
}

impl Coordinator {
    /// Derives one pseudo-random draw from a host-supplied random seed by
    /// folding its first eight bytes together.
    pub fn rand_u64(seed_bytes: &Vec<u8>) -> (res: u64)
        requires
            seed_bytes@.len() >= 8,
        ensures
            res == spec_seed_mix(seed_bytes@, 7),
    {
        let mut seed: u64 = seed_bytes[0] as u64;
        let mut i: usize = 1;
        while i < 8
            invariant
                1 <= i <= 8,
                seed_bytes@.len() >= 8,
                seed == spec_seed_mix(seed_bytes@, i - 1),
            decreases 8 - i,
        {
            seed = seed.wrapping_mul(seed_bytes[i] as u64);
            i = i + 1;
        }
        seed
    }

    /// Whether the node qualifies for the bounty: capability flags and
    /// timeout tolerance.
    pub fn node_qualified(node: &Node, bounty: &Bounty) -> (res: bool)
        ensures
            res == spec_node_qualified(node@, bounty@),
    {
        if !node.allow_network && bounty.network_required {
            return false;
        }
        if !node.allow_gpu && bounty.gpu_required {
            return false;
        }
        if (node.absolute_timeout as u128) < (bounty.timeout_seconds as u128) * 1000 {
            return false;
        }
        true
    }

    /// The number of nodes to elect for a quorum of `min_nodes`:
    /// over-provisioned by a quarter, rounded up.
    pub fn get_node_padding(&self, min_nodes: u64) -> (res: u64)
        ensures
            res == spec_node_padding(min_nodes),
            res >= min_nodes,
    {
        let wide: u128 = (min_nodes as u128) * 5 + 3;
        let padded: u128 = wide / 4;
        if padded > u64::MAX as u128 {
            u64::MAX
        } else {
            padded as u64
        }
    }

    /// Draws `total_elections` qualified nodes from the election queue.
    ///
    /// Each draw takes one pseudo-random number from `draws`, removes the
    /// drawn node from the queue so it cannot be drawn twice in this call,
    /// and tests qualification; disqualified nodes are set aside and
    /// restored only after the draw loop, to avoid biasing later draws.
    /// Elected nodes are pushed back too, so the pool stays eligible for
    /// future bounties. Fails fatally when candidates run out, when a drawn
    /// identity has no node record, or when a drawn node is already elected
    /// for the bounty; a failure leaves the coordinator untouched.
    ///
    /// On success the elected list repeats no node, avoids everything in
    /// `bounty.elected_nodes`, holds only qualified registered nodes, and
    /// the queue keeps exactly its old members.
    pub fn elect_nodes(
        &mut self,
        bounty: &Bounty,
        total_elections: usize,
        draws: &Vec<u64>,
    ) -> (res: Result<Vec<String>, CoordinatorError>)
        requires
            old(self)@.wf(),
            draws@.len() >= old(self)@.node_queue.len(),
        ensures
            final(self)@.wf(),
            final(self)@ == (CoordinatorView { node_queue: final(self)@.node_queue, ..old(self)@ }),
            eligible_pool(old(self)@.node_queue, old(self)@.nodes, bounty@).len()
                < total_elections ==> res is Err,
            (queue_clean(old(self)@.node_queue, old(self)@.nodes, bounty@) && eligible_pool(
                old(self)@.node_queue,
                old(self)@.nodes,
                bounty@,
            ).len() >= total_elections) ==> res is Ok,
            match res {
                Ok(elected) => {
                    &&& elected.deep_view().no_duplicates()
                    &&& elected@.len() == total_elections
                    &&& forall|i: int|
                        #![trigger elected.deep_view()[i]]
                        0 <= i < elected.deep_view().len() ==> qualified_member(
                            old(self)@.nodes,
                            bounty@,
                            elected.deep_view()[i],
                        ) && !bounty@.elected_nodes.contains(elected.deep_view()[i])
                    &&& final(self)@.node_queue.len() == old(self)@.node_queue.len()
                    &&& forall|x: Seq<char>|
                        #[trigger] final(self)@.node_queue.contains(x) <==> old(
                            self,
                        )@.node_queue.contains(x)
                },
                Err(e) => {
                    &&& final(self)@ == old(self)@
                    &&& (e == CoordinatorError::NotEnoughQualifiedNodes || e
                        == CoordinatorError::NodeNotFound || e
                        == CoordinatorError::NodeAlreadyElected)
                },
            },
    {
        let ghost q0 = self.node_queue.deep_view();
        let ghost pool0 = eligible_pool(q0, self@.nodes, bounty@);
        let ghost good = queue_clean(q0, self@.nodes, bounty@) && pool0.len() >= total_elections;
        proof {
            lemma_pool_props(q0, self@.nodes, bounty@);
        }
        let mut queue = clone_ids(&self.node_queue);
        let mut elected: Vec<String> = Vec::new();
        let mut unelected: Vec<String> = Vec::new();
        let mut draw_i: usize = 0;
        while elected.len() < total_elections
            invariant
                self@.wf(),
                q0 == self@.node_queue,
                draws@.len() >= q0.len(),
                queue.deep_view().no_duplicates(),
                elected.deep_view().no_duplicates(),
                unelected.deep_view().no_duplicates(),
                forall|x: Seq<char>|
                    #[trigger] elected.deep_view().contains(x) ==> !queue.deep_view().contains(x)
                        && !unelected.deep_view().contains(x),
                forall|x: Seq<char>|
                    #[trigger] unelected.deep_view().contains(x) ==> !queue.deep_view().contains(
                        x,
                    ),
                forall|x: Seq<char>|
                    #[trigger] q0.contains(x) <==> (queue.deep_view().contains(x)
                        || elected.deep_view().contains(x) || unelected.deep_view().contains(x)),
                queue.deep_view().len() + elected.deep_view().len() + unelected.deep_view().len()
                    == q0.len(),
                forall|i: int|
                    #![trigger elected.deep_view()[i]]
                    0 <= i < elected.deep_view().len() ==> qualified_member(
                        self@.nodes,
                        bounty@,
                        elected.deep_view()[i],
                    ) && !bounty@.elected_nodes.contains(elected.deep_view()[i]),
                draw_i + queue@.len() <= draws@.len(),
                elected.len() <= total_elections,
                pool0 == eligible_pool(q0, self@.nodes, bounty@),
                pool0.finite(),
                forall|id: Seq<char>|
                    #[trigger] pool0.contains(id) <==> (q0.contains(id) && spec_eligible_id(
                        self@.nodes,
                        bounty@,
                        id,
                    )),
                good == (queue_clean(q0, self@.nodes, bounty@) && pool0.len()
                    >= total_elections),
                eligible_pool(queue.deep_view(), self@.nodes, bounty@).finite(),
                good ==> queue_clean(queue.deep_view(), self@.nodes, bounty@),
                good ==> eligible_pool(queue.deep_view(), self@.nodes, bounty@).len()
                    + elected.deep_view().len() == pool0.len(),
            decreases queue@.len(),
        {
            let ghost qe = queue.deep_view();
            let ghost ee = elected.deep_view();
            let ghost ue = unelected.deep_view();
            if queue.len() == 0 {
                proof {
                    if good {
                        broadcast use vstd::set::group_set_axioms;

                        lemma_pool_props(queue.deep_view(), self@.nodes, bounty@);
                        assert(eligible_pool(queue.deep_view(), self@.nodes, bounty@)
                            =~= Set::<Seq<char>>::empty());
                    }
                }
                return Err(CoordinatorError::NotEnoughQualifiedNodes);
            }
            let key: String;
            if queue.len() == 1 {
                let popped = queue.pop();
                key = match popped {
                    Some(k) => k,
                    None => {
                        proof {
                            assert(false);
                        }
                        return Err(CoordinatorError::NotEnoughQualifiedNodes);
                    },
                };
                proof {
                    assert(queue.deep_view() =~= qe.drop_last());
                    assert(queue.deep_view().len() == 0);
                    assert(key@ == qe[0]);
                    assert(qe.contains(key@));
                    assert forall|x: Seq<char>| #[trigger] qe.contains(x) implies x == key@ by {
                        let w = choose|w: int| 0 <= w < qe.len() && qe[w] == x;
                        assert(w == 0);
                    }
                    assert(!queue.deep_view().contains(key@));
                }
            } else {
                assert(draw_i + queue@.len() <= draws@.len());
                assert(queue@.len() >= 2);
                let dlen: usize = draws.len();
                assert(draw_i + 1 < dlen);
                let seed = draws[draw_i];
                draw_i = draw_i + 1;
                let qlen: u64 = queue.len() as u64;
                let idx: usize = (seed % qlen) as usize;
                key = swap_remove_id(&mut queue, idx);
                proof {
                    assert(qe[idx as int] == key@);
                    assert(qe.contains(key@));
                }
            }
            // Here: key came out of the queue; everything else kept its
            // membership.
            let ni: usize;
            match find_node_index(&self.nodes, &key) {
                None => {
                    proof {
                        if good {
                            assert(qe.contains(key@));
                            assert(has_node(self@.nodes, key@));
                        }
                    }
                    return Err(CoordinatorError::NodeNotFound);
                },
                Some(found) => {
                    ni = found;
                },
            }
            proof {
                lemma_node_at(self@.nodes, key@, ni as int);
            }
            if !Coordinator::node_qualified(&self.nodes[ni], bounty) {
                if queue.len() == 0 {
                    // The drawn node was the only candidate left.
                    proof {
                        if good {
                            broadcast use vstd::set::group_set_axioms;

                            lemma_pool_props(qe, self@.nodes, bounty@);
                            let pe = eligible_pool(qe, self@.nodes, bounty@);
                            assert(pe.len() + elected.deep_view().len() == pool0.len());
                            assert(pe.len() >= 1);
                            assert(!pe.contains(key@));
                            assert forall|id: Seq<char>| #[trigger] pe.contains(id) implies id
                                == key@ by {
                                assert(qe.contains(id));
                            }
                            assert(pe =~= Set::<Seq<char>>::empty());
                        }
                    }
                    return Err(CoordinatorError::NotEnoughQualifiedNodes);
                }
                proof {
                    assert(!ue.contains(key@));
                    lemma_no_dup_push(ue, key@);
                }
                let ghost kv = key@;
                push_id(&mut unelected, key);
                proof {
                    assert forall|x: Seq<char>| #[trigger] unelected.deep_view().contains(
                        x,
                    ) implies (ue.contains(x) || x == kv) by {
                        lemma_contains_push(ue, kv, x);
                    }
                    assert(unelected.deep_view().contains(kv)) by {
                        lemma_contains_push(ue, kv, kv);
                    }
                    assert forall|x: Seq<char>| ue.contains(x) implies #[trigger] unelected
                        .deep_view()
                        .contains(x) by {
                        lemma_contains_push(ue, kv, x);
                    }
                    broadcast use vstd::set::group_set_axioms;

                    lemma_pool_props(queue.deep_view(), self@.nodes, bounty@);
                    if good {
                        assert forall|x: Seq<char>| #[trigger] queue.deep_view().contains(
                            x,
                        ) implies has_node(self@.nodes, x) && !bounty@.elected_nodes.contains(
                            x,
                        ) by {
                            assert(qe.contains(x));
                        }
                        lemma_pool_step(qe, queue.deep_view(), self@.nodes, bounty@, kv);
                        lemma_pool_props(qe, self@.nodes, bounty@);
                        assert(!eligible_pool(qe, self@.nodes, bounty@).contains(kv));
                        assert(eligible_pool(queue.deep_view(), self@.nodes, bounty@)
                            =~= eligible_pool(qe, self@.nodes, bounty@));
                    }
                }
                continue;
            }
            proof {
                assert(qualified_member(self@.nodes, bounty@, key@));
            }
            if contains_id(&bounty.elected_nodes, &key) {
                proof {
                    if good {
                        assert(qe.contains(key@));
                        assert(!bounty@.elected_nodes.contains(key@));
                    }
                }
                return Err(CoordinatorError::NodeAlreadyElected);
            }
            proof {
                assert(!ee.contains(key@));
                assert(!unelected.deep_view().contains(key@));
                lemma_no_dup_push(ee, key@);
            }
            let ghost kv = key@;
            push_id(&mut elected, key);
            proof {
                assert forall|x: Seq<char>| #[trigger] elected.deep_view().contains(x) implies (
                    ee.contains(x) || x == kv) by {
                    lemma_contains_push(ee, kv, x);
                }
                assert(elected.deep_view().contains(kv)) by {
                    lemma_contains_push(ee, kv, kv);
                }
                assert forall|x: Seq<char>| ee.contains(x) implies #[trigger] elected
                    .deep_view()
                    .contains(x) by {
                    lemma_contains_push(ee, kv, x);
                }
                broadcast use vstd::set::group_set_axioms;

                lemma_pool_props(queue.deep_view(), self@.nodes, bounty@);
                if good {
                    assert forall|x: Seq<char>| #[trigger] queue.deep_view().contains(
                        x,
                    ) implies has_node(self@.nodes, x) && !bounty@.elected_nodes.contains(x) by {
                        assert(qe.contains(x));
                    }
                    lemma_pool_step(qe, queue.deep_view(), self@.nodes, bounty@, kv);
                    lemma_pool_props(qe, self@.nodes, bounty@);
                    assert(eligible_pool(qe, self@.nodes, bounty@).contains(kv));
                    assert(eligible_pool(queue.deep_view(), self@.nodes, bounty@).len()
                        == eligible_pool(qe, self@.nodes, bounty@).len() - 1);
                }
            }
        }
        // Restore the drawn nodes to the queue: elected first, then the
        // disqualified ones, in draw order.
        let ghost final_elected = elected.deep_view();
        proof {
            assert forall|j: int|
                #![trigger final_elected[j]]
                0 <= j < final_elected.len() implies !queue.deep_view().contains(final_elected[j])
                && !unelected.deep_view().contains(final_elected[j]) by {
                assert(final_elected.contains(final_elected[j]));
            }
            assert forall|x: Seq<char>| #[trigger] q0.contains(x) implies (
                queue.deep_view().contains(x) || (exists|j: int|
                    #![trigger final_elected[j]]
                    0 <= j < final_elected.len() && final_elected[j] == x)
                    || unelected.deep_view().contains(x)) by {
                if elected.deep_view().contains(x) {
                    let w = choose|w: int|
                        0 <= w < final_elected.len() && final_elected[w] == x;
                    assert(final_elected[w] == x);
                }
            }
            assert forall|x: Seq<char>|
                (queue.deep_view().contains(x) || (exists|j: int|
                    #![trigger final_elected[j]]
                    0 <= j < final_elected.len() && final_elected[j] == x)
                    || unelected.deep_view().contains(x)) implies #[trigger] q0.contains(x) by {
                if exists|j: int| 0 <= j < final_elected.len() && final_elected[j] == x {
                    let w = choose|w: int|
                        0 <= w < final_elected.len() && final_elected[w] == x;
                    assert(elected.deep_view().contains(x));
                }
            }
        }
        let mut i: usize = 0;
        while i < elected.len()
            invariant
                i <= elected.len(),
                elected.deep_view() == final_elected,
                queue.deep_view().no_duplicates(),
                unelected.deep_view().no_duplicates(),
                elected.deep_view().no_duplicates(),
                forall|x: Seq<char>|
                    #[trigger] unelected.deep_view().contains(x) ==> !queue.deep_view().contains(
                        x,
                    ),
                forall|j: int|
                    #![trigger elected.deep_view()[j]]
                    i <= j < elected.deep_view().len() ==> !queue.deep_view().contains(
                        elected.deep_view()[j],
                    ) && !unelected.deep_view().contains(elected.deep_view()[j]),
                forall|x: Seq<char>|
                    #[trigger] q0.contains(x) <==> (queue.deep_view().contains(x) || (exists|
                        j: int,
                    |
                        #![trigger elected.deep_view()[j]]
                        i <= j < elected.deep_view().len() && elected.deep_view()[j] == x)
                        || unelected.deep_view().contains(x)),
                queue.deep_view().len() + (elected.deep_view().len() - i)
                    + unelected.deep_view().len() == q0.len(),
            decreases elected.len() - i,
        {
            let ghost qv = queue.deep_view();
            let ghost kv = elected.deep_view()[i as int];
            let item = elected[i].clone();
            proof {
                assert(item@ == kv);
                assert(!qv.contains(kv));
                lemma_no_dup_push(qv, kv);
            }
            push_id(&mut queue, item);
            proof {
                assert forall|x: Seq<char>| #[trigger] queue.deep_view().contains(x) implies (
                    qv.contains(x) || x == kv) by {
                    lemma_contains_push(qv, kv, x);
                }
                assert(queue.deep_view().contains(kv)) by {
                    lemma_contains_push(qv, kv, kv);
                }
                assert forall|x: Seq<char>| qv.contains(x) implies #[trigger] queue
                    .deep_view()
                    .contains(x) by {
                    lemma_contains_push(qv, kv, x);
                }
            }
            i = i + 1;
        }
        proof {
            assert forall|j: int|
                #![trigger unelected.deep_view()[j]]
                0 <= j < unelected.deep_view().len() implies !queue.deep_view().contains(
                unelected.deep_view()[j]) by {
                assert(unelected.deep_view().contains(unelected.deep_view()[j]));
            }
            assert forall|x: Seq<char>| #[trigger] q0.contains(x) implies (
                queue.deep_view().contains(x) || (exists|j: int|
                    #![trigger unelected.deep_view()[j]]
                    0 <= j < unelected.deep_view().len() && unelected.deep_view()[j] == x)) by {
                if unelected.deep_view().contains(x) {
                    let w = choose|w: int|
                        0 <= w < unelected.deep_view().len() && unelected.deep_view()[w] == x;
                    assert(unelected.deep_view()[w] == x);
                }
            }
            assert forall|x: Seq<char>|
                (queue.deep_view().contains(x) || (exists|j: int|
                    #![trigger unelected.deep_view()[j]]
                    0 <= j < unelected.deep_view().len() && unelected.deep_view()[j] == x))
                implies #[trigger] q0.contains(x) by {
                if exists|j: int|
                    0 <= j < unelected.deep_view().len() && unelected.deep_view()[j] == x {
                    assert(unelected.deep_view().contains(x));
                }
            }
        }
        let mut i2: usize = 0;
        while i2 < unelected.len()
            invariant
                i2 <= unelected.len(),
                queue.deep_view().no_duplicates(),
                unelected.deep_view().no_duplicates(),
                forall|j: int|
                    #![trigger unelected.deep_view()[j]]
                    i2 <= j < unelected.deep_view().len() ==> !queue.deep_view().contains(
                        unelected.deep_view()[j],
                    ),
                forall|x: Seq<char>|
                    #[trigger] q0.contains(x) <==> (queue.deep_view().contains(x) || (exists|
                        j: int,
                    |
                        #![trigger unelected.deep_view()[j]]
                        i2 <= j < unelected.deep_view().len() && unelected.deep_view()[j] == x)),
                queue.deep_view().len() + (unelected.deep_view().len() - i2) == q0.len(),
            decreases unelected.len() - i2,
        {
            let ghost qv = queue.deep_view();
            let ghost kv = unelected.deep_view()[i2 as int];
            let item = unelected[i2].clone();
            proof {
                assert(item@ == kv);
                assert(!qv.contains(kv));
                lemma_no_dup_push(qv, kv);
            }
            push_id(&mut queue, item);
            proof {
                assert forall|x: Seq<char>| #[trigger] queue.deep_view().contains(x) implies (
                    qv.contains(x) || x == kv) by {
                    lemma_contains_push(qv, kv, x);
                }
                assert(queue.deep_view().contains(kv)) by {
                    lemma_contains_push(qv, kv, kv);
                }
                assert forall|x: Seq<char>| qv.contains(x) implies #[trigger] queue
                    .deep_view()
                    .contains(x) by {
                    lemma_contains_push(qv, kv, x);
                }
            }
            i2 = i2 + 1;
        }
        self.node_queue = queue;
        proof {
            assert(self@ =~= (CoordinatorView { node_queue: self@.node_queue, ..old(self)@ }));
            assert forall|x: Seq<char>| #[trigger] final_elected.to_set().contains(x) implies
                pool0.contains(x) by {
                assert(final_elected.contains(x));
                let w = choose|w: int| 0 <= w < final_elected.len() && final_elected[w] == x;
                assert(final_elected[w] == x);
                assert(q0.contains(x));
            }
            final_elected.unique_seq_to_set();
            vstd::set_lib::lemma_len_subset(final_elected.to_set(), pool0);
            assert(pool0.len() >= total_elections);
        }
        Ok(elected)
    }
}

} // verus!
