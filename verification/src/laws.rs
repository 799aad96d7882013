//! The engine's standing laws, stated and proved once over the views the
//! operations' contracts speak of.

use vstd::prelude::*;
use vstd::arithmetic::div_mod::{lemma_fundamental_div_mod, lemma_remainder_lower};
use vstd::seq_lib::seq_to_set_is_finite;
use vstd::set_lib::lemma_set_disjoint_lens;

use crate::bounty::BountyView;

verus! {

/// The partition law: for a well-formed, partitioned bounty, the four
/// outcome sets are pairwise disjoint and their sizes add up to the size of
/// the elected list. Creation establishes the partition, and answer
/// submission, closing, cancelling, re-election, and a bare rejection of an
/// elected node that had not answered preserve it. Only a rejection from
/// outside the elected set, or one overwriting an earlier answer, does not
/// respect it.
pub proof fn lemma_partition_counts(b: BountyView)
    requires
        b.wf(),
        b.partitioned(),
    ensures
        b.successful_nodes.len() + b.failed_nodes.len() + b.rejected_nodes.len()
            + b.unanswered_nodes.len() == b.elected_nodes.len(),
{
    broadcast use seq_to_set_is_finite;

    b.successful_nodes.unique_seq_to_set();
    b.failed_nodes.unique_seq_to_set();
    b.rejected_nodes.unique_seq_to_set();
    b.unanswered_nodes.unique_seq_to_set();
    b.elected_nodes.unique_seq_to_set();
    let ss = b.successful_nodes.to_set();
    let sf = b.failed_nodes.to_set();
    let sr = b.rejected_nodes.to_set();
    let su = b.unanswered_nodes.to_set();
    let se = b.elected_nodes.to_set();
    lemma_set_disjoint_lens(ss, sf);
    lemma_set_disjoint_lens(ss + sf, sr);
    lemma_set_disjoint_lens((ss + sf) + sr, su);
    assert(ss.disjoint(sf));
    assert((ss + sf).disjoint(sr));
    assert(((ss + sf) + sr).disjoint(su));
    assert(((ss + sf) + sr) + su =~= se);
}

/// The no-over-payout law: the per-node reward times the size of the
/// recipient set never exceeds the reward pool, because the share is the
/// pool divided evenly, rounding down.
pub proof fn lemma_no_overpayout(b: BountyView)
    requires
        b.payout_ready(),
        b.spec_recipients().len() > 0,
    ensures
        b.spec_reward_per_node() * b.spec_recipients().len() <= b.amt_node_reward,
        b.spec_reward_per_node() >= 0,
{
    let x = b.amt_node_reward as int;
    let d = b.spec_recipients().len() as int;
    lemma_fundamental_div_mod(x, d);
    lemma_remainder_lower(x, d);
    assert(x == d * (x / d) + (x % d));
    assert(x % d >= 0);
    assert((x / d) * d == d * (x / d)) by (nonlinear_arith);
    assert(x / d >= 0) by (nonlinear_arith)
        requires
            x >= 0,
            d > 0,
    ;
}

} // verus!
