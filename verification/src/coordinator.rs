//! The coordinator: the root aggregate owning every node and bounty record,
//! the election queue, the owner indices, and the marketplace-wide counters.

use vstd::prelude::*;
use vstd::pervasive::VecAdditionalExecFns;

use crate::bounty::{Bounty, BountyView};
use crate::errors::CoordinatorError;
use crate::ids::{clone_ids, contains_id};
use crate::node::{Node, NodeView};

verus! {

/// The smallest prepaid storage budget a bounty may carry,
/// in the smallest unit of the currency (a tenth of one whole unit).
pub const MIN_STORAGE: u128 = 100_000_000_000_000_000_000_000;

/// The smallest reward pool a bounty may carry,
/// in the smallest unit of the currency (a tenth of one whole unit).
pub const MIN_REWARD: u128 = 100_000_000_000_000_000_000_000;

/// Which elected nodes receive a share of the reward pool, chosen by the
/// bounty's final outcome.
#[derive(Clone, Copy, Debug, PartialEq, Eq, Structural)]
pub enum PayoutStrategy {
    /// A success quorum was reached: only successful nodes are paid.
    SuccessfulNodes,
    /// A failure quorum was reached: only failed nodes are paid.
    FailedNodes,
    /// The bounty was cancelled: every node that answered is paid.
    AllAnsweredNodes,
}

/// An outbound value-transfer command. The engine emits these and forgets
/// them; the caller performs the actual transfer.
#[derive(Debug, PartialEq, Eq)]
pub struct Transfer {
    pub recipient: String,
    pub amount: u128,
}

impl Clone for Transfer {
    /// A clone carries the same recipient and amount.
    fn clone(&self) -> (res: Self)
        ensures
            res.recipient@ == self.recipient@,
            res.amount == self.amount,
    {
        Transfer { recipient: self.recipient.clone(), amount: self.amount }
    }
}

/// The mathematical value of an [`OwnerIndexEntry`].
#[verifier::ext_equal]
pub ghost struct OwnerIndexView {
    pub owner: Seq<char>,
    pub ids: Seq<Seq<char>>,
}

/// One secondary-index entry: the identities belonging to one owner. The
/// index is maintained manually on insert and remove; a dangling identity is
/// skipped on read rather than eagerly cleaned up.
#[derive(Debug, PartialEq, Eq)]
pub struct OwnerIndexEntry {
    pub owner: String,
    pub ids: Vec<String>,
}

impl View for OwnerIndexEntry {
    type V = OwnerIndexView;

    open spec fn view(&self) -> OwnerIndexView {
        OwnerIndexView { owner: self.owner@, ids: self.ids.deep_view() }
    }
}

impl DeepView for OwnerIndexEntry {
    type V = OwnerIndexView;

    open spec fn deep_view(&self) -> OwnerIndexView {
        self.view()
    }
}

impl Clone for OwnerIndexEntry {
    /// A clone carries the same mathematical value.
    fn clone(&self) -> (res: Self)
        ensures
            res@ == self@,
    {
        let res = OwnerIndexEntry { owner: self.owner.clone(), ids: clone_ids(&self.ids) };
        proof {
            assert(res@ =~= self@);
        }
        res
    }
}

/// Whether every node in `s` has a different identity.
pub open spec fn nodes_unique(s: Seq<NodeView>) -> bool {
    forall|i: int, j: int|
        #![trigger s[i], s[j]]
        0 <= i < j < s.len() ==> s[i].id != s[j].id
}

/// Whether `s` holds a node with identity `id`.
pub open spec fn has_node(s: Seq<NodeView>, id: Seq<char>) -> bool {
    exists|i: int| #![trigger s[i]] 0 <= i < s.len() && s[i].id == id
}

/// The index of the node with identity `id` (meaningful when [`has_node`]).
pub open spec fn node_index_of(s: Seq<NodeView>, id: Seq<char>) -> int {
    choose|i: int| 0 <= i < s.len() && s[i].id == id
}

/// The node in `s` with identity `id` (meaningful when [`has_node`]).
pub open spec fn node_for(s: Seq<NodeView>, id: Seq<char>) -> NodeView {
    s[node_index_of(s, id)]
}

/// In a duplicate-free node list, any index holding `id` is the index
/// [`node_index_of`] names.
pub proof fn lemma_node_at(s: Seq<NodeView>, id: Seq<char>, i: int)
    requires
        nodes_unique(s),
        0 <= i < s.len(),
        s[i].id == id,
    ensures
        has_node(s, id),
        node_index_of(s, id) == i,
        node_for(s, id) == s[i],
{
    assert(has_node(s, id));
    let w = node_index_of(s, id);
    if w != i {
        assert(s[w].id != s[i].id);
    }
}

/// Whether every bounty in `s` has a different identity.
pub open spec fn bounties_unique(s: Seq<BountyView>) -> bool {
    forall|i: int, j: int|
        #![trigger s[i], s[j]]
        0 <= i < j < s.len() ==> s[i].id != s[j].id
}

/// Whether `s` holds a bounty with identity `id`.
pub open spec fn has_bounty(s: Seq<BountyView>, id: Seq<char>) -> bool {
    exists|i: int| #![trigger s[i]] 0 <= i < s.len() && s[i].id == id
}

/// The index of the bounty with identity `id` (meaningful when
/// [`has_bounty`]).
pub open spec fn bounty_index_of(s: Seq<BountyView>, id: Seq<char>) -> int {
    choose|i: int| 0 <= i < s.len() && s[i].id == id
}

/// The bounty in `s` with identity `id` (meaningful when [`has_bounty`]).
pub open spec fn bounty_for(s: Seq<BountyView>, id: Seq<char>) -> BountyView {
    s[bounty_index_of(s, id)]
}

/// In a duplicate-free bounty list, any index holding `id` is the index
/// [`bounty_index_of`] names.
pub proof fn lemma_bounty_at(s: Seq<BountyView>, id: Seq<char>, i: int)
    requires
        bounties_unique(s),
        0 <= i < s.len(),
        s[i].id == id,
    ensures
        has_bounty(s, id),
        bounty_index_of(s, id) == i,
        bounty_for(s, id) == s[i],
{
    assert(has_bounty(s, id));
    let w = bounty_index_of(s, id);
    if w != i {
        assert(s[w].id != s[i].id);
    }
}

/// Whether every entry in the owner index belongs to a different owner.
pub open spec fn owners_unique(s: Seq<OwnerIndexView>) -> bool {
    forall|i: int, j: int|
        #![trigger s[i], s[j]]
        0 <= i < j < s.len() ==> s[i].owner != s[j].owner
}

/// Whether the owner index has an entry for `owner`.
pub open spec fn has_owner(s: Seq<OwnerIndexView>, owner: Seq<char>) -> bool {
    exists|i: int| #![trigger s[i]] 0 <= i < s.len() && s[i].owner == owner
}

/// The index of the entry for `owner` (meaningful when [`has_owner`]).
pub open spec fn owner_index_of(s: Seq<OwnerIndexView>, owner: Seq<char>) -> int {
    choose|i: int| 0 <= i < s.len() && s[i].owner == owner
}

/// The identities the index lists for `owner`; an owner without an entry
/// owns nothing.
pub open spec fn ids_for_owner(s: Seq<OwnerIndexView>, owner: Seq<char>) -> Seq<Seq<char>> {
    if has_owner(s, owner) {
        s[owner_index_of(s, owner)].ids
    } else {
        Seq::empty()
    }
}

/// In a duplicate-free owner index, any index holding `owner` is the index
/// [`owner_index_of`] names.
pub proof fn lemma_owner_at(s: Seq<OwnerIndexView>, owner: Seq<char>, i: int)
    requires
        owners_unique(s),
        0 <= i < s.len(),
        s[i].owner == owner,
    ensures
        has_owner(s, owner),
        owner_index_of(s, owner) == i,
        ids_for_owner(s, owner) == s[i].ids,
{
    assert(has_owner(s, owner));
    let w = owner_index_of(s, owner);
    if w != i {
        assert(s[w].owner != s[i].owner);
    }
}

/// The owner index after recording that `owner` owns `id`: the identity is
/// appended to the owner's entry, or a fresh entry is made.
pub open spec fn owner_index_add(
    s: Seq<OwnerIndexView>,
    owner: Seq<char>,
    id: Seq<char>,
) -> Seq<OwnerIndexView> {
    if has_owner(s, owner) {
        s.update(
            owner_index_of(s, owner),
            OwnerIndexView { owner: owner, ids: s[owner_index_of(s, owner)].ids.push(id) },
        )
    } else {
        s.push(OwnerIndexView { owner: owner, ids: seq![id] })
    }
}

/// Records in the owner index that `owner` owns `id`.
pub fn add_id_for_owner(entries: &mut Vec<OwnerIndexEntry>, owner: &String, id: String)
    requires
        owners_unique(old(entries).deep_view()),
    ensures
        final(entries).deep_view() == owner_index_add(old(entries).deep_view(), owner@, id@),
        owners_unique(final(entries).deep_view()),
{
    let ghost s0 = entries.deep_view();
    let ghost gid = id@;
    let found = find_owner_index(entries, owner);
    match found {
        Some(i) => {
            proof {
                lemma_owner_at(s0, owner@, i as int);
            }
            let mut entry = entries[i].clone();
            crate::ids::push_id(&mut entry.ids, id);
            let ghost ev = entry@;
            entries.set(i, entry);
            proof {
                let s1 = entries.deep_view();
                assert(s1 =~= s0.update(i as int, ev));
                assert(ev =~= (OwnerIndexView {
                    owner: owner@,
                    ids: s0[i as int].ids.push(gid),
                }));
                assert(s1 =~= owner_index_add(s0, owner@, gid));
                assert forall|p: int, q: int|
                    #![trigger s1[p], s1[q]]
                    0 <= p < q < s1.len() implies s1[p].owner != s1[q].owner by {
                    assert(s0[p].owner != s0[q].owner);
                    assert(s1[p].owner == s0[p].owner);
                    assert(s1[q].owner == s0[q].owner);
                }
            }
        },
        None => {
            let mut fresh_ids: Vec<String> = Vec::new();
            crate::ids::push_id(&mut fresh_ids, id);
            let entry = OwnerIndexEntry { owner: owner.clone(), ids: fresh_ids };
            let ghost ev = entry@;
            entries.push(entry);
            proof {
                let s1 = entries.deep_view();
                assert(s1 =~= s0.push(ev));
                assert(ev.ids =~= seq![gid]);
                assert(ev =~= (OwnerIndexView { owner: owner@, ids: seq![gid] }));
                assert(s1 =~= owner_index_add(s0, owner@, gid));
                assert forall|p: int, q: int|
                    #![trigger s1[p], s1[q]]
                    0 <= p < q < s1.len() implies s1[p].owner != s1[q].owner by {
                    if q < s0.len() {
                        assert(s0[p].owner != s0[q].owner);
                    } else {
                        assert(s1[q] == ev);
                        assert(s1[p] == s0[p]);
                    }
                }
            }
        },
    }
}

/// Strikes `id` from `owner`'s entry in the owner index, dropping the entry
/// entirely once it lists nothing. Other owners' entries are untouched.
pub fn remove_id_for_owner(entries: &mut Vec<OwnerIndexEntry>, owner: &String, id: &String)
    requires
        owners_unique(old(entries).deep_view()),
    ensures
        owners_unique(final(entries).deep_view()),
        !ids_for_owner(final(entries).deep_view(), owner@).contains(id@),
        forall|x: Seq<char>|
            x != id@ ==> (#[trigger] ids_for_owner(final(entries).deep_view(), owner@).contains(x)
                <==> ids_for_owner(old(entries).deep_view(), owner@).contains(x)),
        forall|o: Seq<char>|
            o != owner@ ==> #[trigger] ids_for_owner(final(entries).deep_view(), o)
                == ids_for_owner(old(entries).deep_view(), o),
{
    let ghost s0 = entries.deep_view();
    let found = find_owner_index(entries, owner);
    match found {
        Some(i) => {
            proof {
                lemma_owner_at(s0, owner@, i as int);
            }
            let ghost gi = i as int;
            let mut entry = entries[i].clone();
            crate::ids::remove_all_ids(&mut entry.ids, id);
            if entry.ids.len() == 0 {
                entries.remove(i);
                proof {
                    let s1 = entries.deep_view();
                    assert(s1 =~= s0.remove(gi));
                    assert forall|p: int, q: int|
                        #![trigger s1[p], s1[q]]
                        0 <= p < q < s1.len() implies s1[p].owner != s1[q].owner by {
                        let p0: int = if p < gi { p } else { p + 1 };
                        let q0: int = if q < gi { q } else { q + 1 };
                        assert(s1[p] == s0[p0]);
                        assert(s1[q] == s0[q0]);
                        assert(s0[p0].owner != s0[q0].owner);
                    }
                    assert forall|w: int| 0 <= w < s1.len() implies s1[w].owner != owner@ by {
                        let w0: int = if w < gi { w } else { w + 1 };
                        assert(s1[w] == s0[w0]);
                        if w0 != gi {
                            assert(s0[w0].owner != s0[gi].owner);
                        }
                    }
                    assert(!has_owner(s1, owner@));
                    assert(ids_for_owner(s1, owner@) =~= Seq::<Seq<char>>::empty());
                    assert(entry.ids.deep_view().len() == 0);
                    assert forall|x: Seq<char>|
                        x != id@ implies (#[trigger] ids_for_owner(s1, owner@).contains(x)
                        <==> ids_for_owner(s0, owner@).contains(x)) by {
                        assert(!ids_for_owner(s1, owner@).contains(x));
                        if ids_for_owner(s0, owner@).contains(x) {
                            assert(s0[gi].ids.contains(x));
                            assert(entry.ids.deep_view().contains(x));
                        }
                    }
                    assert forall|o: Seq<char>| o != owner@ implies #[trigger] ids_for_owner(
                        s1,
                        o,
                    ) == ids_for_owner(s0, o) by {
                        if has_owner(s0, o) {
                            let w = owner_index_of(s0, o);
                            assert(s0[w].owner == o);
                            assert(w != gi);
                            let w1: int = if w < gi { w } else { w - 1 };
                            assert(s1[w1] == s0[w]);
                            lemma_owner_at(s1, o, w1);
                            lemma_owner_at(s0, o, w);
                        } else {
                            if has_owner(s1, o) {
                                let w = choose|w: int| 0 <= w < s1.len() && s1[w].owner == o;
                                let w0: int = if w < gi { w } else { w + 1 };
                                assert(s0[w0].owner == o);
                                assert(has_owner(s0, o));
                            }
                        }
                    }
                }
            } else {
                let ghost ev = entry@;
                entries.set(i, entry);
                proof {
                    let s1 = entries.deep_view();
                    assert(s1 =~= s0.update(gi, ev));
                    assert forall|p: int, q: int|
                        #![trigger s1[p], s1[q]]
                        0 <= p < q < s1.len() implies s1[p].owner != s1[q].owner by {
                        assert(s0[p].owner != s0[q].owner);
                        assert(s1[p].owner == if p == gi { ev.owner } else { s0[p].owner });
                        assert(s1[q].owner == if q == gi { ev.owner } else { s0[q].owner });
                        assert(ev.owner == s0[gi].owner);
                    }
                    lemma_owner_at(s1, owner@, gi);
                    assert(ids_for_owner(s1, owner@) == ev.ids);
                    assert forall|x: Seq<char>|
                        x != id@ implies (#[trigger] ids_for_owner(s1, owner@).contains(x)
                        <==> ids_for_owner(s0, owner@).contains(x)) by {
                        assert(ids_for_owner(s0, owner@) == s0[gi].ids);
                    }
                    assert(!ids_for_owner(s1, owner@).contains(id@));
                    assert forall|o: Seq<char>| o != owner@ implies #[trigger] ids_for_owner(
                        s1,
                        o,
                    ) == ids_for_owner(s0, o) by {
                        if has_owner(s0, o) {
                            let w = owner_index_of(s0, o);
                            assert(s0[w].owner == o);
                            assert(w != gi);
                            assert(s1[w] == s0[w]);
                            lemma_owner_at(s1, o, w);
                            lemma_owner_at(s0, o, w);
                        } else {
                            if has_owner(s1, o) {
                                let w = choose|w: int| 0 <= w < s1.len() && s1[w].owner == o;
                                assert(w != gi);
                                assert(s0[w].owner == o);
                                assert(has_owner(s0, o));
                            }
                        }
                    }
                }
            }
        },
        None => {},
    }
}

/// The node records behind a list of identities, skipping identities with
/// no record, in list order.
pub open spec fn present_nodes(nodes: Seq<NodeView>, ids: Seq<Seq<char>>) -> Seq<NodeView>
    decreases ids.len(),
{
    if ids.len() == 0 {
        Seq::empty()
    } else if has_node(nodes, ids.last()) {
        present_nodes(nodes, ids.drop_last()).push(node_for(nodes, ids.last()))
    } else {
        present_nodes(nodes, ids.drop_last())
    }
}

/// The bounty records behind a list of identities, skipping identities with
/// no record, in list order.
pub open spec fn present_bounties(bounties: Seq<BountyView>, ids: Seq<Seq<char>>) -> Seq<
    BountyView,
>
    decreases ids.len(),
{
    if ids.len() == 0 {
        Seq::empty()
    } else if has_bounty(bounties, ids.last()) {
        present_bounties(bounties, ids.drop_last()).push(bounty_for(bounties, ids.last()))
    } else {
        present_bounties(bounties, ids.drop_last())
    }
}

/// The combined lifetime earnings of the listed nodes (meaningful when each
/// identity has a record).
pub open spec fn sum_earnings(nodes: Seq<NodeView>, ids: Seq<Seq<char>>) -> int
    decreases ids.len(),
{
    if ids.len() == 0 {
        0
    } else {
        sum_earnings(nodes, ids.drop_last()) + node_for(nodes, ids.last()).lifetime_earnings
    }
}

/// Earnings are non-negative, and a prefix of the list never sums to more
/// than the whole list.
pub proof fn lemma_sum_earnings_prefix(nodes: Seq<NodeView>, ids: Seq<Seq<char>>, k: int)
    requires
        0 <= k <= ids.len(),
    ensures
        0 <= sum_earnings(nodes, ids.take(k)),
        sum_earnings(nodes, ids.take(k)) <= sum_earnings(nodes, ids),
    decreases ids.len(),
{
    if ids.len() == 0 {
        assert(ids.take(k) =~= ids);
    } else if k == ids.len() {
        assert(ids.take(k) =~= ids);
        lemma_sum_earnings_prefix(nodes, ids.drop_last(), ids.len() - 1);
        assert(ids.drop_last().take(ids.len() - 1) =~= ids.drop_last());
    } else {
        assert(ids.take(k) =~= ids.drop_last().take(k));
        lemma_sum_earnings_prefix(nodes, ids.drop_last(), k);
    }
}

/// The mathematical value of a [`Coordinator`].
#[verifier::ext_equal]
pub ghost struct CoordinatorView {
    pub nodes: Seq<NodeView>,
    pub node_queue: Seq<Seq<char>>,
    pub bounties: Seq<BountyView>,
    pub active_bounties: Seq<Seq<char>>,
    pub offline_nodes: Seq<NodeView>,
    pub universal_bounty_index: u64,
    pub total_completed_bounties: u64,
    pub total_payouts: u128,
    pub node_by_owner: Seq<OwnerIndexView>,
    pub bounty_by_owner: Seq<OwnerIndexView>,
}

impl CoordinatorView {
    /// A coordinator right after initialization: no records, zero counters.
    pub open spec fn initial() -> CoordinatorView {
        CoordinatorView {
            nodes: Seq::empty(),
            node_queue: Seq::empty(),
            bounties: Seq::empty(),
            active_bounties: Seq::empty(),
            offline_nodes: Seq::empty(),
            universal_bounty_index: 0,
            total_completed_bounties: 0,
            total_payouts: 0,
            node_by_owner: Seq::empty(),
            bounty_by_owner: Seq::empty(),
        }
    }

    /// The coordinator's own well-formedness: identities are unique within
    /// each table, a node is online or offline but never both, the election
    /// queue repeats nobody, and every bounty record is itself well-formed.
    /// Established at initialization and preserved by every operation.
    pub open spec fn wf(self) -> bool {
        &&& nodes_unique(self.nodes)
        &&& nodes_unique(self.offline_nodes)
        &&& forall|id: Seq<char>|
            #[trigger] has_node(self.offline_nodes, id) ==> !has_node(self.nodes, id)
        &&& self.node_queue.no_duplicates()
        &&& bounties_unique(self.bounties)
        &&& self.active_bounties.no_duplicates()
        &&& forall|i: int|
            #![trigger self.bounties[i]]
            0 <= i < self.bounties.len() ==> self.bounties[i].wf()
        &&& owners_unique(self.node_by_owner)
        &&& owners_unique(self.bounty_by_owner)
    }
}

/// The root aggregate: the online and offline node tables, the election
/// queue, the bounty table with its set of still-open bounties, the
/// bounty-naming counter, the aggregate payout counters, and the two
/// owner indices.
#[derive(Debug)]
pub struct Coordinator {
    pub nodes: Vec<Node>,
    /// The pool of node identities eligible for election.
    pub node_queue: Vec<String>,
    pub bounties: Vec<Bounty>,
    /// The identities of bounties that have not closed yet.
    pub active_bounties: Vec<String>,
    pub offline_nodes: Vec<Node>,
    /// Monotonically increasing counter used to name bounties without
    /// collisions.
    pub universal_bounty_index: u64,
    pub total_completed_bounties: u64,
    pub total_payouts: u128,
    pub node_by_owner: Vec<OwnerIndexEntry>,
    pub bounty_by_owner: Vec<OwnerIndexEntry>,
}

impl View for Coordinator {
    type V = CoordinatorView;

    open spec fn view(&self) -> CoordinatorView {
        CoordinatorView {
            nodes: self.nodes.deep_view(),
            node_queue: self.node_queue.deep_view(),
            bounties: self.bounties.deep_view(),
            active_bounties: self.active_bounties.deep_view(),
            offline_nodes: self.offline_nodes.deep_view(),
            universal_bounty_index: self.universal_bounty_index,
            total_completed_bounties: self.total_completed_bounties,
            total_payouts: self.total_payouts,
            node_by_owner: self.node_by_owner.deep_view(),
            bounty_by_owner: self.bounty_by_owner.deep_view(),
        }
    }
}

impl Default for Coordinator {
    /// An empty coordinator; the same state [`Coordinator::init`] builds.
    fn default() -> (res: Self)
        ensures
            res@ == CoordinatorView::initial(),
            res@.wf(),
    {
        Coordinator::init()
    }
}

/// Finds the position of the node with the given identity.
pub fn find_node_index(nodes: &Vec<Node>, id: &String) -> (res: Option<usize>)
    ensures
        match res {
            Some(i) => i < nodes@.len() && nodes.deep_view()[i as int].id == id@,
            None => !has_node(nodes.deep_view(), id@),
        },
{
    let mut i: usize = 0;
    while i < nodes.len()
        invariant
            i <= nodes.len(),
            forall|j: int| #![trigger nodes.deep_view()[j]] 0 <= j < i ==> nodes.deep_view()[j].id != id@,
        decreases nodes.len() - i,
    {
        if nodes[i].id == *id {
            assert(nodes.deep_view()[i as int].id == id@);
            return Some(i);
        }
        i = i + 1;
    }
    None
}

/// Finds the position of the bounty with the given identity.
pub fn find_bounty_index(bounties: &Vec<Bounty>, id: &String) -> (res: Option<usize>)
    ensures
        match res {
            Some(i) => i < bounties@.len() && bounties.deep_view()[i as int].id == id@,
            None => !has_bounty(bounties.deep_view(), id@),
        },
{
    let mut i: usize = 0;
    while i < bounties.len()
        invariant
            i <= bounties.len(),
            forall|j: int|
                #![trigger bounties.deep_view()[j]]
                0 <= j < i ==> bounties.deep_view()[j].id != id@,
        decreases bounties.len() - i,
    {
        if bounties[i].id == *id {
            assert(bounties.deep_view()[i as int].id == id@);
            return Some(i);
        }
        i = i + 1;
    }
    None
}

/// The bounty table after writing `b`: replaces the record with `b`'s
/// identity, or appends `b` when no record has it.
pub open spec fn bounties_upsert(s: Seq<BountyView>, b: BountyView) -> Seq<BountyView> {
    if has_bounty(s, b.id) {
        s.update(bounty_index_of(s, b.id), b)
    } else {
        s.push(b)
    }
}

/// After an upsert, the written bounty is found under its identity, and the
/// table grew only if the identity was new.
pub proof fn lemma_bounties_upsert_props(s: Seq<BountyView>, b: BountyView)
    requires
        bounties_unique(s),
    ensures
        has_bounty(bounties_upsert(s, b), b.id),
        bounty_for(bounties_upsert(s, b), b.id) == b,
        bounties_unique(bounties_upsert(s, b)),
        bounties_upsert(s, b).len() == if has_bounty(s, b.id) {
            s.len()
        } else {
            s.len() + 1
        },
{
    if has_bounty(s, b.id) {
        let i = bounty_index_of(s, b.id);
        let s1 = s.update(i, b);
        assert(s1[i] == b);
        assert forall|p: int, q: int|
            #![trigger s1[p], s1[q]]
            0 <= p < q < s1.len() implies s1[p].id != s1[q].id by {
            assert(s[p].id != s[q].id);
            assert(s1[p].id == if p == i { b.id } else { s[p].id });
            assert(s1[q].id == if q == i { b.id } else { s[q].id });
            assert(s[i].id == b.id);
        }
        lemma_bounty_at(s1, b.id, i);
    } else {
        let s1 = s.push(b);
        assert(s1[s.len() as int] == b);
        assert forall|p: int, q: int|
            #![trigger s1[p], s1[q]]
            0 <= p < q < s1.len() implies s1[p].id != s1[q].id by {
            if q < s.len() {
                assert(s[p].id != s[q].id);
            } else {
                assert(s1[q] == b);
                assert(s1[p] == s[p]);
            }
        }
        lemma_bounty_at(s1, b.id, s.len() as int);
    }
}

/// Writes a bounty into the table, replacing the record with the same
/// identity or appending a new one.
pub fn upsert_bounty(bounties: &mut Vec<Bounty>, b: Bounty)
    requires
        bounties_unique(old(bounties).deep_view()),
    ensures
        final(bounties).deep_view() == bounties_upsert(old(bounties).deep_view(), b@),
        bounties_unique(final(bounties).deep_view()),
        has_bounty(final(bounties).deep_view(), b@.id),
        bounty_for(final(bounties).deep_view(), b@.id) == b@,
{
    let ghost s0 = bounties.deep_view();
    let ghost bv = b@;
    let found = find_bounty_index(bounties, &b.id);
    match found {
        Some(i) => {
            proof {
                lemma_bounty_at(s0, bv.id, i as int);
            }
            bounties.set(i, b);
            proof {
                let s1 = bounties.deep_view();
                assert(s1 =~= s0.update(i as int, bv));
                assert forall|p: int, q: int|
                    #![trigger s1[p], s1[q]]
                    0 <= p < q < s1.len() implies s1[p].id != s1[q].id by {
                    assert(s0[p].id != s0[q].id);
                    assert(s1[p].id == if p == i { bv.id } else { s0[p].id });
                    assert(s1[q].id == if q == i { bv.id } else { s0[q].id });
                    assert(s0[i as int].id == bv.id);
                }
                lemma_bounty_at(s1, bv.id, i as int);
            }
        },
        None => {
            bounties.push(b);
            proof {
                let s1 = bounties.deep_view();
                assert(s1 =~= s0.push(bv));
                assert forall|p: int, q: int|
                    #![trigger s1[p], s1[q]]
                    0 <= p < q < s1.len() implies s1[p].id != s1[q].id by {
                    if q < s0.len() {
                        assert(s0[p].id != s0[q].id);
                    } else {
                        assert(s1[q] == bv);
                        assert(s1[p] == s0[p]);
                    }
                }
                lemma_bounty_at(s1, bv.id, s0.len() as int);
            }
        },
    }
}

/// Finds the position of the index entry for the given owner.
pub fn find_owner_index(entries: &Vec<OwnerIndexEntry>, owner: &String) -> (res: Option<usize>)
    ensures
        match res {
            Some(i) => i < entries@.len() && entries.deep_view()[i as int].owner == owner@,
            None => !has_owner(entries.deep_view(), owner@),
        },
{
    let mut i: usize = 0;
    while i < entries.len()
        invariant
            i <= entries.len(),
            forall|j: int|
                #![trigger entries.deep_view()[j]]
                0 <= j < i ==> entries.deep_view()[j].owner != owner@,
        decreases entries.len() - i,
    {
        if entries[i].owner == *owner {
            assert(entries.deep_view()[i as int].owner == owner@);
            return Some(i);
        }
        i = i + 1;
    }
    None
}

impl Coordinator {
    /// Builds an empty coordinator. The host guarantees this runs once, so
    /// there is no state to collide with.
    pub fn init() -> (res: Self)
        ensures
            res@ == CoordinatorView::initial(),
            res@.wf(),
    {
        let res = Coordinator {
            nodes: Vec::new(),
            node_queue: Vec::new(),
            bounties: Vec::new(),
            active_bounties: Vec::new(),
            offline_nodes: Vec::new(),
            universal_bounty_index: 0,
            total_completed_bounties: 0,
            total_payouts: 0,
            node_by_owner: Vec::new(),
            bounty_by_owner: Vec::new(),
        };
        proof {
            assert(res@ =~= CoordinatorView::initial());
        }
        res
    }

    /// How many nodes are online.
    pub fn get_node_count(&self) -> (res: u64)
        ensures
            res == self@.nodes.len(),
    {
        self.nodes.len() as u64
    }

    /// How many bounties exist, open or closed.
    pub fn get_bounty_count(&self) -> (res: u64)
        ensures
            res == self@.bounties.len(),
    {
        self.bounties.len() as u64
    }

    /// How many nodes are offline.
    pub fn get_offline_node_count(&self) -> (res: u64)
        ensures
            res == self@.offline_nodes.len(),
    {
        self.offline_nodes.len() as u64
    }

    /// How many bounties closed with an outcome (cancellations not counted).
    pub fn get_total_completed_bounties(&self) -> (res: u64)
        ensures
            res == self@.total_completed_bounties,
    {
        self.total_completed_bounties
    }

    /// How many node identities the index lists for this owner.
    pub fn get_nodes_for_owner_count(&self, owner_id: String) -> (res: usize)
        requires
            self@.wf(),
        ensures
            res == ids_for_owner(self@.node_by_owner, owner_id@).len(),
    {
        match find_owner_index(&self.node_by_owner, &owner_id) {
            Some(i) => {
                proof {
                    lemma_owner_at(self@.node_by_owner, owner_id@, i as int);
                }
                self.node_by_owner[i].ids.len()
            },
            None => 0,
        }
    }

    /// How many bounty identities the index lists for this owner.
    pub fn get_bounties_for_owner_count(&self, owner_id: String) -> (res: usize)
        requires
            self@.wf(),
        ensures
            res == ids_for_owner(self@.bounty_by_owner, owner_id@).len(),
    {
        match find_owner_index(&self.bounty_by_owner, &owner_id) {
            Some(i) => {
                proof {
                    lemma_owner_at(self@.bounty_by_owner, owner_id@, i as int);
                }
                self.bounty_by_owner[i].ids.len()
            },
            None => 0,
        }
    }

    /// The sum of all payouts ever released.
    pub fn get_total_payouts(&self) -> (res: u128)
        ensures
            res == self@.total_payouts,
    {
        self.total_payouts
    }

    /// Looks a node up by identity.
    pub fn get_node(&self, node_id: String) -> (res: Result<Node, CoordinatorError>)
        requires
            self@.wf(),
        ensures
            res is Err <==> !has_node(self@.nodes, node_id@),
            match res {
                Ok(n) => n@ == node_for(self@.nodes, node_id@),
                Err(e) => e == CoordinatorError::NodeNotFound,
            },
    {
        match find_node_index(&self.nodes, &node_id) {
            None => Err(CoordinatorError::NodeNotFound),
            Some(i) => {
                proof {
                    lemma_node_at(self@.nodes, node_id@, i as int);
                }
                Ok(self.nodes[i].clone())
            },
        }
    }

    /// Looks a bounty up by identity.
    pub fn get_bounty(&self, bounty_id: String) -> (res: Result<Bounty, CoordinatorError>)
        requires
            self@.wf(),
        ensures
            res is Err <==> !has_bounty(self@.bounties, bounty_id@),
            match res {
                Ok(b) => b@ == bounty_for(self@.bounties, bounty_id@),
                Err(e) => e == CoordinatorError::BountyNotFound,
            },
    {
        match find_bounty_index(&self.bounties, &bounty_id) {
            None => Err(CoordinatorError::BountyNotFound),
            Some(i) => {
                proof {
                    lemma_bounty_at(self@.bounties, bounty_id@, i as int);
                }
                Ok(self.bounties[i].clone())
            },
        }
    }

    /// Looks a bounty up by identity; the failure case is the caller's to
    /// escalate.
    pub fn get_bounty_or_panic(&self, bounty_id: String) -> (res: Result<
        Bounty,
        CoordinatorError,
    >)
        requires
            self@.wf(),
        ensures
            res is Err <==> !has_bounty(self@.bounties, bounty_id@),
            match res {
                Ok(b) => b@ == bounty_for(self@.bounties, bounty_id@),
                Err(e) => e == CoordinatorError::BountyNotFound,
            },
    {
        self.get_bounty(bounty_id)
    }

    /// Every online node, in table order.
    pub fn get_nodes(&self) -> (res: Vec<Node>)
        ensures
            res.deep_view() == self@.nodes,
    {
        let mut res: Vec<Node> = Vec::new();
        let mut i: usize = 0;
        while i < self.nodes.len()
            invariant
                i <= self.nodes.len(),
                res@.len() == i,
                forall|j: int|
                    #![trigger res.deep_view()[j]]
                    0 <= j < i ==> res.deep_view()[j] == self.nodes.deep_view()[j],
            decreases self.nodes.len() - i,
        {
            let ghost before = res.deep_view();
            res.push(self.nodes[i].clone());
            proof {
                assert(res.deep_view() =~= before.push(self.nodes.deep_view()[i as int]));
            }
            i = i + 1;
        }
        proof {
            assert(res.deep_view() =~= self.nodes.deep_view());
        }
        res
    }

    /// Every online node with its identity, in table order.
    pub fn get_nodes2(&self) -> (res: Vec<(String, Node)>)
        ensures
            res@.len() == self@.nodes.len(),
            forall|j: int|
                #![trigger res@[j]]
                0 <= j < res@.len() ==> res@[j].0@ == self@.nodes[j].id && res@[j].1@
                    == self@.nodes[j],
    {
        let mut res: Vec<(String, Node)> = Vec::new();
        let mut i: usize = 0;
        while i < self.nodes.len()
            invariant
                i <= self.nodes.len(),
                res@.len() == i,
                forall|j: int|
                    #![trigger res@[j]]
                    0 <= j < i ==> res@[j].0@ == self.nodes.deep_view()[j].id && res@[j].1@
                        == self.nodes.deep_view()[j],
            decreases self.nodes.len() - i,
        {
            res.push((self.nodes[i].id.clone(), self.nodes[i].clone()));
            i = i + 1;
        }
        res
    }

    /// Every bounty, open or closed, in table order.
    pub fn get_bounties(&self) -> (res: Vec<Bounty>)
        ensures
            res.deep_view() == self@.bounties,
    {
        let mut res: Vec<Bounty> = Vec::new();
        let mut i: usize = 0;
        while i < self.bounties.len()
            invariant
                i <= self.bounties.len(),
                res@.len() == i,
                forall|j: int|
                    #![trigger res.deep_view()[j]]
                    0 <= j < i ==> res.deep_view()[j] == self.bounties.deep_view()[j],
            decreases self.bounties.len() - i,
        {
            let ghost before = res.deep_view();
            res.push(self.bounties[i].clone());
            proof {
                assert(res.deep_view() =~= before.push(self.bounties.deep_view()[i as int]));
            }
            i = i + 1;
        }
        proof {
            assert(res.deep_view() =~= self.bounties.deep_view());
        }
        res
    }

    /// A bounty's elected nodes, in election order.
    pub fn get_bounty_elected_nodes(&self, bounty_id: String) -> (res: Result<
        Vec<String>,
        CoordinatorError,
    >)
        requires
            self@.wf(),
        ensures
            res is Err <==> !has_bounty(self@.bounties, bounty_id@),
            match res {
                Ok(v) => v.deep_view() == bounty_for(self@.bounties, bounty_id@).elected_nodes,
                Err(e) => e == CoordinatorError::BountyNotFound,
            },
    {
        match find_bounty_index(&self.bounties, &bounty_id) {
            None => Err(CoordinatorError::BountyNotFound),
            Some(i) => {
                proof {
                    lemma_bounty_at(self@.bounties, bounty_id@, i as int);
                }
                Ok(clone_ids(&self.bounties[i].elected_nodes))
            },
        }
    }

    /// A bounty's still-unanswered elected nodes.
    pub fn get_unanswered_nodes(&self, bounty_id: String) -> (res: Result<
        Vec<String>,
        CoordinatorError,
    >)
        requires
            self@.wf(),
        ensures
            res is Err <==> !has_bounty(self@.bounties, bounty_id@),
            match res {
                Ok(v) => v.deep_view() == bounty_for(self@.bounties, bounty_id@).unanswered_nodes,
                Err(e) => e == CoordinatorError::BountyNotFound,
            },
    {
        match find_bounty_index(&self.bounties, &bounty_id) {
            None => Err(CoordinatorError::BountyNotFound),
            Some(i) => {
                proof {
                    lemma_bounty_at(self@.bounties, bounty_id@, i as int);
                }
                Ok(clone_ids(&self.bounties[i].unanswered_nodes))
            },
        }
    }

    /// A bounty's successfully-answering nodes.
    pub fn get_successful_nodes(&self, bounty_id: String) -> (res: Result<
        Vec<String>,
        CoordinatorError,
    >)
        requires
            self@.wf(),
        ensures
            res is Err <==> !has_bounty(self@.bounties, bounty_id@),
            match res {
                Ok(v) => v.deep_view() == bounty_for(self@.bounties, bounty_id@).successful_nodes,
                Err(e) => e == CoordinatorError::BountyNotFound,
            },
    {
        match find_bounty_index(&self.bounties, &bounty_id) {
            None => Err(CoordinatorError::BountyNotFound),
            Some(i) => {
                proof {
                    lemma_bounty_at(self@.bounties, bounty_id@, i as int);
                }
                Ok(clone_ids(&self.bounties[i].successful_nodes))
            },
        }
    }

    /// A bounty's failure-reporting nodes.
    pub fn get_failed_nodes(&self, bounty_id: String) -> (res: Result<
        Vec<String>,
        CoordinatorError,
    >)
        requires
            self@.wf(),
        ensures
            res is Err <==> !has_bounty(self@.bounties, bounty_id@),
            match res {
                Ok(v) => v.deep_view() == bounty_for(self@.bounties, bounty_id@).failed_nodes,
                Err(e) => e == CoordinatorError::BountyNotFound,
            },
    {
        match find_bounty_index(&self.bounties, &bounty_id) {
            None => Err(CoordinatorError::BountyNotFound),
            Some(i) => {
                proof {
                    lemma_bounty_at(self@.bounties, bounty_id@, i as int);
                }
                Ok(clone_ids(&self.bounties[i].failed_nodes))
            },
        }
    }

    /// The signer's nodes, in index order; an identity whose record is gone
    /// is skipped rather than cleaned up.
    pub fn get_nodes_for_owner(&self, owner_id: String) -> (res: Vec<Node>)
        requires
            self@.wf(),
        ensures
            res.deep_view() == present_nodes(
                self@.nodes,
                ids_for_owner(self@.node_by_owner, owner_id@),
            ),
    {
        let ghost owned = ids_for_owner(self@.node_by_owner, owner_id@);
        let mut res: Vec<Node> = Vec::new();
        let ids: Vec<String>;
        match find_owner_index(&self.node_by_owner, &owner_id) {
            None => {
                proof {
                    assert(owned =~= Seq::<Seq<char>>::empty());
                    assert(res.deep_view() =~= present_nodes(self@.nodes, owned));
                }
                return res;
            },
            Some(oi) => {
                proof {
                    lemma_owner_at(self@.node_by_owner, owner_id@, oi as int);
                }
                ids = clone_ids(&self.node_by_owner[oi].ids);
            },
        }
        let mut k: usize = 0;
        while k < ids.len()
            invariant
                k <= ids.len(),
                ids.deep_view() == owned,
                self@.wf(),
                res.deep_view() == present_nodes(self@.nodes, owned.take(k as int)),
            decreases ids.len() - k,
        {
            let ghost gk = k as int;
            proof {
                assert(owned.take(gk + 1).drop_last() =~= owned.take(gk));
                assert(owned.take(gk + 1).last() == owned[gk]);
            }
            match find_node_index(&self.nodes, &ids[k]) {
                None => {},
                Some(ni) => {
                    proof {
                        lemma_node_at(self@.nodes, owned[gk], ni as int);
                    }
                    let ghost before = res.deep_view();
                    res.push(self.nodes[ni].clone());
                    proof {
                        assert(res.deep_view() =~= before.push(node_for(self@.nodes, owned[gk])));
                    }
                },
            }
            k = k + 1;
        }
        proof {
            assert(owned.take(owned.len() as int) =~= owned);
        }
        res
    }

    /// The signer's bounties, in index order; an identity whose record is
    /// gone is skipped rather than cleaned up.
    pub fn get_bounties_for_owner(&self, owner_id: String) -> (res: Vec<Bounty>)
        requires
            self@.wf(),
        ensures
            res.deep_view() == present_bounties(
                self@.bounties,
                ids_for_owner(self@.bounty_by_owner, owner_id@),
            ),
    {
        let ghost owned = ids_for_owner(self@.bounty_by_owner, owner_id@);
        let mut res: Vec<Bounty> = Vec::new();
        let ids: Vec<String>;
        match find_owner_index(&self.bounty_by_owner, &owner_id) {
            None => {
                proof {
                    assert(owned =~= Seq::<Seq<char>>::empty());
                    assert(res.deep_view() =~= present_bounties(self@.bounties, owned));
                }
                return res;
            },
            Some(oi) => {
                proof {
                    lemma_owner_at(self@.bounty_by_owner, owner_id@, oi as int);
                }
                ids = clone_ids(&self.bounty_by_owner[oi].ids);
            },
        }
        let mut k: usize = 0;
        while k < ids.len()
            invariant
                k <= ids.len(),
                ids.deep_view() == owned,
                self@.wf(),
                res.deep_view() == present_bounties(self@.bounties, owned.take(k as int)),
            decreases ids.len() - k,
        {
            let ghost gk = k as int;
            proof {
                assert(owned.take(gk + 1).drop_last() =~= owned.take(gk));
                assert(owned.take(gk + 1).last() == owned[gk]);
            }
            match find_bounty_index(&self.bounties, &ids[k]) {
                None => {},
                Some(bi) => {
                    proof {
                        lemma_bounty_at(self@.bounties, owned[gk], bi as int);
                    }
                    let ghost before = res.deep_view();
                    res.push(self.bounties[bi].clone());
                    proof {
                        assert(res.deep_view() =~= before.push(bounty_for(
                            self@.bounties,
                            owned[gk],
                        )));
                    }
                },
            }
            k = k + 1;
        }
        proof {
            assert(owned.take(owned.len() as int) =~= owned);
        }
        res
    }

    /// The combined lifetime earnings of the signer's listed nodes. Fails if
    /// a listed identity has no record, or if the sum would not fit the
    /// balance type.
    pub fn get_lifetime_earnings_for_owner(&self, owner_id: String) -> (res: Result<
        u128,
        CoordinatorError,
    >)
        requires
            self@.wf(),
        ensures
            res is Err <==> ((exists|j: int|
                #![trigger ids_for_owner(self@.node_by_owner, owner_id@)[j]]
                0 <= j < ids_for_owner(self@.node_by_owner, owner_id@).len() && !has_node(
                    self@.nodes,
                    ids_for_owner(self@.node_by_owner, owner_id@)[j],
                )) || sum_earnings(self@.nodes, ids_for_owner(self@.node_by_owner, owner_id@))
                > u128::MAX),
            match res {
                Ok(total) => {
                    &&& forall|j: int|
                        #![trigger ids_for_owner(self@.node_by_owner, owner_id@)[j]]
                        0 <= j < ids_for_owner(self@.node_by_owner, owner_id@).len() ==> has_node(
                            self@.nodes,
                            ids_for_owner(self@.node_by_owner, owner_id@)[j],
                        )
                    &&& total as int == sum_earnings(
                        self@.nodes,
                        ids_for_owner(self@.node_by_owner, owner_id@),
                    )
                },
                Err(e) => e == CoordinatorError::NodeNotFound || e == CoordinatorError::Overflow,
            },
    {
        let ghost owned = ids_for_owner(self@.node_by_owner, owner_id@);
        let ids: Vec<String>;
        match find_owner_index(&self.node_by_owner, &owner_id) {
            None => {
                proof {
                    assert(owned =~= Seq::<Seq<char>>::empty());
                }
                return Ok(0);
            },
            Some(oi) => {
                proof {
                    lemma_owner_at(self@.node_by_owner, owner_id@, oi as int);
                }
                ids = clone_ids(&self.node_by_owner[oi].ids);
            },
        }
        let mut total: u128 = 0;
        let mut k: usize = 0;
        while k < ids.len()
            invariant
                k <= ids.len(),
                ids.deep_view() == owned,
                owned == ids_for_owner(self@.node_by_owner, owner_id@),
                self@.wf(),
                total as int == sum_earnings(self@.nodes, owned.take(k as int)),
                forall|j: int|
                    #![trigger owned[j]]
                    0 <= j < k ==> has_node(self@.nodes, owned[j]),
            decreases ids.len() - k,
        {
            let ghost gk = k as int;
            proof {
                assert(owned.take(gk + 1).drop_last() =~= owned.take(gk));
                assert(owned.take(gk + 1).last() == owned[gk]);
            }
            let ni: usize;
            match find_node_index(&self.nodes, &ids[k]) {
                None => {
                    proof {
                        assert(!has_node(
                            self@.nodes,
                            ids_for_owner(self@.node_by_owner, owner_id@)[gk],
                        ));
                    }
                    return Err(CoordinatorError::NodeNotFound);
                },
                Some(i) => {
                    ni = i;
                },
            }
            proof {
                lemma_node_at(self@.nodes, owned[gk], ni as int);
            }
            match total.checked_add(self.nodes[ni].lifetime_earnings) {
                None => {
                    proof {
                        assert(sum_earnings(self@.nodes, owned.take(gk + 1)) > u128::MAX);
                        lemma_sum_earnings_prefix(self@.nodes, owned, gk + 1);
                    }
                    return Err(CoordinatorError::Overflow);
                },
                Some(v) => {
                    total = v;
                },
            }
            k = k + 1;
        }
        proof {
            assert(owned.take(owned.len() as int) =~= owned);
        }
        Ok(total)
    }

    /// Registers a worker node under `{name}.node.{signer}`.
    ///
    /// The refundable deposit must meet the minimum, and the identity must
    /// not be registered yet — online or offline. The fresh node joins the
    /// active table, the election queue, and the signer's index entry.
    pub fn register_node(
        &mut self,
        name: String,
        absolute_timeout: u64,
        allow_network: bool,
        allow_gpu: bool,
        signer: String,
        attached_deposit: u128,
        now: u64,
    ) -> (res: Result<Node, CoordinatorError>)
        requires
            old(self)@.wf(),
        ensures
            final(self)@.wf(),
            res is Err <==> (attached_deposit < crate::MIN_NODE_DEPOSIT || has_node(
                old(self)@.nodes,
                crate::ids::spec_node_id(name@, signer@),
            ) || has_node(old(self)@.offline_nodes, crate::ids::spec_node_id(name@, signer@))),
            match res {
                Ok(node) => {
                    &&& attached_deposit >= crate::MIN_NODE_DEPOSIT
                    &&& node@ == Node::registered(
                        crate::ids::spec_node_id(name@, signer@),
                        absolute_timeout,
                        allow_network,
                        allow_gpu,
                        signer@,
                        attached_deposit,
                        now,
                    )
                    &&& !has_node(old(self)@.nodes, node@.id)
                    &&& !has_node(old(self)@.offline_nodes, node@.id)
                    &&& final(self)@.nodes == old(self)@.nodes.push(node@)
                    &&& final(self)@.node_queue.contains(node@.id)
                    &&& forall|x: Seq<char>|
                        x != node@.id ==> (#[trigger] final(self)@.node_queue.contains(x) <==> old(
                            self,
                        )@.node_queue.contains(x))
                    &&& final(self)@.node_by_owner == owner_index_add(
                        old(self)@.node_by_owner,
                        signer@,
                        node@.id,
                    )
                    &&& final(self)@.offline_nodes == old(self)@.offline_nodes
                    &&& final(self)@.bounties == old(self)@.bounties
                    &&& final(self)@.active_bounties == old(self)@.active_bounties
                    &&& final(self)@.universal_bounty_index == old(self)@.universal_bounty_index
                    &&& final(self)@.total_completed_bounties == old(
                        self,
                    )@.total_completed_bounties
                    &&& final(self)@.total_payouts == old(self)@.total_payouts
                    &&& final(self)@.bounty_by_owner == old(self)@.bounty_by_owner
                },
                Err(e) => {
                    &&& final(self)@ == old(self)@
                    &&& (e == CoordinatorError::InsufficientDeposit <==> attached_deposit
                        < crate::MIN_NODE_DEPOSIT)
                    &&& (e == CoordinatorError::NodeAlreadyRegistered <==> (attached_deposit
                        >= crate::MIN_NODE_DEPOSIT && (has_node(
                        old(self)@.nodes,
                        crate::ids::spec_node_id(name@, signer@),
                    ) || has_node(
                        old(self)@.offline_nodes,
                        crate::ids::spec_node_id(name@, signer@),
                    ))))
                },
            },
    {
        if attached_deposit < crate::MIN_NODE_DEPOSIT {
            return Err(CoordinatorError::InsufficientDeposit);
        }
        let node_id = crate::ids::make_node_id(&name, &signer);
        if find_node_index(&self.nodes, &node_id).is_some() {
            return Err(CoordinatorError::NodeAlreadyRegistered);
        }
        if find_node_index(&self.offline_nodes, &node_id).is_some() {
            return Err(CoordinatorError::NodeAlreadyRegistered);
        }
        let node = Node::new_node(
            node_id,
            absolute_timeout,
            allow_network,
            allow_gpu,
            signer.clone(),
            attached_deposit,
            now,
        );
        let ghost nodes0 = self.nodes.deep_view();
        let ghost nv = node@;
        self.nodes.push(node.clone());
        proof {
            let s1 = self.nodes.deep_view();
            assert(s1 =~= nodes0.push(nv));
            assert forall|p: int, q: int|
                #![trigger s1[p], s1[q]]
                0 <= p < q < s1.len() implies s1[p].id != s1[q].id by {
                if q < nodes0.len() {
                    assert(nodes0[p].id != nodes0[q].id);
                } else {
                    assert(s1[q] == nv);
                    assert(s1[p] == nodes0[p]);
                    if nodes0[p].id == nv.id {
                        assert(has_node(nodes0, nv.id));
                    }
                }
            }
            assert forall|id: Seq<char>|
                #[trigger] has_node(self@.offline_nodes, id) implies !has_node(s1, id) by {
                if has_node(s1, id) {
                    let w = choose|w: int| 0 <= w < s1.len() && s1[w].id == id;
                    if w < nodes0.len() {
                        assert(has_node(nodes0, id));
                    } else {
                        assert(id == nv.id);
                    }
                }
            }
        }
        if !contains_id(&self.node_queue, &node.id) {
            let ghost qv = self.node_queue.deep_view();
            proof {
                crate::ids::lemma_no_dup_push(qv, nv.id);
            }
            crate::ids::push_id(&mut self.node_queue, node.id.clone());
            proof {
                assert forall|x: Seq<char>| #[trigger] self.node_queue.deep_view().contains(
                    x,
                ) implies (qv.contains(x) || x == nv.id) by {
                    crate::ids::lemma_contains_push(qv, nv.id, x);
                }
                assert(self.node_queue.deep_view().contains(nv.id)) by {
                    crate::ids::lemma_contains_push(qv, nv.id, nv.id);
                }
                assert forall|x: Seq<char>| qv.contains(x) implies #[trigger] self
                    .node_queue
                    .deep_view()
                    .contains(x) by {
                    crate::ids::lemma_contains_push(qv, nv.id, x);
                }
            }
        }
        add_id_for_owner(&mut self.node_by_owner, &signer, node.id.clone());
        Ok(node)
    }

    /// Updates a node's capability flags and timeout tolerance in place.
    /// Only the node's owner or the coordinator itself may do so.
    pub fn update_node(
        &mut self,
        node_id: String,
        allow_network: bool,
        allow_gpu: bool,
        absolute_timeout: u64,
        signer: String,
        coordinator_id: String,
    ) -> (res: Result<Node, CoordinatorError>)
        requires
            old(self)@.wf(),
        ensures
            final(self)@.wf(),
            res is Err <==> (!has_node(old(self)@.nodes, node_id@) || (signer@ != node_for(
                old(self)@.nodes,
                node_id@,
            ).owner_id && signer@ != coordinator_id@)),
            match res {
                Ok(node) => {
                    &&& has_node(old(self)@.nodes, node_id@)
                    &&& (signer@ == node_for(old(self)@.nodes, node_id@).owner_id || signer@
                        == coordinator_id@)
                    &&& node@ == (NodeView {
                        allow_network: allow_network,
                        allow_gpu: allow_gpu,
                        absolute_timeout: absolute_timeout,
                        ..node_for(old(self)@.nodes, node_id@)
                    })
                    &&& final(self)@ == (CoordinatorView {
                        nodes: old(self)@.nodes.update(
                            node_index_of(old(self)@.nodes, node_id@),
                            node@,
                        ),
                        ..old(self)@
                    })
                },
                Err(e) => {
                    &&& final(self)@ == old(self)@
                    &&& (e == CoordinatorError::NodeNotFound <==> !has_node(
                        old(self)@.nodes,
                        node_id@,
                    ))
                    &&& (e == CoordinatorError::Unauthorized <==> (has_node(
                        old(self)@.nodes,
                        node_id@,
                    ) && signer@ != node_for(old(self)@.nodes, node_id@).owner_id && signer@
                        != coordinator_id@))
                },
            },
    {
        let ni: usize;
        match find_node_index(&self.nodes, &node_id) {
            None => {
                return Err(CoordinatorError::NodeNotFound);
            },
            Some(i) => {
                ni = i;
            },
        }
        proof {
            lemma_node_at(self@.nodes, node_id@, ni as int);
        }
        if !(signer == self.nodes[ni].owner_id || signer == coordinator_id) {
            return Err(CoordinatorError::Unauthorized);
        }
        let cur = self.nodes[ni].clone();
        let updated = Node { allow_network, allow_gpu, absolute_timeout, ..cur };
        let result = updated.clone();
        let ghost nodes0 = self.nodes.deep_view();
        let ghost uv = updated@;
        self.nodes.set(ni, updated);
        proof {
            let s1 = self.nodes.deep_view();
            assert(s1 =~= nodes0.update(ni as int, uv));
            assert forall|p: int, q: int|
                #![trigger s1[p], s1[q]]
                0 <= p < q < s1.len() implies s1[p].id != s1[q].id by {
                assert(nodes0[p].id != nodes0[q].id);
                assert(s1[p].id == if p == ni as int { uv.id } else { nodes0[p].id });
                assert(s1[q].id == if q == ni as int { uv.id } else { nodes0[q].id });
                assert(uv.id == nodes0[ni as int].id);
            }
            assert forall|id: Seq<char>|
                #[trigger] has_node(self@.offline_nodes, id) implies !has_node(s1, id) by {
                if has_node(s1, id) {
                    let w = choose|w: int| 0 <= w < s1.len() && s1[w].id == id;
                    assert(nodes0[w].id == id);
                    assert(has_node(nodes0, id));
                }
            }
            assert(final(self)@ =~= (CoordinatorView {
                nodes: old(self)@.nodes.update(node_index_of(old(self)@.nodes, node_id@), uv),
                ..old(self)@
            }));
        }
        Ok(result)
    }

    /// Deregisters a node: strikes it from the election queue and the
    /// owner's index entry, and hands back its refundable deposit as a
    /// transfer to the owner. The node's record — its run history — stays
    /// for audit. Only the node's owner or the coordinator itself may do
    /// this.
    pub fn remove_node(
        &mut self,
        node_id: String,
        signer: String,
        coordinator_id: String,
    ) -> (res: Result<Transfer, CoordinatorError>)
        requires
            old(self)@.wf(),
        ensures
            final(self)@.wf(),
            res is Err <==> (!has_node(old(self)@.nodes, node_id@) || (signer@ != node_for(
                old(self)@.nodes,
                node_id@,
            ).owner_id && signer@ != coordinator_id@)),
            match res {
                Ok(refund) => {
                    &&& has_node(old(self)@.nodes, node_id@)
                    &&& refund.recipient@ == node_for(old(self)@.nodes, node_id@).owner_id
                    &&& refund.amount == node_for(old(self)@.nodes, node_id@).deposit
                    &&& final(self)@.nodes == old(self)@.nodes
                    &&& !final(self)@.node_queue.contains(node_id@)
                    &&& forall|x: Seq<char>|
                        x != node_id@ ==> (#[trigger] final(self)@.node_queue.contains(x) <==> old(
                            self,
                        )@.node_queue.contains(x))
                    &&& !ids_for_owner(
                        final(self)@.node_by_owner,
                        node_for(old(self)@.nodes, node_id@).owner_id,
                    ).contains(node_id@)
                    &&& forall|o: Seq<char>|
                        o != node_for(old(self)@.nodes, node_id@).owner_id
                            ==> #[trigger] ids_for_owner(final(self)@.node_by_owner, o)
                            == ids_for_owner(old(self)@.node_by_owner, o)
                    &&& final(self)@.offline_nodes == old(self)@.offline_nodes
                    &&& final(self)@.bounties == old(self)@.bounties
                    &&& final(self)@.active_bounties == old(self)@.active_bounties
                    &&& final(self)@.bounty_by_owner == old(self)@.bounty_by_owner
                    &&& final(self)@.universal_bounty_index == old(self)@.universal_bounty_index
                    &&& final(self)@.total_completed_bounties == old(
                        self,
                    )@.total_completed_bounties
                    &&& final(self)@.total_payouts == old(self)@.total_payouts
                },
                Err(e) => {
                    &&& final(self)@ == old(self)@
                    &&& (e == CoordinatorError::NodeNotFound <==> !has_node(
                        old(self)@.nodes,
                        node_id@,
                    ))
                    &&& (e == CoordinatorError::Unauthorized <==> (has_node(
                        old(self)@.nodes,
                        node_id@,
                    ) && signer@ != node_for(old(self)@.nodes, node_id@).owner_id && signer@
                        != coordinator_id@))
                },
            },
    {
        let ni: usize;
        match find_node_index(&self.nodes, &node_id) {
            None => {
                return Err(CoordinatorError::NodeNotFound);
            },
            Some(i) => {
                ni = i;
            },
        }
        proof {
            lemma_node_at(self@.nodes, node_id@, ni as int);
        }
        if !(signer == self.nodes[ni].owner_id || signer == coordinator_id) {
            return Err(CoordinatorError::Unauthorized);
        }
        let owner = self.nodes[ni].owner_id.clone();
        let deposit = self.nodes[ni].deposit;
        crate::ids::remove_id(&mut self.node_queue, &node_id);
        remove_id_for_owner(&mut self.node_by_owner, &owner, &node_id);
        // The node's record is kept: its answer history is audit data.
        Ok(Transfer { recipient: owner, amount: deposit })
    }

    /// Drops every online node record at once. The election queue and the
    /// owner index are left as they are; a later election that draws one of
    /// the dropped identities fails to find its record and errs.
    pub fn remove_all_nodes(&mut self)
        requires
            old(self)@.wf(),
        ensures
            final(self)@.wf(),
            final(self)@ == (CoordinatorView { nodes: Seq::empty(), ..old(self)@ }),
    {
        self.nodes.clear();
        proof {
            assert(self.nodes.deep_view() =~= Seq::<NodeView>::empty());
            assert(final(self)@ =~= (CoordinatorView { nodes: Seq::empty(), ..old(self)@ }));
        }
    }

    /// Moves a node between the active and offline partitions, returning the
    /// moved record. Going offline also strikes the node from the election
    /// queue, so it cannot be drawn; coming back online re-enqueues it. Only
    /// the node's owner or the coordinator itself may do this.
    pub fn set_node_offline(
        &mut self,
        node_id: String,
        offline: bool,
        signer: String,
        coordinator_id: String,
    ) -> (res: Result<Node, CoordinatorError>)
        requires
            old(self)@.wf(),
        ensures
            final(self)@.wf(),
            res is Err <==> (if offline {
                !has_node(old(self)@.nodes, node_id@) || (signer@ != node_for(
                    old(self)@.nodes,
                    node_id@,
                ).owner_id && signer@ != coordinator_id@)
            } else {
                !has_node(old(self)@.offline_nodes, node_id@) || (signer@ != node_for(
                    old(self)@.offline_nodes,
                    node_id@,
                ).owner_id && signer@ != coordinator_id@)
            }),
            match res {
                Ok(node) => {
                    &&& (offline ==> {
                        &&& has_node(old(self)@.nodes, node_id@)
                        &&& node@ == node_for(old(self)@.nodes, node_id@)
                        &&& final(self)@.nodes == old(self)@.nodes.remove(
                            node_index_of(old(self)@.nodes, node_id@),
                        )
                        &&& final(self)@.offline_nodes == old(self)@.offline_nodes.push(node@)
                        &&& !final(self)@.node_queue.contains(node_id@)
                    })
                    &&& (!offline ==> {
                        &&& has_node(old(self)@.offline_nodes, node_id@)
                        &&& node@ == node_for(old(self)@.offline_nodes, node_id@)
                        &&& final(self)@.offline_nodes == old(self)@.offline_nodes.remove(
                            node_index_of(old(self)@.offline_nodes, node_id@),
                        )
                        &&& final(self)@.nodes == old(self)@.nodes.push(node@)
                        &&& final(self)@.node_queue.contains(node_id@)
                    })
                    &&& forall|x: Seq<char>|
                        x != node_id@ ==> (#[trigger] final(self)@.node_queue.contains(x) <==> old(
                            self,
                        )@.node_queue.contains(x))
                    &&& final(self)@ == (CoordinatorView {
                        nodes: final(self)@.nodes,
                        offline_nodes: final(self)@.offline_nodes,
                        node_queue: final(self)@.node_queue,
                        ..old(self)@
                    })
                },
                Err(e) => {
                    &&& final(self)@ == old(self)@
                    &&& (offline ==> ((e == CoordinatorError::NodeNotFound <==> !has_node(
                        old(self)@.nodes,
                        node_id@,
                    )) && (e == CoordinatorError::Unauthorized <==> (has_node(
                        old(self)@.nodes,
                        node_id@,
                    ) && signer@ != node_for(old(self)@.nodes, node_id@).owner_id && signer@
                        != coordinator_id@))))
                    &&& (!offline ==> ((e == CoordinatorError::NodeNotFound <==> !has_node(
                        old(self)@.offline_nodes,
                        node_id@,
                    )) && (e == CoordinatorError::Unauthorized <==> (has_node(
                        old(self)@.offline_nodes,
                        node_id@,
                    ) && signer@ != node_for(old(self)@.offline_nodes, node_id@).owner_id
                        && signer@ != coordinator_id@))))
                },
            },
    {
        if offline {
            let ni: usize;
            match find_node_index(&self.nodes, &node_id) {
                None => {
                    return Err(CoordinatorError::NodeNotFound);
                },
                Some(i) => {
                    ni = i;
                },
            }
            proof {
                lemma_node_at(self@.nodes, node_id@, ni as int);
            }
            if !(signer == self.nodes[ni].owner_id || signer == coordinator_id) {
                return Err(CoordinatorError::Unauthorized);
            }
            let ghost nodes0 = self.nodes.deep_view();
            let ghost off0 = self.offline_nodes.deep_view();
            let moved = self.nodes.remove(ni);
            let ghost mv = moved@;
            let result = moved.clone();
            self.offline_nodes.push(moved);
            // An offline node is no longer eligible for election.
            crate::ids::remove_id(&mut self.node_queue, &node_id);
            proof {
                let s1 = self.nodes.deep_view();
                let o1 = self.offline_nodes.deep_view();
                assert(s1 =~= nodes0.remove(ni as int));
                assert(o1 =~= off0.push(mv));
                lemma_moved_between(nodes0, off0, s1, o1, ni as int, mv);
                assert(final(self)@ =~= (CoordinatorView {
                    nodes: final(self)@.nodes,
                    offline_nodes: final(self)@.offline_nodes,
                    node_queue: final(self)@.node_queue,
                    ..old(self)@
                }));
            }
            Ok(result)
        } else {
            let ni: usize;
            match find_node_index(&self.offline_nodes, &node_id) {
                None => {
                    return Err(CoordinatorError::NodeNotFound);
                },
                Some(i) => {
                    ni = i;
                },
            }
            proof {
                lemma_node_at(self@.offline_nodes, node_id@, ni as int);
            }
            if !(signer == self.offline_nodes[ni].owner_id || signer == coordinator_id) {
                return Err(CoordinatorError::Unauthorized);
            }
            let ghost nodes0 = self.nodes.deep_view();
            let ghost off0 = self.offline_nodes.deep_view();
            let moved = self.offline_nodes.remove(ni);
            let ghost mv = moved@;
            let result = moved.clone();
            self.nodes.push(moved);
            // Back online, the node is eligible for election again.
            if !contains_id(&self.node_queue, &node_id) {
                let ghost qv = self.node_queue.deep_view();
                proof {
                    crate::ids::lemma_no_dup_push(qv, node_id@);
                }
                crate::ids::push_id(&mut self.node_queue, node_id.clone());
                proof {
                    assert forall|x: Seq<char>| #[trigger] self.node_queue.deep_view().contains(
                        x,
                    ) implies (qv.contains(x) || x == node_id@) by {
                        crate::ids::lemma_contains_push(qv, node_id@, x);
                    }
                    assert(self.node_queue.deep_view().contains(node_id@)) by {
                        crate::ids::lemma_contains_push(qv, node_id@, node_id@);
                    }
                    assert forall|x: Seq<char>| qv.contains(x) implies #[trigger] self
                        .node_queue
                        .deep_view()
                        .contains(x) by {
                        crate::ids::lemma_contains_push(qv, node_id@, x);
                    }
                }
            }
            proof {
                let s1 = self.nodes.deep_view();
                let o1 = self.offline_nodes.deep_view();
                assert(o1 =~= off0.remove(ni as int));
                assert(s1 =~= nodes0.push(mv));
                lemma_moved_between(off0, nodes0, o1, s1, ni as int, mv);
                assert forall|id: Seq<char>| #[trigger] has_node(o1, id) implies !has_node(
                    s1,
                    id,
                ) by {
                    if has_node(s1, id) {
                        let w = choose|w: int| 0 <= w < s1.len() && s1[w].id == id;
                        if w < nodes0.len() {
                            assert(has_node(nodes0, id));
                            let v = choose|v: int| 0 <= v < o1.len() && o1[v].id == id;
                            let v0: int = if v < ni as int { v } else { v + 1 };
                            assert(off0[v0].id == id);
                            assert(has_node(off0, id));
                        } else {
                            assert(id == mv.id);
                            let v = choose|v: int| 0 <= v < o1.len() && o1[v].id == id;
                            let v0: int = if v < ni as int { v } else { v + 1 };
                            assert(off0[v0].id == id);
                            assert(v0 != ni as int);
                            assert(off0[v0].id != off0[ni as int].id);
                        }
                    }
                }
                assert(final(self)@ =~= (CoordinatorView {
                    nodes: final(self)@.nodes,
                    offline_nodes: final(self)@.offline_nodes,
                    node_queue: final(self)@.node_queue,
                    ..old(self)@
                }));
            }
            Ok(result)
        }
    }
}

/// After moving the record at `i` from one partition (`a0` to `a1`) into
/// another (`b0` to `b1`), both partitions keep unique identities and stay
/// disjoint — given they were disjoint in the direction `b` excludes `a`.
proof fn lemma_moved_between(
    a0: Seq<NodeView>,
    b0: Seq<NodeView>,
    a1: Seq<NodeView>,
    b1: Seq<NodeView>,
    i: int,
    mv: NodeView,
)
    requires
        nodes_unique(a0),
        nodes_unique(b0),
        0 <= i < a0.len(),
        mv == a0[i],
        a1 == a0.remove(i),
        b1 == b0.push(mv),
        forall|id: Seq<char>| #[trigger] has_node(b0, id) ==> !has_node(a0, id),
    ensures
        nodes_unique(a1),
        nodes_unique(b1),
        forall|id: Seq<char>| #[trigger] has_node(a1, id) ==> !has_node(b1, id),
        forall|id: Seq<char>| #[trigger] has_node(b1, id) ==> !has_node(a1, id),
{
    assert forall|p: int, q: int|
        #![trigger a1[p], a1[q]]
        0 <= p < q < a1.len() implies a1[p].id != a1[q].id by {
        let p0: int = if p < i { p } else { p + 1 };
        let q0: int = if q < i { q } else { q + 1 };
        assert(a1[p] == a0[p0]);
        assert(a1[q] == a0[q0]);
        assert(a0[p0].id != a0[q0].id);
    }
    assert forall|p: int, q: int|
        #![trigger b1[p], b1[q]]
        0 <= p < q < b1.len() implies b1[p].id != b1[q].id by {
        if q < b0.len() {
            assert(b0[p].id != b0[q].id);
        } else {
            assert(b1[q] == mv);
            assert(b1[p] == b0[p]);
            if b0[p].id == mv.id {
                assert(has_node(b0, mv.id));
                assert(has_node(a0, mv.id));
            }
        }
    }
    assert forall|id: Seq<char>| #[trigger] has_node(a1, id) implies !has_node(b1, id) by {
        let w = choose|w: int| 0 <= w < a1.len() && a1[w].id == id;
        let w0: int = if w < i { w } else { w + 1 };
        assert(a0[w0].id == id);
        assert(has_node(a0, id));
        if has_node(b1, id) {
            let v = choose|v: int| 0 <= v < b1.len() && b1[v].id == id;
            if v < b0.len() {
                assert(has_node(b0, id));
            } else {
                assert(b1[v] == mv);
                assert(id == mv.id);
                assert(w0 != i);
                assert(a0[w0].id != a0[i].id);
            }
        }
    }
    assert forall|id: Seq<char>| #[trigger] has_node(b1, id) implies !has_node(a1, id) by {
        if has_node(a1, id) {
            assert(has_node(a1, id) && !has_node(b1, id));
        }
    }
}

} // verus!
