//! Bounty records: the lifecycle state machine's data, its well-formedness
//! invariant, and the payout rules over a closed bounty.

use vstd::prelude::*;

use crate::coordinator::PayoutStrategy;
use crate::ids::clone_ids;

verus! {

/// How a bounty's work payload is fetched: content-addressed, web,
/// version-control, or not set.
#[derive(Clone, Copy, Debug, PartialEq, Eq, Structural)]
pub enum SupportedDownloadProtocols {
    IPFS,
    HTTPS,
    GIT,
    EMPTY,
}

impl SupportedDownloadProtocols {
    /// The display name of this protocol tag.
    pub open spec fn spec_label(self) -> Seq<char> {
        match self {
            SupportedDownloadProtocols::IPFS => "ipfs"@,
            SupportedDownloadProtocols::HTTPS => "https"@,
            SupportedDownloadProtocols::GIT => "git"@,
            SupportedDownloadProtocols::EMPTY => "EMPTY"@,
        }
    }

    /// Renders the tag the way the notification records spell it.
    pub fn label(&self) -> (res: String)
        ensures
            res@ == self.spec_label(),
    {
        match self {
            SupportedDownloadProtocols::IPFS => "ipfs".to_owned(),
            SupportedDownloadProtocols::HTTPS => "https".to_owned(),
            SupportedDownloadProtocols::GIT => "git".to_owned(),
            SupportedDownloadProtocols::EMPTY => "EMPTY".to_owned(),
        }
    }
}

/// The outcome tag a node reports for a bounty it worked.
#[derive(Clone, Copy, Debug, PartialEq, Eq, Structural)]
pub enum NodeResponseStatus {
    SUCCESS,
    FAILURE,
    REJECT,
    EMPTY,
}

impl NodeResponseStatus {
    /// The display name of this outcome tag.
    pub open spec fn spec_label(self) -> Seq<char> {
        match self {
            NodeResponseStatus::SUCCESS => "SUCCESS"@,
            NodeResponseStatus::FAILURE => "FAILURE"@,
            NodeResponseStatus::REJECT => "REJECT"@,
            NodeResponseStatus::EMPTY => "EMPTY"@,
        }
    }

    /// Renders the tag as text.
    pub fn label(&self) -> (res: String)
        ensures
            res@ == self.spec_label(),
    {
        match self {
            NodeResponseStatus::SUCCESS => "SUCCESS".to_owned(),
            NodeResponseStatus::FAILURE => "FAILURE".to_owned(),
            NodeResponseStatus::REJECT => "REJECT".to_owned(),
            NodeResponseStatus::EMPTY => "EMPTY".to_owned(),
        }
    }
}

/// A bounty's lifecycle state: `Pending` until it closes into one of the
/// three terminal states.
#[derive(Clone, Copy, Debug, PartialEq, Eq, Structural)]
pub enum BountyStatus {
    Pending,
    Failed,
    Success,
    Cancelled,
}

impl BountyStatus {
    /// The display name of this lifecycle state.
    pub open spec fn spec_label(self) -> Seq<char> {
        match self {
            BountyStatus::Pending => "PENDING"@,
            BountyStatus::Failed => "FAILED"@,
            BountyStatus::Success => "SUCCESS"@,
            BountyStatus::Cancelled => "Cancelled"@,
        }
    }

    /// Renders the state as text.
    pub fn label(&self) -> (res: String)
        ensures
            res@ == self.spec_label(),
    {
        match self {
            BountyStatus::Pending => "PENDING".to_owned(),
            BountyStatus::Failed => "FAILED".to_owned(),
            BountyStatus::Success => "SUCCESS".to_owned(),
            BountyStatus::Cancelled => "Cancelled".to_owned(),
        }
    }
}

/// The mathematical value of a [`NodeResponse`].
#[verifier::ext_equal]
pub ghost struct ResponseView {
    pub node_id: Seq<char>,
    pub solution: Seq<char>,
    pub message: Seq<char>,
    pub status: NodeResponseStatus,
    pub payout_claimed: bool,
}

/// One node's answer to one bounty: the submitted solution text, an optional
/// free-form message, the outcome tag, and whether its payout was claimed.
/// Created once per (bounty, node) pair; immutable except for the claim flag.
#[derive(Debug, PartialEq, Eq)]
pub struct NodeResponse {
    pub node_id: String,
    pub solution: String,
    pub message: String,
    pub status: NodeResponseStatus,
    pub payout_claimed: bool,
}

impl View for NodeResponse {
    type V = ResponseView;

    open spec fn view(&self) -> ResponseView {
        ResponseView {
            node_id: self.node_id@,
            solution: self.solution@,
            message: self.message@,
            status: self.status,
            payout_claimed: self.payout_claimed,
        }
    }
}

impl DeepView for NodeResponse {
    type V = ResponseView;

    open spec fn deep_view(&self) -> ResponseView {
        self.view()
    }
}

impl Clone for NodeResponse {
    /// A clone carries the same mathematical value.
    fn clone(&self) -> (res: Self)
        ensures
            res@ == self@,
    {
        NodeResponse {
            node_id: self.node_id.clone(),
            solution: self.solution.clone(),
            message: self.message.clone(),
            status: self.status,
            payout_claimed: self.payout_claimed,
        }
    }
}

impl NodeResponse {
    /// Builds a fresh, unclaimed response record.
    pub fn new_node_response(
        node_id: String,
        solution: String,
        message: String,
        status: NodeResponseStatus,
    ) -> (res: Self)
        ensures
            res@ == (ResponseView {
                node_id: node_id@,
                solution: solution@,
                message: message@,
                status: status,
                payout_claimed: false,
            }),
    {
        NodeResponse { node_id, solution, message, status, payout_claimed: false }
    }
}

/// Whether every response in `s` answers for a different node.
pub open spec fn answers_unique(s: Seq<ResponseView>) -> bool {
    forall|i: int, j: int| 0 <= i < j < s.len() ==> s[i].node_id != s[j].node_id
}

/// Whether some response in `s` answers for the node `id`.
pub open spec fn has_answer(s: Seq<ResponseView>, id: Seq<char>) -> bool {
    exists|i: int| #![trigger s[i]] 0 <= i < s.len() && s[i].node_id == id
}

/// The response in `s` for the node `id` (meaningful when [`has_answer`]).
pub open spec fn answer_for(s: Seq<ResponseView>, id: Seq<char>) -> ResponseView {
    s[choose|i: int| 0 <= i < s.len() && s[i].node_id == id]
}

/// The node identities of the responses in `s`, in submission order.
pub open spec fn answer_ids(s: Seq<ResponseView>) -> Seq<Seq<char>> {
    s.map_values(|r: ResponseView| r.node_id)
}

/// The index of the response for node `id` (meaningful when
/// [`has_answer`]).
pub open spec fn answer_index_of(s: Seq<ResponseView>, id: Seq<char>) -> int {
    choose|i: int| 0 <= i < s.len() && s[i].node_id == id
}

/// The answer table after writing `r`: replaces the node's previous
/// response, or appends a first one.
pub open spec fn answers_upsert(s: Seq<ResponseView>, r: ResponseView) -> Seq<ResponseView> {
    if has_answer(s, r.node_id) {
        s.update(answer_index_of(s, r.node_id), r)
    } else {
        s.push(r)
    }
}

/// After an upsert, the written response is found under its node, other
/// responses keep their places, and the table grew only if the node was new.
pub proof fn lemma_answers_upsert_props(s: Seq<ResponseView>, r: ResponseView)
    requires
        answers_unique(s),
    ensures
        answers_unique(answers_upsert(s, r)),
        has_answer(answers_upsert(s, r), r.node_id),
        answer_for(answers_upsert(s, r), r.node_id) == r,
        forall|id: Seq<char>|
            id != r.node_id ==> (#[trigger] has_answer(answers_upsert(s, r), id) <==> has_answer(
                s,
                id,
            )),
{
    if has_answer(s, r.node_id) {
        let i = answer_index_of(s, r.node_id);
        let s1 = s.update(i, r);
        assert(s1[i] == r);
        assert forall|p: int, q: int|
            0 <= p < q < s1.len() implies s1[p].node_id != s1[q].node_id by {
            assert(s[p].node_id != s[q].node_id);
            assert(s1[p].node_id == if p == i { r.node_id } else { s[p].node_id });
            assert(s1[q].node_id == if q == i { r.node_id } else { s[q].node_id });
            assert(s[i].node_id == r.node_id);
        }
        lemma_answer_at(s1, r.node_id, i);
        assert forall|id: Seq<char>|
            id != r.node_id implies (#[trigger] has_answer(s1, id) <==> has_answer(s, id)) by {
            if has_answer(s1, id) {
                let w = choose|w: int| 0 <= w < s1.len() && s1[w].node_id == id;
                assert(w != i);
                assert(s[w].node_id == id);
            }
            if has_answer(s, id) {
                let w = choose|w: int| 0 <= w < s.len() && s[w].node_id == id;
                assert(w != i);
                assert(s1[w].node_id == id);
            }
        }
    } else {
        let s1 = s.push(r);
        lemma_answers_unique_push(s, r);
        assert(s1[s.len() as int] == r);
        lemma_answer_at(s1, r.node_id, s.len() as int);
        assert forall|id: Seq<char>|
            id != r.node_id implies (#[trigger] has_answer(s1, id) <==> has_answer(s, id)) by {
            lemma_has_answer_push(s, r, id);
        }
    }
}

/// Writes a response into a table of pairwise-distinct answers, replacing
/// the node's previous response or appending a first one.
pub fn upsert_answer(answers: &mut Vec<NodeResponse>, r: NodeResponse)
    requires
        answers_unique(old(answers).deep_view()),
    ensures
        final(answers).deep_view() == answers_upsert(old(answers).deep_view(), r@),
{
    let ghost s0 = answers.deep_view();
    let ghost rv = r@;
    let found = find_answer_index(answers, &r.node_id);
    match found {
        Some(i) => {
            proof {
                lemma_answer_at(s0, rv.node_id, i as int);
            }
            vstd::pervasive::VecAdditionalExecFns::set(answers, i, r);
            proof {
                assert(answers.deep_view() =~= s0.update(i as int, rv));
            }
        },
        None => {
            answers.push(r);
            proof {
                assert(answers.deep_view() =~= s0.push(rv));
            }
        },
    }
}

/// How many responses in `s` submitted the solution text `sol`.
pub open spec fn count_solution(s: Seq<ResponseView>, sol: Seq<char>) -> int
    decreases s.len(),
{
    if s.len() == 0 {
        0
    } else {
        count_solution(s.drop_last(), sol) + if s.last().solution == sol {
            1int
        } else {
            0int
        }
    }
}

/// A solution's tally lies between zero and the number of responses, and is
/// positive exactly when some response submitted it.
pub proof fn lemma_count_solution_bounds(s: Seq<ResponseView>, sol: Seq<char>)
    ensures
        0 <= count_solution(s, sol) <= s.len(),
        count_solution(s, sol) > 0 <==> (exists|i: int|
            #![trigger s[i]]
            0 <= i < s.len() && s[i].solution == sol),
    decreases s.len(),
{
    if s.len() > 0 {
        lemma_count_solution_bounds(s.drop_last(), sol);
        if count_solution(s.drop_last(), sol) > 0 {
            let w = choose|i: int|
                0 <= i < s.drop_last().len() && s.drop_last()[i].solution == sol;
            assert(s[w].solution == sol);
        }
        if s.last().solution == sol {
            assert(s[s.len() - 1].solution == sol);
        }
        if exists|i: int| #![trigger s[i]] 0 <= i < s.len() && s[i].solution == sol {
            let w = choose|i: int| 0 <= i < s.len() && s[i].solution == sol;
            if w < s.len() - 1 && s.last().solution != sol {
                assert(s.drop_last()[w].solution == sol);
            }
        }
    }
}

/// What a correct tally of answers by solution looks like: each distinct
/// submitted solution appears exactly once, with its exact count.
pub open spec fn spec_result_tally_ok(tally: Seq<(String, u8)>, answers: Seq<ResponseView>) -> bool {
    &&& forall|p: int, q: int|
        #![trigger tally[p], tally[q]]
        0 <= p < q < tally.len() ==> tally[p].0@ != tally[q].0@
    &&& forall|p: int|
        #![trigger tally[p]]
        0 <= p < tally.len() ==> tally[p].1 as int == count_solution(answers, tally[p].0@)
            && tally[p].1 > 0
    &&& forall|k: int|
        #![trigger answers[k]]
        0 <= k < answers.len() ==> exists|p: int|
            #![trigger tally[p]]
            0 <= p < tally.len() && tally[p].0@ == answers[k].solution
}

/// What a correct wide tally of answers by solution looks like: each
/// distinct submitted solution appears exactly once, with its exact count.
pub open spec fn spec_tally64_ok(tally: Seq<(String, u64)>, answers: Seq<ResponseView>) -> bool {
    &&& forall|p: int, q: int|
        #![trigger tally[p], tally[q]]
        0 <= p < q < tally.len() ==> tally[p].0@ != tally[q].0@
    &&& forall|p: int|
        #![trigger tally[p]]
        0 <= p < tally.len() ==> tally[p].1 as int == count_solution(answers, tally[p].0@)
            && tally[p].1 > 0
    &&& forall|k: int|
        #![trigger answers[k]]
        0 <= k < answers.len() ==> exists|p: int|
            #![trigger tally[p]]
            0 <= p < tally.len() && tally[p].0@ == answers[k].solution
}

/// Finds the position of a narrow tally entry for the given solution text.
fn find_narrow_index(res: &Vec<(String, u8)>, sol: &String) -> (r: Option<usize>)
    ensures
        match r {
            Some(p) => p < res@.len() && res@[p as int].0@ == sol@,
            None => forall|q: int| #![trigger res@[q]] 0 <= q < res@.len() ==> res@[q].0@ != sol@,
        },
{
    let mut p: usize = 0;
    while p < res.len()
        invariant
            p <= res.len(),
            forall|q: int| #![trigger res@[q]] 0 <= q < p ==> res@[q].0@ != sol@,
        decreases res.len() - p,
    {
        if res[p].0 == *sol {
            return Some(p);
        }
        p = p + 1;
    }
    None
}

/// Finds the position of a tally entry for the given solution text.
fn find_solution_index(res: &Vec<(String, u64)>, sol: &String) -> (r: Option<usize>)
    ensures
        match r {
            Some(p) => p < res@.len() && res@[p as int].0@ == sol@,
            None => forall|q: int| #![trigger res@[q]] 0 <= q < res@.len() ==> res@[q].0@ != sol@,
        },
{
    let mut p: usize = 0;
    while p < res.len()
        invariant
            p <= res.len(),
            forall|q: int| #![trigger res@[q]] 0 <= q < p ==> res@[q].0@ != sol@,
        decreases res.len() - p,
    {
        if res[p].0 == *sol {
            return Some(p);
        }
        p = p + 1;
    }
    None
}

/// Tallies the responses by solution text, with a counter wide enough for
/// any table.
pub fn tally_solutions(answers: &Vec<NodeResponse>) -> (res: Vec<(String, u64)>)
    ensures
        spec_tally64_ok(res@, answers.deep_view()),
{
    let ghost all = answers.deep_view();
    let mut res: Vec<(String, u64)> = Vec::new();
    let mut i: usize = 0;
    while i < answers.len()
        invariant
            i <= answers.len(),
            all == answers.deep_view(),
            forall|p: int, q: int|
                #![trigger res@[p], res@[q]]
                0 <= p < q < res@.len() ==> res@[p].0@ != res@[q].0@,
            forall|p: int|
                #![trigger res@[p]]
                0 <= p < res@.len() ==> res@[p].1 as int == count_solution(
                    all.take(i as int),
                    res@[p].0@,
                ) && res@[p].1 > 0,
            forall|k: int|
                #![trigger all[k]]
                0 <= k < i ==> exists|p: int|
                    #![trigger res@[p]]
                    0 <= p < res@.len() && res@[p].0@ == all[k].solution,
        decreases answers.len() - i,
    {
        let ghost gi = i as int;
        proof {
            assert(all.take(gi + 1).drop_last() =~= all.take(gi));
            assert(all.take(gi + 1).last() == all[gi]);
        }
        let sol = answers[i].solution.clone();
        match find_solution_index(&res, &sol) {
            Some(p) => {
                proof {
                    lemma_count_solution_bounds(all.take(gi), sol@);
                    assert(all.take(gi).len() == gi);
                }
                let key = res[p].0.clone();
                let count = res[p].1;
                assert(count < u64::MAX);
                let ghost before = res@;
                vstd::pervasive::VecAdditionalExecFns::set(&mut res, p, (key, count + 1));
                proof {
                    assert(res@[p as int].0@ == sol@);
                    assert(res@[p as int].1 == count + 1);
                    assert forall|q: int|
                        #![trigger res@[q]]
                        0 <= q < res@.len() && q != p implies res@[q] == before[q] by {}
                    assert forall|q: int|
                        #![trigger res@[q]]
                        0 <= q < res@.len() implies res@[q].1 as int == count_solution(
                        all.take(gi + 1),
                        res@[q].0@,
                    ) && res@[q].1 > 0 by {
                        if q == p {
                            assert(count_solution(all.take(gi + 1), sol@) == count_solution(
                                all.take(gi),
                                sol@,
                            ) + 1);
                        } else {
                            assert(before[q].0@ != before[p as int].0@);
                            assert(count_solution(all.take(gi + 1), res@[q].0@)
                                == count_solution(all.take(gi), res@[q].0@));
                        }
                    }
                    assert forall|k: int|
                        #![trigger all[k]]
                        0 <= k < i + 1 implies exists|q: int|
                        #![trigger res@[q]]
                        0 <= q < res@.len() && res@[q].0@ == all[k].solution by {
                        if k == gi {
                            assert(res@[p as int].0@ == all[gi].solution);
                        } else {
                            let w = choose|w: int|
                                0 <= w < before.len() && before[w].0@ == all[k].solution;
                            assert(res@[w].0@ == all[k].solution);
                        }
                    }
                }
            },
            None => {
                proof {
                    lemma_count_solution_bounds(all.take(gi), sol@);
                    assert(count_solution(all.take(gi), sol@) == 0) by {
                        if count_solution(all.take(gi), sol@) > 0 {
                            let w = choose|w: int|
                                0 <= w < all.take(gi).len() && all.take(gi)[w].solution == sol@;
                            assert(all[w].solution == sol@);
                            let q = choose|q: int|
                                0 <= q < res@.len() && res@[q].0@ == all[w].solution;
                            assert(res@[q].0@ == sol@);
                        }
                    }
                }
                let ghost before = res@;
                res.push((sol, 1));
                proof {
                    assert(res@ =~= before.push((res@[before.len() as int].0, 1u64)));
                    assert(res@[before.len() as int].0@ == all[gi].solution);
                    assert forall|q: int|
                        #![trigger res@[q]]
                        0 <= q < res@.len() implies res@[q].1 as int == count_solution(
                        all.take(gi + 1),
                        res@[q].0@,
                    ) && res@[q].1 > 0 by {
                        if q < before.len() {
                            assert(res@[q] == before[q]);
                            assert(before[q].0@ != sol@);
                            assert(count_solution(all.take(gi + 1), res@[q].0@)
                                == count_solution(all.take(gi), res@[q].0@));
                        } else {
                            assert(count_solution(all.take(gi + 1), sol@) == 1);
                        }
                    }
                    assert forall|k: int|
                        #![trigger all[k]]
                        0 <= k < i + 1 implies exists|q: int|
                        #![trigger res@[q]]
                        0 <= q < res@.len() && res@[q].0@ == all[k].solution by {
                        if k == gi {
                            assert(res@[before.len() as int].0@ == all[gi].solution);
                        } else {
                            let w = choose|w: int|
                                0 <= w < before.len() && before[w].0@ == all[k].solution;
                            assert(res@[w].0@ == all[k].solution);
                        }
                    }
                }
            },
        }
        i = i + 1;
    }
    proof {
        assert(all.take(answers@.len() as int) =~= all);
    }
    res
}

/// A solution's tally over a prefix of the answers never exceeds its tally
/// over all of them.
pub proof fn lemma_count_solution_prefix(s: Seq<ResponseView>, sol: Seq<char>, k: int)
    requires
        0 <= k <= s.len(),
    ensures
        count_solution(s.take(k), sol) <= count_solution(s, sol),
    decreases s.len(),
{
    if s.len() == 0 {
        assert(s.take(k) =~= s);
    } else if k == s.len() {
        assert(s.take(k) =~= s);
    } else {
        assert(s.take(k) =~= s.drop_last().take(k));
        lemma_count_solution_prefix(s.drop_last(), sol, k);
    }
}

/// The recipients whose payout-claimed flag matches `claimed`, in recipient
/// order.
pub open spec fn claim_filtered(
    ids: Seq<Seq<char>>,
    answers: Seq<ResponseView>,
    claimed: bool,
) -> Seq<Seq<char>>
    decreases ids.len(),
{
    if ids.len() == 0 {
        Seq::empty()
    } else if answer_for(answers, ids.last()).payout_claimed == claimed {
        claim_filtered(ids.drop_last(), answers, claimed).push(ids.last())
    } else {
        claim_filtered(ids.drop_last(), answers, claimed)
    }
}

/// The mathematical value of a [`Bounty`]: identities as character
/// sequences, node lists as sequences of identities.
#[verifier::ext_equal]
pub ghost struct BountyView {
    pub id: Seq<char>,
    pub owner_id: Seq<char>,
    pub coordinator_id: Seq<char>,
    pub file_location: Seq<char>,
    pub file_download_protocol: SupportedDownloadProtocols,
    pub status: BountyStatus,
    pub min_nodes: u64,
    pub bounty_created: u64,
    pub network_required: bool,
    pub gpu_required: bool,
    pub amt_storage: u128,
    pub storage_used: u128,
    pub amt_node_reward: u128,
    pub timeout_seconds: u64,
    pub elected_nodes: Seq<Seq<char>>,
    pub answers: Seq<ResponseView>,
    pub successful_nodes: Seq<Seq<char>>,
    pub failed_nodes: Seq<Seq<char>>,
    pub unanswered_nodes: Seq<Seq<char>>,
    pub rejected_nodes: Seq<Seq<char>>,
}

/// A unit of work: its identity, owner and coordinator, the work payload's
/// location, the quorum size `min_nodes`, capability requirements, prepaid
/// storage budget and reward pool, the ordered list of elected nodes, the
/// responses received so far, and the four outcome partitions of the elected
/// set.
#[derive(Debug)]
pub struct Bounty {
    pub id: String,
    /// The account that created the bounty; used for authorization.
    pub owner_id: String,
    /// The coordinator under which the bounty was created.
    pub coordinator_id: String,
    /// URL or content identifier of the work payload.
    pub file_location: String,
    pub file_download_protocol: SupportedDownloadProtocols,
    pub status: BountyStatus,
    /// How many like-outcome responses close the bounty.
    pub min_nodes: u64,
    /// When the bounty was created, in milliseconds.
    pub bounty_created: u64,
    pub network_required: bool,
    pub gpu_required: bool,
    /// Prepaid storage budget; the unused part is refunded at close.
    pub amt_storage: u128,
    /// How much of the storage budget admitted answers have consumed.
    pub storage_used: u128,
    /// The reward pool paid out to the recipient set once closed.
    pub amt_node_reward: u128,
    /// Per-job timeout requested by the creator, in seconds.
    pub timeout_seconds: u64,
    pub elected_nodes: Vec<String>,
    pub answers: Vec<NodeResponse>,
    pub successful_nodes: Vec<String>,
    pub failed_nodes: Vec<String>,
    pub unanswered_nodes: Vec<String>,
    pub rejected_nodes: Vec<String>,
}

impl View for Bounty {
    type V = BountyView;

    open spec fn view(&self) -> BountyView {
        BountyView {
            id: self.id@,
            owner_id: self.owner_id@,
            coordinator_id: self.coordinator_id@,
            file_location: self.file_location@,
            file_download_protocol: self.file_download_protocol,
            status: self.status,
            min_nodes: self.min_nodes,
            bounty_created: self.bounty_created,
            network_required: self.network_required,
            gpu_required: self.gpu_required,
            amt_storage: self.amt_storage,
            storage_used: self.storage_used,
            amt_node_reward: self.amt_node_reward,
            timeout_seconds: self.timeout_seconds,
            elected_nodes: self.elected_nodes.deep_view(),
            answers: self.answers.deep_view(),
            successful_nodes: self.successful_nodes.deep_view(),
            failed_nodes: self.failed_nodes.deep_view(),
            unanswered_nodes: self.unanswered_nodes.deep_view(),
            rejected_nodes: self.rejected_nodes.deep_view(),
        }
    }
}

impl DeepView for Bounty {
    type V = BountyView;

    open spec fn deep_view(&self) -> BountyView {
        self.view()
    }
}

impl BountyView {
    /// Structural well-formedness: no list repeats a node; every outcome set
    /// is backed by an answer where one is owed; the outcome sets stay inside
    /// the elected list; and admitted storage never exceeds the budget.
    /// Established at creation and preserved by every operation.
    pub open spec fn wf(self) -> bool {
        &&& self.elected_nodes.no_duplicates()
        &&& self.successful_nodes.no_duplicates()
        &&& self.failed_nodes.no_duplicates()
        &&& self.rejected_nodes.no_duplicates()
        &&& self.unanswered_nodes.no_duplicates()
        &&& answers_unique(self.answers)
        &&& forall|id: Seq<char>|
            #[trigger] self.successful_nodes.contains(id) ==> self.elected_nodes.contains(id)
        &&& forall|id: Seq<char>|
            #[trigger] self.failed_nodes.contains(id) ==> self.elected_nodes.contains(id)
        &&& forall|id: Seq<char>|
            #[trigger] self.unanswered_nodes.contains(id) ==> self.elected_nodes.contains(id)
        &&& forall|id: Seq<char>|
            #[trigger] self.successful_nodes.contains(id) ==> has_answer(self.answers, id)
        &&& forall|id: Seq<char>|
            #[trigger] self.failed_nodes.contains(id) ==> has_answer(self.answers, id)
        &&& forall|id: Seq<char>|
            #[trigger] self.rejected_nodes.contains(id) ==> has_answer(self.answers, id)
        &&& forall|i: int|
            #![trigger self.answers[i]]
            0 <= i < self.answers.len() && self.answers[i].status == NodeResponseStatus::SUCCESS
                ==> self.successful_nodes.contains(self.answers[i].node_id)
        &&& forall|i: int|
            #![trigger self.answers[i]]
            0 <= i < self.answers.len() && self.answers[i].status == NodeResponseStatus::FAILURE
                ==> self.failed_nodes.contains(self.answers[i].node_id)
        &&& self.storage_used <= self.amt_storage
    }

    /// The partition invariant: the four outcome sets are pairwise disjoint,
    /// cover exactly the elected list, answers come only from elected nodes,
    /// and an elected node has an answer exactly when it is no longer
    /// unanswered. Creation establishes it; answer submission, closing,
    /// cancelling, re-election, and a bare rejection of an elected node that
    /// had not answered preserve it. Only a rejection from outside the
    /// elected set, or one overwriting an earlier answer, does not respect
    /// it.
    pub open spec fn partitioned(self) -> bool {
        &&& forall|id: Seq<char>|
            #[trigger] self.successful_nodes.contains(id) ==> !self.failed_nodes.contains(id)
                && !self.rejected_nodes.contains(id) && !self.unanswered_nodes.contains(id)
        &&& forall|id: Seq<char>|
            #[trigger] self.failed_nodes.contains(id) ==> !self.rejected_nodes.contains(id)
                && !self.unanswered_nodes.contains(id)
        &&& forall|id: Seq<char>|
            #[trigger] self.rejected_nodes.contains(id) ==> !self.unanswered_nodes.contains(id)
        &&& forall|id: Seq<char>|
            #[trigger] self.rejected_nodes.contains(id) ==> self.elected_nodes.contains(id)
        &&& forall|id: Seq<char>|
            #[trigger] self.elected_nodes.contains(id) ==> self.successful_nodes.contains(id)
                || self.failed_nodes.contains(id) || self.rejected_nodes.contains(id)
                || self.unanswered_nodes.contains(id)
        &&& forall|i: int|
            #![trigger self.answers[i]]
            0 <= i < self.answers.len() ==> self.elected_nodes.contains(self.answers[i].node_id)
        &&& forall|id: Seq<char>|
            #[trigger] self.elected_nodes.contains(id) ==> (has_answer(self.answers, id)
                <==> !self.unanswered_nodes.contains(id))
    }

    /// Whether a payout strategy is determined: a success or failure quorum
    /// was reached, or the bounty was cancelled.
    pub open spec fn payout_ready(self) -> bool {
        ||| self.successful_nodes.len() >= self.min_nodes
        ||| self.failed_nodes.len() >= self.min_nodes
        ||| self.status == BountyStatus::Cancelled
    }

    /// Which nodes are owed a share: the successful set if success reached
    /// quorum, else the failed set if failure did, else — after a
    /// cancellation — every node that answered.
    pub open spec fn spec_payout_strategy(self) -> PayoutStrategy {
        if self.successful_nodes.len() >= self.min_nodes {
            PayoutStrategy::SuccessfulNodes
        } else if self.failed_nodes.len() >= self.min_nodes {
            PayoutStrategy::FailedNodes
        } else {
            PayoutStrategy::AllAnsweredNodes
        }
    }

    /// The recipient set the payout strategy selects.
    pub open spec fn spec_recipients(self) -> Seq<Seq<char>> {
        match self.spec_payout_strategy() {
            PayoutStrategy::SuccessfulNodes => self.successful_nodes,
            PayoutStrategy::FailedNodes => self.failed_nodes,
            PayoutStrategy::AllAnsweredNodes => answer_ids(self.answers),
        }
    }

    /// Each recipient's share: the reward pool split evenly, rounding down.
    pub open spec fn spec_reward_per_node(self) -> int {
        self.amt_node_reward as int / self.spec_recipients().len() as int
    }
}

/// In a list of responses with pairwise different node identities, any index
/// answering for `id` is the index [`answer_for`] picks.
pub proof fn lemma_answer_at(s: Seq<ResponseView>, id: Seq<char>, i: int)
    requires
        answers_unique(s),
        0 <= i < s.len(),
        s[i].node_id == id,
    ensures
        has_answer(s, id),
        answer_for(s, id) == s[i],
{
    assert(has_answer(s, id));
    let w = choose|w: int| 0 <= w < s.len() && s[w].node_id == id;
    if w != i {
        assert(s[w].node_id != s[i].node_id);
    }
}

/// Membership after appending a response: the old answers plus the new
/// node's.
pub proof fn lemma_has_answer_push(s: Seq<ResponseView>, r: ResponseView, id: Seq<char>)
    ensures
        has_answer(s.push(r), id) <==> (has_answer(s, id) || r.node_id == id),
{
    if has_answer(s.push(r), id) {
        let w = choose|w: int| 0 <= w < s.push(r).len() && s.push(r)[w].node_id == id;
        if w < s.len() {
            assert(s[w].node_id == id);
        }
    }
    if has_answer(s, id) {
        let w = choose|w: int| 0 <= w < s.len() && s[w].node_id == id;
        assert(s.push(r)[w].node_id == id);
    }
    if r.node_id == id {
        assert(s.push(r)[s.len() as int].node_id == id);
    }
}

/// Appending an answer for a fresh node keeps the answers unique, and keeps
/// every earlier answer where [`answer_for`] finds it.
pub proof fn lemma_answers_unique_push(s: Seq<ResponseView>, r: ResponseView)
    requires
        answers_unique(s),
        !has_answer(s, r.node_id),
    ensures
        answers_unique(s.push(r)),
{
    assert forall|i: int, j: int|
        0 <= i < j < s.push(r).len() implies s.push(r)[i].node_id != s.push(r)[j].node_id by {
        if j < s.len() {
            assert(s[i].node_id != s[j].node_id);
        } else {
            assert(s.push(r)[j] == r);
            assert(s.push(r)[i] == s[i]);
            if s[i].node_id == r.node_id {
                assert(has_answer(s, r.node_id));
            }
        }
    }
}

/// Copies a list of responses; the copy has the same mathematical value.
pub fn clone_answers(v: &Vec<NodeResponse>) -> (res: Vec<NodeResponse>)
    ensures
        res.deep_view() == v.deep_view(),
        res@.len() == v@.len(),
{
    let mut res: Vec<NodeResponse> = Vec::new();
    let mut i: usize = 0;
    while i < v.len()
        invariant
            i <= v.len(),
            res@.len() == i,
            forall|j: int|
                #![trigger res.deep_view()[j]]
                0 <= j < i ==> res.deep_view()[j] == v.deep_view()[j],
        decreases v.len() - i,
    {
        let ghost before = res.deep_view();
        res.push(v[i].clone());
        proof {
            assert(res.deep_view() =~= before.push(v.deep_view()[i as int]));
        }
        i = i + 1;
    }
    assert(res.deep_view() =~= v.deep_view());
    res
}

/// Finds the position of the response submitted by `node_id`.
pub fn find_answer_index(answers: &Vec<NodeResponse>, node_id: &String) -> (res: Option<usize>)
    ensures
        match res {
            Some(i) => i < answers@.len() && answers.deep_view()[i as int].node_id == node_id@,
            None => !has_answer(answers.deep_view(), node_id@),
        },
{
    let mut i: usize = 0;
    while i < answers.len()
        invariant
            i <= answers.len(),
            forall|j: int|
                #![trigger answers.deep_view()[j]]
                0 <= j < i ==> answers.deep_view()[j].node_id != node_id@,
        decreases answers.len() - i,
    {
        if answers[i].node_id == *node_id {
            assert(answers.deep_view()[i as int].node_id == node_id@);
            return Some(i);
        }
        i = i + 1;
    }
    None
}

impl Clone for Bounty {
    /// A clone carries the same mathematical value.
    fn clone(&self) -> (res: Self)
        ensures
            res@ == self@,
    {
        let res = Bounty {
            id: self.id.clone(),
            owner_id: self.owner_id.clone(),
            coordinator_id: self.coordinator_id.clone(),
            file_location: self.file_location.clone(),
            file_download_protocol: self.file_download_protocol,
            status: self.status,
            min_nodes: self.min_nodes,
            bounty_created: self.bounty_created,
            network_required: self.network_required,
            gpu_required: self.gpu_required,
            amt_storage: self.amt_storage,
            storage_used: self.storage_used,
            amt_node_reward: self.amt_node_reward,
            timeout_seconds: self.timeout_seconds,
            elected_nodes: clone_ids(&self.elected_nodes),
            answers: clone_answers(&self.answers),
            successful_nodes: clone_ids(&self.successful_nodes),
            failed_nodes: clone_ids(&self.failed_nodes),
            unanswered_nodes: clone_ids(&self.unanswered_nodes),
            rejected_nodes: clone_ids(&self.rejected_nodes),
        };
        proof {
            assert(res@ =~= self@);
        }
        res
    }
}

impl Bounty {
    /// The view a bounty has right after creation: pending, with no elected
    /// nodes, no answers, and an untouched storage budget.
    pub open spec fn spec_new(
        id: Seq<char>,
        owner_id: Seq<char>,
        coordinator_id: Seq<char>,
        file_location: Seq<char>,
        file_download_protocol: SupportedDownloadProtocols,
        min_nodes: u64,
        timeout_seconds: u64,
        network_required: bool,
        gpu_required: bool,
        amt_storage: u128,
        amt_node_reward: u128,
        bounty_created: u64,
    ) -> BountyView {
        BountyView {
            id: id,
            owner_id: owner_id,
            coordinator_id: coordinator_id,
            file_location: file_location,
            file_download_protocol: file_download_protocol,
            status: BountyStatus::Pending,
            min_nodes: min_nodes,
            bounty_created: bounty_created,
            network_required: network_required,
            gpu_required: gpu_required,
            amt_storage: amt_storage,
            storage_used: 0,
            amt_node_reward: amt_node_reward,
            timeout_seconds: timeout_seconds,
            elected_nodes: Seq::empty(),
            answers: Seq::empty(),
            successful_nodes: Seq::empty(),
            failed_nodes: Seq::empty(),
            unanswered_nodes: Seq::empty(),
            rejected_nodes: Seq::empty(),
        }
    }

    /// Builds a fresh pending bounty. The creator's identity, the
    /// coordinator's identity, and the creation time are facts of the
    /// creating call, so they come in as arguments. Election fills
    /// `elected_nodes` afterwards.
    pub fn new_bounty(
        id: String,
        file_location: String,
        file_download_protocol: SupportedDownloadProtocols,
        min_nodes: u64,
        timeout_seconds: u64,
        network_required: bool,
        gpu_required: bool,
        amt_storage: u128,
        amt_node_reward: u128,
        owner_id: String,
        coordinator_id: String,
        bounty_created: u64,
    ) -> (res: Self)
        ensures
            res@ == Bounty::spec_new(
                id@,
                owner_id@,
                coordinator_id@,
                file_location@,
                file_download_protocol,
                min_nodes,
                timeout_seconds,
                network_required,
                gpu_required,
                amt_storage,
                amt_node_reward,
                bounty_created,
            ),
            res@.wf(),
            res@.partitioned(),
    {
        let res = Bounty {
            id,
            owner_id,
            coordinator_id,
            file_location,
            file_download_protocol,
            status: BountyStatus::Pending,
            min_nodes,
            bounty_created,
            network_required,
            gpu_required,
            amt_storage,
            storage_used: 0,
            amt_node_reward,
            timeout_seconds,
            elected_nodes: Vec::new(),
            answers: Vec::new(),
            successful_nodes: Vec::new(),
            failed_nodes: Vec::new(),
            unanswered_nodes: Vec::new(),
            rejected_nodes: Vec::new(),
        };
        proof {
            assert(res@.elected_nodes =~= Seq::<Seq<char>>::empty());
            assert(res@.answers =~= Seq::<ResponseView>::empty());
            assert(res@.successful_nodes =~= Seq::<Seq<char>>::empty());
            assert(res@.failed_nodes =~= Seq::<Seq<char>>::empty());
            assert(res@.unanswered_nodes =~= Seq::<Seq<char>>::empty());
            assert(res@.rejected_nodes =~= Seq::<Seq<char>>::empty());
        }
        res
    }

    /// The payout strategy of a decided bounty: successful nodes if success
    /// reached quorum, else failed nodes if failure did, else — only after a
    /// cancellation — every answering node.
    pub fn get_payout_strategy(&self) -> (res: PayoutStrategy)
        requires
            self@.payout_ready(),
        ensures
            res == self@.spec_payout_strategy(),
    {
        if (self.successful_nodes.len() as u64) >= self.min_nodes {
            PayoutStrategy::SuccessfulNodes
        } else if (self.failed_nodes.len() as u64) >= self.min_nodes {
            PayoutStrategy::FailedNodes
        } else {
            PayoutStrategy::AllAnsweredNodes
        }
    }

    /// Each recipient's share of the reward pool: the pool divided evenly
    /// among the recipient set, rounding down.
    pub fn get_amt_reward_per_node(&self) -> (res: u128)
        requires
            self@.payout_ready(),
            self@.spec_recipients().len() > 0,
        ensures
            res as int == self@.spec_reward_per_node(),
    {
        match self.get_payout_strategy() {
            PayoutStrategy::AllAnsweredNodes => {
                assert(self@.spec_recipients().len() == self@.answers.len());
                self.amt_node_reward / (self.answers.len() as u128)
            },
            PayoutStrategy::FailedNodes => self.amt_node_reward / (self.failed_nodes.len()
                as u128),
            PayoutStrategy::SuccessfulNodes => self.amt_node_reward / (self.successful_nodes.len()
                as u128),
        }
    }

    /// The identities owed a share, per the payout strategy.
    pub fn get_payout_recipient_ids(&self) -> (res: Vec<String>)
        requires
            self@.payout_ready(),
        ensures
            res.deep_view() == self@.spec_recipients(),
    {
        match self.get_payout_strategy() {
            PayoutStrategy::AllAnsweredNodes => {
                let mut ids: Vec<String> = Vec::new();
                let mut i: usize = 0;
                while i < self.answers.len()
                    invariant
                        i <= self.answers.len(),
                        ids.deep_view().len() == i,
                        forall|j: int|
                            #![trigger ids.deep_view()[j]]
                            0 <= j < i ==> ids.deep_view()[j] == answer_ids(self@.answers)[j],
                    decreases self.answers.len() - i,
                {
                    let ghost before = ids.deep_view();
                    ids.push(self.answers[i].node_id.clone());
                    proof {
                        assert(ids.deep_view() =~= before.push(
                            self@.answers[i as int].node_id,
                        ));
                    }
                    i = i + 1;
                }
                assert(ids.deep_view() =~= answer_ids(self@.answers));
                ids
            },
            PayoutStrategy::FailedNodes => clone_ids(&self.failed_nodes),
            PayoutStrategy::SuccessfulNodes => clone_ids(&self.successful_nodes),
        }
    }

    /// Tallies the answers by solution text: each distinct submitted
    /// solution appears once, with the number of nodes that submitted it.
    /// The counter is a byte, so no solution may occur more often than one
    /// can count.
    pub fn get_result(&self) -> (res: Vec<(String, u8)>)
        requires
            forall|sol: Seq<char>| #[trigger] count_solution(self@.answers, sol) <= 255,
        ensures
            spec_result_tally_ok(res@, self@.answers),
    {
        let ghost all = self@.answers;
        let mut res: Vec<(String, u8)> = Vec::new();
        let mut i: usize = 0;
        while i < self.answers.len()
            invariant
                i <= self.answers.len(),
                all == self@.answers,
                forall|sol: Seq<char>| #[trigger] count_solution(all, sol) <= 255,
                forall|p: int, q: int|
                    #![trigger res@[p], res@[q]]
                    0 <= p < q < res@.len() ==> res@[p].0@ != res@[q].0@,
                forall|p: int|
                    #![trigger res@[p]]
                    0 <= p < res@.len() ==> res@[p].1 as int == count_solution(
                        all.take(i as int),
                        res@[p].0@,
                    ) && res@[p].1 > 0,
                forall|k: int|
                    #![trigger all[k]]
                    0 <= k < i ==> exists|p: int|
                        #![trigger res@[p]]
                        0 <= p < res@.len() && res@[p].0@ == all[k].solution,
            decreases self.answers.len() - i,
        {
            let ghost gi = i as int;
            proof {
                assert(all.take(gi + 1).drop_last() =~= all.take(gi));
                assert(all.take(gi + 1).last() == all[gi]);
            }
            let sol = self.answers[i].solution.clone();
            match find_narrow_index(&res, &sol) {
                Some(p) => {
                    proof {
                        lemma_count_solution_bounds(all.take(gi), sol@);
                        lemma_count_solution_prefix(all, sol@, gi + 1);
                        assert(count_solution(all, sol@) <= 255);
                    }
                    let key = res[p].0.clone();
                    let count = res[p].1;
                    assert(count < 255);
                    let ghost before = res@;
                    vstd::pervasive::VecAdditionalExecFns::set(&mut res, p, (key, count + 1));
                    proof {
                        assert(res@[p as int].0@ == sol@);
                        assert(res@[p as int].1 == count + 1);
                        assert forall|q: int|
                            #![trigger res@[q]]
                            0 <= q < res@.len() && q != p implies res@[q] == before[q] by {}
                        assert forall|q: int|
                            #![trigger res@[q]]
                            0 <= q < res@.len() implies res@[q].1 as int == count_solution(
                            all.take(gi + 1),
                            res@[q].0@,
                        ) && res@[q].1 > 0 by {
                            if q == p {
                                assert(count_solution(all.take(gi + 1), sol@) == count_solution(
                                    all.take(gi),
                                    sol@,
                                ) + 1);
                            } else {
                                assert(before[q].0@ != before[p as int].0@);
                                assert(count_solution(all.take(gi + 1), res@[q].0@)
                                    == count_solution(all.take(gi), res@[q].0@));
                            }
                        }
                        assert forall|k: int|
                            #![trigger all[k]]
                            0 <= k < i + 1 implies exists|q: int|
                            #![trigger res@[q]]
                            0 <= q < res@.len() && res@[q].0@ == all[k].solution by {
                            if k == gi {
                                assert(res@[p as int].0@ == all[gi].solution);
                            } else {
                                let w = choose|w: int|
                                    0 <= w < before.len() && before[w].0@ == all[k].solution;
                                assert(res@[w].0@ == all[k].solution);
                            }
                        }
                    }
                },
                None => {
                    proof {
                        lemma_count_solution_bounds(all.take(gi), sol@);
                        assert(count_solution(all.take(gi), sol@) == 0) by {
                            if count_solution(all.take(gi), sol@) > 0 {
                                let w = choose|w: int|
                                    0 <= w < all.take(gi).len() && all.take(gi)[w].solution
                                        == sol@;
                                assert(all[w].solution == sol@);
                                let q = choose|q: int|
                                    0 <= q < res@.len() && res@[q].0@ == all[w].solution;
                                assert(res@[q].0@ == sol@);
                            }
                        }
                    }
                    let ghost before = res@;
                    res.push((sol, 1));
                    proof {
                        assert(res@ =~= before.push((res@[before.len() as int].0, 1u8)));
                        assert(res@[before.len() as int].0@ == all[gi].solution);
                        assert forall|q: int|
                            #![trigger res@[q]]
                            0 <= q < res@.len() implies res@[q].1 as int == count_solution(
                            all.take(gi + 1),
                            res@[q].0@,
                        ) && res@[q].1 > 0 by {
                            if q < before.len() {
                                assert(res@[q] == before[q]);
                                assert(before[q].0@ != sol@);
                                assert(count_solution(all.take(gi + 1), res@[q].0@)
                                    == count_solution(all.take(gi), res@[q].0@));
                            } else {
                                assert(count_solution(all.take(gi + 1), sol@) == 1);
                            }
                        }
                        assert forall|k: int|
                            #![trigger all[k]]
                            0 <= k < i + 1 implies exists|q: int|
                            #![trigger res@[q]]
                            0 <= q < res@.len() && res@[q].0@ == all[k].solution by {
                            if k == gi {
                                assert(res@[before.len() as int].0@ == all[gi].solution);
                            } else {
                                let w = choose|w: int|
                                    0 <= w < before.len() && before[w].0@ == all[k].solution;
                                assert(res@[w].0@ == all[k].solution);
                            }
                        }
                    }
                },
            }
            i = i + 1;
        }
        proof {
            assert(all.take(self.answers@.len() as int) =~= all);
        }
        res
    }

    /// The recipients whose payout-claimed flag matches `payout_claimed`.
    pub fn get_payout_recipients_by_payout_claimed(&self, payout_claimed: bool) -> (res: Vec<
        String,
    >)
        requires
            self@.wf(),
            self@.payout_ready(),
        ensures
            res.deep_view() == claim_filtered(
                self@.spec_recipients(),
                self@.answers,
                payout_claimed,
            ),
    {
        let recipients = self.get_payout_recipient_ids();
        let ghost rids = self@.spec_recipients();
        let mut res: Vec<String> = Vec::new();
        let mut k: usize = 0;
        while k < recipients.len()
            invariant
                k <= recipients.len(),
                recipients.deep_view() == rids,
                rids == self@.spec_recipients(),
                self@.wf(),
                self@.payout_ready(),
                res.deep_view() == claim_filtered(rids.take(k as int), self@.answers,
                payout_claimed),
            decreases recipients.len() - k,
        {
            let ghost gk = k as int;
            proof {
                assert(rids.take(gk + 1).drop_last() =~= rids.take(gk));
                assert(rids.take(gk + 1).last() == rids[gk]);
                assert(rids.contains(rids[gk]));
                if self@.spec_payout_strategy() == PayoutStrategy::AllAnsweredNodes {
                    assert(rids[gk] == self@.answers[gk].node_id);
                    assert(has_answer(self@.answers, rids[gk]));
                } else {
                    assert(has_answer(self@.answers, rids[gk]));
                }
            }
            let ai: usize;
            match find_answer_index(&self.answers, &recipients[k]) {
                None => {
                    proof {
                        assert(false);
                    }
                    ai = 0;
                },
                Some(idx) => {
                    ai = idx;
                },
            }
            proof {
                lemma_answer_at(self@.answers, rids[gk], ai as int);
            }
            if self.answers[ai].payout_claimed == payout_claimed {
                let ghost before = res.deep_view();
                res.push(recipients[k].clone());
                proof {
                    assert(res.deep_view() =~= before.push(rids[gk]));
                }
            }
            k = k + 1;
        }
        proof {
            assert(rids.take(rids.len() as int) =~= rids);
        }
        res
    }

    /// The recipients that already claimed their share.
    pub fn get_paid_recipients(&self) -> (res: Vec<String>)
        requires
            self@.wf(),
            self@.payout_ready(),
        ensures
            res.deep_view() == claim_filtered(self@.spec_recipients(), self@.answers, true),
    {
        self.get_payout_recipients_by_payout_claimed(true)
    }

    /// The recipients still owed their share.
    pub fn get_unpaid_recipients(&self) -> (res: Vec<String>)
        requires
            self@.wf(),
            self@.payout_ready(),
        ensures
            res.deep_view() == claim_filtered(self@.spec_recipients(), self@.answers, false),
    {
        self.get_payout_recipients_by_payout_claimed(false)
    }
}

} // verus!
