//! Account-identity plumbing: operations on duplicate-free identity lists,
//! and construction of node and bounty identities from their parts.
//!
//! Identities are plain strings; contracts speak of them as character
//! sequences through `deep_view`.

use vstd::prelude::*;
use vstd::string::StringExecFns;

verus! {

/// Copies an identity list; the copy has the same mathematical value.
pub fn clone_ids(v: &Vec<String>) -> (res: Vec<String>)
    ensures
        res@ == v@,
        res.deep_view() == v.deep_view(),
{
    let mut res: Vec<String> = Vec::new();
    let mut i: usize = 0;
    while i < v.len()
        invariant
            i <= v.len(),
            res@ == v@.subrange(0, i as int),
        decreases v.len() - i,
    {
        res.push(v[i].clone());
        assert(res@ =~= v@.subrange(0, i + 1 as int));
        i = i + 1;
    }
    assert(res@ =~= v@);
    assert(res.deep_view() =~= v.deep_view());
    res
}

/// Whether the list holds the identity, by content.
pub fn contains_id(v: &Vec<String>, id: &String) -> (res: bool)
    ensures
        res == v.deep_view().contains(id@),
{
    let mut i: usize = 0;
    while i < v.len()
        invariant
            i <= v.len(),
            forall|j: int| 0 <= j < i ==> v.deep_view()[j] != id@,
        decreases v.len() - i,
    {
        if v[i] == *id {
            assert(v.deep_view()[i as int] == id@);
            return true;
        }
        i = i + 1;
    }
    false
}

/// Appends an identity to the list.
pub fn push_id(v: &mut Vec<String>, id: String)
    ensures
        final(v).deep_view() == old(v).deep_view().push(id@),
        final(v)@ == old(v)@.push(id),
{
    let ghost gid = id@;
    v.push(id);
    proof {
        assert(v.deep_view() =~= old(v).deep_view().push(gid));
    }
}

/// Removes the identity from a duplicate-free list, if present. Afterwards
/// the list no longer holds it; every other identity's membership is
/// untouched.
pub fn remove_id(v: &mut Vec<String>, id: &String) -> (removed: bool)
    requires
        old(v).deep_view().no_duplicates(),
    ensures
        final(v).deep_view().no_duplicates(),
        !final(v).deep_view().contains(id@),
        forall|x: Seq<char>|
            x != id@ ==> (#[trigger] final(v).deep_view().contains(x) <==> old(
                v,
            ).deep_view().contains(x)),
        removed == old(v).deep_view().contains(id@),
        removed ==> final(v).deep_view().len() == old(v).deep_view().len() - 1,
        !removed ==> final(v)@ == old(v)@,
    {
    let ghost dv0 = v.deep_view();
    let ghost v0 = v@;
    let mut i: usize = 0;
    while i < v.len()
        invariant
            i <= v.len(),
            v@ == v0,
            v.deep_view() == dv0,
            old(v)@ == v0,
            old(v).deep_view() == dv0,
            dv0.no_duplicates(),
            forall|j: int| 0 <= j < i ==> dv0[j] != id@,
        decreases v.len() - i,
    {
        if v[i] == *id {
            assert(dv0[i as int] == id@);
            let ghost gi = i as int;
            v.remove(i);
            proof {
                assert(v.deep_view() =~= dv0.remove(gi));
                let dv1 = dv0.remove(gi);
                assert forall|j: int| 0 <= j < dv1.len() implies dv1[j] != id@ by {
                    if j < gi {
                        assert(dv1[j] == dv0[j]);
                    } else {
                        assert(dv1[j] == dv0[j + 1]);
                        assert(dv0[j + 1] != dv0[gi]);
                    }
                }
                assert(!dv1.contains(id@));
                assert forall|x: Seq<char>|
                    x != id@ && #[trigger] dv0.contains(x) implies dv1.contains(x) by {
                    let w = choose|w: int| 0 <= w < dv0.len() && dv0[w] == x;
                    if w < gi {
                        assert(dv1[w] == x);
                    } else {
                        assert(w != gi);
                        assert(dv1[w - 1] == x);
                    }
                }
                assert forall|x: Seq<char>|
                    x != id@ && #[trigger] dv1.contains(x) implies dv0.contains(x) by {
                    let w = choose|w: int| 0 <= w < dv1.len() && dv1[w] == x;
                    if w < gi {
                        assert(dv0[w] == x);
                    } else {
                        assert(dv0[w + 1] == x);
                    }
                }
                assert forall|j: int, k: int| 0 <= j < k < dv1.len() implies dv1[j] != dv1[k] by {
                    let j0: int = if j < gi { j } else { j + 1 };
                    let k0: int = if k < gi { k } else { k + 1 };
                    assert(dv1[j] == dv0[j0]);
                    assert(dv1[k] == dv0[k0]);
                    assert(dv0[j0] != dv0[k0]);
                }
                assert(dv0.contains(id@));
            }
            return true;
        }
        i = i + 1;
    }
    assert(!v.deep_view().contains(id@));
    false
}

/// Removes every occurrence of the identity. Every other identity's
/// membership is untouched, and a duplicate-free list stays duplicate-free.
pub fn remove_all_ids(v: &mut Vec<String>, id: &String)
    ensures
        !final(v).deep_view().contains(id@),
        forall|x: Seq<char>|
            x != id@ ==> (#[trigger] final(v).deep_view().contains(x) <==> old(
                v,
            ).deep_view().contains(x)),
        old(v).deep_view().no_duplicates() ==> final(v).deep_view().no_duplicates(),
    decreases old(v)@.len(),
{
    let ghost dv0 = v.deep_view();
    let mut i: usize = 0;
    while i < v.len()
        invariant
            i <= v.len(),
            v.deep_view() == dv0,
            old(v).deep_view() == dv0,
            forall|j: int| 0 <= j < i ==> dv0[j] != id@,
        decreases v.len() - i,
    {
        if v[i] == *id {
            assert(dv0[i as int] == id@);
            let ghost gi = i as int;
            v.remove(i);
            proof {
                let dv1 = v.deep_view();
                assert(dv1 =~= dv0.remove(gi));
                assert forall|x: Seq<char>|
                    x != id@ && #[trigger] dv0.contains(x) implies dv1.contains(x) by {
                    let w = choose|w: int| 0 <= w < dv0.len() && dv0[w] == x;
                    assert(w != gi);
                    if w < gi {
                        assert(dv1[w] == x);
                    } else {
                        assert(dv1[w - 1] == x);
                    }
                }
                assert forall|x: Seq<char>|
                    x != id@ && #[trigger] dv1.contains(x) implies dv0.contains(x) by {
                    let w = choose|w: int| 0 <= w < dv1.len() && dv1[w] == x;
                    if w < gi {
                        assert(dv0[w] == x);
                    } else {
                        assert(dv0[w + 1] == x);
                    }
                }
                if dv0.no_duplicates() {
                    assert forall|j: int, k: int|
                        0 <= j < k < dv1.len() implies dv1[j] != dv1[k] by {
                        let j0: int = if j < gi { j } else { j + 1 };
                        let k0: int = if k < gi { k } else { k + 1 };
                        assert(dv1[j] == dv0[j0]);
                        assert(dv1[k] == dv0[k0]);
                        assert(dv0[j0] != dv0[k0]);
                    }
                }
            }
            remove_all_ids(v, id);
            return;
        }
        i = i + 1;
    }
    assert(!v.deep_view().contains(id@));
}

/// Membership in a pushed sequence: the old members plus the new element.
pub proof fn lemma_contains_push<A>(s: Seq<A>, a: A, x: A)
    ensures
        s.push(a).contains(x) <==> (s.contains(x) || x == a),
{
    if s.push(a).contains(x) {
        let w = choose|w: int| 0 <= w < s.push(a).len() && s.push(a)[w] == x;
        if w < s.len() {
            assert(s[w] == x);
        }
    }
    if s.contains(x) {
        let w = choose|w: int| 0 <= w < s.len() && s[w] == x;
        assert(s.push(a)[w] == x);
    }
    if x == a {
        assert(s.push(a)[s.len() as int] == x);
    }
}

/// Membership in a concatenation: a member of either part.
pub proof fn lemma_contains_concat<A>(a: Seq<A>, b: Seq<A>, x: A)
    ensures
        (a + b).contains(x) <==> (a.contains(x) || b.contains(x)),
{
    if (a + b).contains(x) {
        let w = choose|w: int| 0 <= w < (a + b).len() && (a + b)[w] == x;
        if w < a.len() {
            assert(a[w] == x);
        } else {
            assert(b[w - a.len()] == x);
        }
    }
    if a.contains(x) {
        let w = choose|w: int| 0 <= w < a.len() && a[w] == x;
        assert((a + b)[w] == x);
    }
    if b.contains(x) {
        let w = choose|w: int| 0 <= w < b.len() && b[w] == x;
        assert((a + b)[a.len() + w] == x);
    }
}

/// Pushing a fresh element keeps a sequence duplicate-free.
pub proof fn lemma_no_dup_push<A>(s: Seq<A>, a: A)
    requires
        s.no_duplicates(),
        !s.contains(a),
    ensures
        s.push(a).no_duplicates(),
{
    assert forall|i: int, j: int|
        0 <= i < j < s.push(a).len() implies s.push(a)[i] != s.push(a)[j] by {
        if j < s.len() {
            assert(s[i] != s[j]);
        } else {
            assert(s.push(a)[j] == a);
            assert(s[i] != a) by {
                if s[i] == a {
                    assert(s.contains(a));
                }
            }
        }
    }
}

/// Removes the element at `i` from a duplicate-free list in constant time,
/// replacing it with the last element. Afterwards the removed identity is
/// gone; every other identity's membership is untouched.
pub fn swap_remove_id(v: &mut Vec<String>, i: usize) -> (res: String)
    requires
        old(v).deep_view().no_duplicates(),
        i < old(v)@.len(),
    ensures
        res@ == old(v).deep_view()[i as int],
        final(v).deep_view().no_duplicates(),
        final(v).deep_view().len() == old(v).deep_view().len() - 1,
        !final(v).deep_view().contains(res@),
        forall|x: Seq<char>|
            x != res@ ==> (#[trigger] final(v).deep_view().contains(x) <==> old(
                v,
            ).deep_view().contains(x)),
{
    let ghost dv0 = v.deep_view();
    let ghost gi = i as int;
    let res = v.swap_remove(i);
    proof {
        let dv1 = v.deep_view();
        assert(dv1 =~= dv0.update(gi, dv0.last()).drop_last());
        assert(res@ == dv0[gi]);
        assert forall|j: int, k: int| 0 <= j < k < dv1.len() implies dv1[j] != dv1[k] by {
            let j0: int = if j == gi { dv0.len() - 1 } else { j };
            let k0: int = if k == gi { dv0.len() - 1 } else { k };
            assert(dv1[j] == dv0[j0]);
            assert(dv1[k] == dv0[k0]);
            assert(dv0[j0] != dv0[k0]);
        }
        assert forall|j: int| 0 <= j < dv1.len() implies dv1[j] != res@ by {
            let j0: int = if j == gi { dv0.len() - 1 } else { j };
            assert(dv1[j] == dv0[j0]);
            if j0 != gi {
                assert(dv0[j0] != dv0[gi]);
            }
        }
        assert(!dv1.contains(res@));
        assert forall|x: Seq<char>| x != res@ && #[trigger] dv0.contains(x) implies dv1.contains(
            x,
        ) by {
            let w = choose|w: int| 0 <= w < dv0.len() && dv0[w] == x;
            if w == dv0.len() - 1 {
                assert(w != gi);
                assert(dv1[gi] == x);
            } else if w == gi {
                assert(false);
            } else {
                assert(dv1[w] == x);
            }
        }
        assert forall|x: Seq<char>| x != res@ && #[trigger] dv1.contains(x) implies dv0.contains(
            x,
        ) by {
            let w = choose|w: int| 0 <= w < dv1.len() && dv1[w] == x;
            if w == gi {
                assert(dv0[dv0.len() - 1] == x);
            } else {
                assert(dv0[w] == x);
            }
        }
    }
    res
}

/// The decimal digit character for a value below ten.
pub open spec fn dec_digit(d: int) -> char {
    if d == 0 {
        '0'
    } else if d == 1 {
        '1'
    } else if d == 2 {
        '2'
    } else if d == 3 {
        '3'
    } else if d == 4 {
        '4'
    } else if d == 5 {
        '5'
    } else if d == 6 {
        '6'
    } else if d == 7 {
        '7'
    } else if d == 8 {
        '8'
    } else {
        '9'
    }
}

/// The decimal rendering of a non-negative integer, most significant digit
/// first, with no leading zeroes (a lone zero for zero itself).
pub open spec fn dec_of(n: int) -> Seq<char>
    decreases n,
{
    if n < 10 {
        seq![dec_digit(n)]
    } else {
        dec_of(n / 10).push(dec_digit(n % 10))
    }
}

/// One decimal digit as text.
fn digit_text(d: u64) -> (res: &'static str)
    requires
        d < 10,
    ensures
        res@ == seq![dec_digit(d as int)],
{
    if d == 0 {
        proof { reveal_strlit("0"); }
        assert("0"@ =~= seq![dec_digit(0)]);
        "0"
    } else if d == 1 {
        proof { reveal_strlit("1"); }
        assert("1"@ =~= seq![dec_digit(1)]);
        "1"
    } else if d == 2 {
        proof { reveal_strlit("2"); }
        assert("2"@ =~= seq![dec_digit(2)]);
        "2"
    } else if d == 3 {
        proof { reveal_strlit("3"); }
        assert("3"@ =~= seq![dec_digit(3)]);
        "3"
    } else if d == 4 {
        proof { reveal_strlit("4"); }
        assert("4"@ =~= seq![dec_digit(4)]);
        "4"
    } else if d == 5 {
        proof { reveal_strlit("5"); }
        assert("5"@ =~= seq![dec_digit(5)]);
        "5"
    } else if d == 6 {
        proof { reveal_strlit("6"); }
        assert("6"@ =~= seq![dec_digit(6)]);
        "6"
    } else if d == 7 {
        proof { reveal_strlit("7"); }
        assert("7"@ =~= seq![dec_digit(7)]);
        "7"
    } else if d == 8 {
        proof { reveal_strlit("8"); }
        assert("8"@ =~= seq![dec_digit(8)]);
        "8"
    } else {
        proof { reveal_strlit("9"); }
        assert("9"@ =~= seq![dec_digit(9)]);
        "9"
    }
}

/// Renders a number in decimal.
pub fn decimal_of_u64(n: u64) -> (res: String)
    ensures
        res@ == dec_of(n as int),
    decreases n,
{
    let digit = n % 10;
    let rest = n / 10;
    let d = digit_text(digit);
    if rest == 0 {
        assert(n < 10);
        d.to_owned()
    } else {
        let mut s = decimal_of_u64(rest);
        s.append(d);
        assert(s@ =~= dec_of(rest as int).push(dec_digit(digit as int)));
        s
    }
}

/// A node's identity: `{name}.node.{owner}`.
pub open spec fn spec_node_id(name: Seq<char>, owner: Seq<char>) -> Seq<char> {
    name + ".node."@ + owner
}

/// Builds a node's identity from its name and its owner's identity.
pub fn make_node_id(name: &String, owner: &String) -> (res: String)
    ensures
        res@ == spec_node_id(name@, owner@),
{
    let mut s = name.clone();
    s.append(".node.");
    s.append(owner.as_str());
    assert(s@ =~= spec_node_id(name@, owner@));
    s
}

/// A bounty's identity: `{index}-{truncated timestamp}.bounty.{creator}`.
pub open spec fn spec_bounty_id(index: int, ts: int, creator: Seq<char>) -> Seq<char> {
    dec_of(index) + "-"@ + dec_of(ts) + ".bounty."@ + creator
}

/// Builds a bounty's identity from the naming counter, a truncated creation
/// timestamp, and the creator's identity.
pub fn make_bounty_id(index: u64, ts: u64, creator: &String) -> (res: String)
    ensures
        res@ == spec_bounty_id(index as int, ts as int, creator@),
{
    let mut s = decimal_of_u64(index);
    s.append("-");
    let t = decimal_of_u64(ts);
    s.append(t.as_str());
    s.append(".bounty.");
    s.append(creator.as_str());
    assert(s@ =~= spec_bounty_id(index as int, ts as int, creator@));
    s
}

} // verus!
