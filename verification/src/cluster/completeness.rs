//! What is committed in a term is in the log of every later leader.
use vstd::prelude::*;

use crate::cluster::history::{
    is_quorum, lemma_agree_less, lemma_has_less, lemma_take_take, log_up_to_date, History,
};
use crate::model::{last_term, LogEntryView};
use crate::node::{NodeId, Term};

verus! {

/// Any two majorities have a member in common.
pub proof fn lemma_quorums_meet(members: Seq<NodeId>, q1: Set<NodeId>, q2: Set<NodeId>) -> (v:
    NodeId)
    requires
        is_quorum(members, q1),
        is_quorum(members, q2),
    ensures
        q1.contains(v),
        q2.contains(v),
{
    let all = members.to_set();
    members.lemma_cardinality_of_set();
    vstd::seq_lib::seq_to_set_is_finite(members);
    vstd::set_lib::lemma_set_intersect_union_lens(q1, q2);
    assert((q1 + q2).subset_of(all));
    vstd::set_lib::lemma_len_subset(q1 + q2, all);
    let both = q1.intersect(q2);
    assert(both.len() > 0);
    let v = both.choose();
    assert(both.contains(v)) by {
        vstd::set::axiom_set_choose_len(both);
    }
    v
}

/// A committed entry is in the log that every later leader was elected with.
pub proof fn lemma_leader_completeness(
    h: History,
    members: Seq<NodeId>,
    t: Term,
    i: int,
    later: Term,
)
    requires
        h.inv(members),
        h.committed(members, t, i),
        h.reigns.contains_key(later),
        t < later,
    ensures
        h.has(h.reigns[later].elected_with, t, i),
    decreases later,
{
    // Earlier leaders hand the entry down.
    assert(h.handed_down(t, i, later as int)) by {
        assert forall|u: Term| t < u < later && #[trigger] h.reigns.contains_key(u) implies h.has(
            h.reigns[u].elected_with,
            t,
            i,
        ) by {
            lemma_leader_completeness(h, members, t, i, u);
        }
    }
    assert(h.reign_inv(members, t));
    assert(h.reign_inv(members, later));
    let q = choose|q: Set<NodeId>|
        is_quorum(members, q) && forall|v: NodeId| #[trigger]
            q.contains(v) ==> h.acks.contains((v, t, i));
    // Some voter of the later leader had acknowledged the entry, and still had it.
    let v = lemma_quorums_meet(members, q, h.reigns[later].electors);
    assert(h.acks.contains((v, t, i)));
    assert(h.ballots.contains_key((later, v)));
    assert(h.kept_until_vote(v, t, i, later));
    assert(h.ballot_inv(later, v));
    let voter = h.ballots[(later, v)].log;
    let cand = h.reigns[later].elected_with;
    assert(h.has(voter, t, i));
    assert(log_up_to_date(cand, voter));
    let held = h.reigns[t].log;
    assert(voter.take(i)[i - 1] == held.take(i)[i - 1]);
    assert(voter[i - 1].term == t);
    assert(last_term(voter) >= t);
    assert(last_term(cand) >= t);
    if cand.len() == 0 {
        // No term is before the first.
        assert(last_term(voter) == 0 && voter.len() <= cand.len());
    } else {
        let top = cand.last().term;
        assert(top < later);
        let lead = h.reigns[later].log;
        assert(lead.take(cand.len() as int) == cand);
        assert(h.rooted(lead, cand.len() - 1));
        assert(lead[cand.len() - 1] == lead.take(cand.len() as int)[cand.len() - 1]);
        assert(cand.take(cand.len() as int) =~= cand);
        assert(h.has(cand, top, cand.len() as int));
        if top == t {
            assert(cand.len() >= voter.len());
            lemma_has_less(h, cand, t, i, cand.len() as int);
        } else {
            // The last entry of the candidate comes from a leader in between.
            lemma_leader_completeness(h, members, t, i, top);
            assert(h.reign_inv(members, top));
            let r = h.reigns[top];
            assert(r.log.take(cand.len() as int)[cand.len() - 1] == r.log[cand.len() - 1]);
            assert(r.log[cand.len() - 1].term == top);
            if cand.len() <= r.elected_with.len() {
                assert(r.elected_with[cand.len() - 1] == r.log.take(
                    r.elected_with.len() as int,
                )[cand.len() - 1]);
            }
            assert(r.elected_with.len() < cand.len());
            lemma_take_take(r.log, i, r.elected_with.len() as int);
            lemma_agree_less(cand, r.log, i, cand.len() as int);
            assert(cand.take(i) == r.elected_with.take(i));
        }
    }
}

/// A committed entry is in the log of the leader of its term and of every later one.
pub proof fn lemma_committed_in_log(
    h: History,
    members: Seq<NodeId>,
    t: Term,
    i: int,
    later: Term,
)
    requires
        h.inv(members),
        h.committed(members, t, i),
        h.reigns.contains_key(later),
        t <= later,
    ensures
        h.has(h.reigns[later].log, t, i),
{
    if t < later {
        lemma_leader_completeness(h, members, t, i, later);
        assert(h.reign_inv(members, later));
        let r = h.reigns[later];
        lemma_take_take(r.log, i, r.elected_with.len() as int);
    }
}

/// What is covered up to a term is in the log of the leader of that term.
pub proof fn lemma_covered_in_log(
    h: History,
    members: Seq<NodeId>,
    log: Seq<LogEntryView>,
    k: int,
    bound: Term,
)
    requires
        h.inv(members),
        h.covered(members, log, k, bound),
        h.reigns.contains_key(bound),
        0 <= k <= log.len(),
    ensures
        k <= h.reigns[bound].log.len(),
        h.reigns[bound].log.take(k) == log.take(k),
{
    if k == 0 {
        assert(h.reigns[bound].log.take(0) =~= log.take(0));
    } else {
        let (t, i) = choose|t: Term, i: int| #[trigger]
            h.committed(members, t, i) && t <= bound && k <= i && h.has(log, t, k);
        lemma_committed_in_log(h, members, t, i, bound);
        lemma_has_less(h, h.reigns[bound].log, t, k, i);
    }
}

/// Two logs agree as far as both are covered.
pub proof fn lemma_covered_agree(
    h: History,
    members: Seq<NodeId>,
    a: Seq<LogEntryView>,
    ka: int,
    bound_a: Term,
    b: Seq<LogEntryView>,
    kb: int,
    bound_b: Term,
)
    requires
        h.inv(members),
        h.covered(members, a, ka, bound_a),
        h.covered(members, b, kb, bound_b),
        0 <= ka <= a.len(),
        0 <= kb <= b.len(),
    ensures
        ka <= kb ==> a.take(ka) == b.take(ka),
        kb <= ka ==> a.take(kb) == b.take(kb),
{
    let k = if ka <= kb {
        ka
    } else {
        kb
    };
    if k == 0 {
        assert(a.take(0) =~= b.take(0));
    } else {
        let (ta, ia) = choose|t: Term, i: int| #[trigger]
            h.committed(members, t, i) && t <= bound_a && ka <= i && h.has(a, t, ka);
        let (tb, ib) = choose|t: Term, i: int| #[trigger]
            h.committed(members, t, i) && t <= bound_b && kb <= i && h.has(b, t, kb);
        lemma_has_less(h, a, ta, k, ka);
        lemma_has_less(h, b, tb, k, kb);
        if ta <= tb {
            lemma_committed_in_log(h, members, ta, ia, tb);
            lemma_has_less(h, h.reigns[tb].log, ta, k, ia);
        } else {
            lemma_committed_in_log(h, members, tb, ib, ta);
            lemma_has_less(h, h.reigns[ta].log, tb, k, ib);
        }
    }
}

} // verus!
