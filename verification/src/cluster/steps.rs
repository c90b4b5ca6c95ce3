//! Every event keeps the invariant.
use vstd::prelude::*;

use crate::cluster::completeness::{lemma_covered_in_log, lemma_quorums_meet};
use crate::cluster::history::{
    cluster_inv, is_quorum, lemma_agree_less, lemma_covered_extends, lemma_covered_stable,
    lemma_good_log_stable, lemma_handed_down_stable, lemma_has_stable,
    lemma_message_stable, lemma_node_stable, lemma_reign_log_stable, lemma_sent_concat, lemma_sent_stable, lemma_take_take, log_up_to_date,
    ordered, Ballot, History, Reign,
};
use crate::cluster::system::{Cluster, Event};
use crate::laws::{
    law_applied_once_and_in_order, law_tick_leader_keeps_node_valid, lemma_greatest_committable,
};
use crate::model::{
    last_term, lemma_matched, matched, merged, Envelope, LogEntryView, MessageView, NodeView,
    Outcome, Request,
};
use crate::node::{NodeId, NodeState, Term};
use crate::timer::is_election_timeout;

verus! {

/// The event that makes `o` of node `n` keeps the invariant, with `h2` for its history.
pub open spec fn advances(
    h: History,
    h2: History,
    members: Seq<NodeId>,
    n: NodeView,
    o: Outcome,
) -> bool {
    &&& h.grows(h2)
    &&& forall|id: NodeId| id != n.id ==> #[trigger] h.same_for(h2, id)
    &&& h2.inv(members)
    &&& h2.node_inv(members, o.node)
    &&& h2.sent_inv(members, o.sent)
    &&& o.node.id == n.id
    &&& o.node.current_term >= n.current_term
    &&& o.node.commit_index >= n.commit_index
}

/// What grows twice grows.
pub proof fn lemma_grows_transitive(h: History, h1: History, h2: History)
    requires
        h.grows(h1),
        h1.grows(h2),
    ensures
        h.grows(h2),
{
    assert forall|t: Term| #[trigger] h.reigns.contains_key(t) implies {
        &&& h2.reigns.contains_key(t)
        &&& h2.reigns[t].leader == h.reigns[t].leader
        &&& h2.reigns[t].elected_with == h.reigns[t].elected_with
        &&& h2.reigns[t].electors == h.reigns[t].electors
        &&& h.reigns[t].log.len() <= h2.reigns[t].log.len()
        &&& h2.reigns[t].log.take(h.reigns[t].log.len() as int) == h.reigns[t].log
    } by {
        assert(h1.reigns.contains_key(t));
        lemma_reign_log_stable(h1, h2, t, h.reigns[t].log.len() as int);
    }
    assert forall|k: (Term, NodeId)| #[trigger] h.ballots.contains_key(
        k,
    ) implies h2.ballots.contains_key(k) && h2.ballots[k] == h.ballots[k] by {
        assert(h1.ballots.contains_key(k));
    }
    assert forall|k: (Term, NodeId)| #[trigger] h.candidacies.contains_key(
        k,
    ) implies h2.candidacies.contains_key(k) && h2.candidacies[k] == h.candidacies[k] by {
        assert(h1.candidacies.contains_key(k));
    }
    assert forall|a: (NodeId, Term, int)| #[trigger] h.acks.contains(
        a,
    ) implies h2.acks.contains(a) by {
        assert(h1.acks.contains(a));
    }
}

/// Two advances make one.
proof fn lemma_advances_twice(
    h: History,
    h1: History,
    h2: History,
    members: Seq<NodeId>,
    n: NodeView,
    o1: Outcome,
    o2: Outcome,
)
    requires
        advances(h, h1, members, n, o1),
        advances(h1, h2, members, o1.node, o2),
    ensures
        advances(h, h2, members, n, Outcome { node: o2.node, sent: o1.sent + o2.sent }),
{
    lemma_grows_transitive(h, h1, h2);
    lemma_sent_stable(h1, h2, members, o1.sent);
    lemma_sent_concat(h2, members, o1.sent, o2.sent);
    assert forall|id: NodeId| id != n.id implies #[trigger] h.same_for(h2, id) by {
        assert(h.same_for(h1, id));
        assert(h1.same_for(h2, id));
        assert forall|t: Term| #[trigger]
            h2.reigns.contains_key(t) && h2.reigns[t].leader == id implies h.reigns.contains_key(t)
            && h.reigns[t].log == h2.reigns[t].log by {
            assert(h1.reigns.contains_key(t));
        }
        assert forall|t: Term| #[trigger] h2.ballots.contains_key(
            (t, id),
        ) implies h.ballots.contains_key((t, id)) by {
            assert(h1.ballots.contains_key((t, id)));
        }
        assert forall|t: Term| #[trigger] h2.candidacies.contains_key(
            (t, id),
        ) implies h.candidacies.contains_key((t, id)) by {
            assert(h1.candidacies.contains_key((t, id)));
        }
        assert forall|t: Term, i: int| #[trigger] h2.acks.contains(
            (id, t, i),
        ) implies h.acks.contains((id, t, i)) by {
            assert(h1.acks.contains((id, t, i)));
        }
    }
}

/// Nothing new is remembered.
pub proof fn lemma_same_history(h: History)
    ensures
        h.grows(h),
        forall|id: NodeId| #[trigger] h.same_for(h, id),
{
    assert forall|t: Term| #[trigger] h.reigns.contains_key(t) implies h.reigns[t].log.take(
        h.reigns[t].log.len() as int,
    ) == h.reigns[t].log by {
        assert(h.reigns[t].log.take(h.reigns[t].log.len() as int) =~= h.reigns[t].log);
    }
}

/// A node that notices a higher term keeps the invariant.
proof fn lemma_notice_term(h: History, members: Seq<NodeId>, n: NodeView, msg: MessageView)
    requires
        h.inv(members),
        h.node_inv(members, n),
    ensures
        h.node_inv(members, n.notice_term(msg)),
{
    let s = n.notice_term(msg);
    if s != n {
        lemma_covered_extends(
            h,
            members,
            n.log,
            n.log,
            n.commit_index as int,
            n.current_term,
            s.current_term,
        );
        assert(h.voter_inv(s)) by {
            assert forall|t: Term| #[trigger] h.ballots.contains_key((t, s.id)) implies t
                <= s.current_term by {
                assert(t <= n.current_term);
            }
        }
        assert(h.keeper_inv(s)) by {
            assert forall|t: Term, i: int| #[trigger] h.acks.contains((s.id, t, i)) implies t
                <= s.current_term && (h.handed_down(t, i, s.current_term + 1) ==> h.has(
                s.log,
                t,
                i,
            )) by {
                if h.handed_down(t, i, s.current_term + 1) {
                    assert(h.handed_down(t, i, n.current_term + 1));
                }
            }
        }
    }
}

/// A node votes for a candidate.
proof fn lemma_handle_request_vote(
    h: History,
    members: Seq<NodeId>,
    n: NodeView,
    now: u64,
    timeout: u64,
    term: Term,
    from: NodeId,
    last_log_index: u64,
    last_log_term: Term,
) -> (h2: History)
    requires
        h.inv(members),
        h.node_inv(members, n),
        term <= n.current_term,
        is_election_timeout(timeout),
        h.message_inv(
            members,
            n.id,
            MessageView::RequestVote { term, from, last_log_index, last_log_term },
        ),
    ensures
        advances(
            h,
            h2,
            members,
            n,
            n.handle_request_vote(now, timeout, term, from, last_log_index, last_log_term),
        ),
{
    let o = n.handle_request_vote(now, timeout, term, from, last_log_index, last_log_term);
    lemma_same_history(h);
    if n.grants_vote(term, from, last_log_index, last_log_term) && n.voted_for is None {
        let key = (n.current_term, n.id);
        let ballot = Ballot {
            candidate: from,
            log: n.log,
            early: !h.reigns.contains_key(n.current_term),
        };
        let h2 = History { ballots: h.ballots.insert(key, ballot), ..h };
        assert(h.grows(h2));
        lemma_new_ballot(h, h2, members, n, n.current_term, ballot);
        lemma_node_keeps(h, h2, members, n);
        let node = o.node;
        assert(h2.voter_inv(node));
        assert(h2.keeper_inv(node));
        assert(h2.node_inv(members, node));
        assert(h2.sent_inv(members, o.sent));
        h2
    } else {
        assert(h.node_inv(members, o.node));
        assert(h.sent_inv(members, o.sent));
        h
    }
}

/// A vote of node `n` in a term that it has not voted in keeps the history's invariant, where
/// the node is at that term or just before it.
proof fn lemma_new_ballot(
    h: History,
    h2: History,
    members: Seq<NodeId>,
    n: NodeView,
    term: Term,
    ballot: Ballot,
)
    requires
        h.inv(members),
        h.node_inv(members, n),
        !h.ballots.contains_key((term, n.id)),
        term == n.current_term || term == n.current_term + 1,
        ballot.log == n.log,
        ballot.early == !h.reigns.contains_key(term),
        h.grows(h2),
        h2.reigns == h.reigns,
        h2.acks == h.acks,
        h2.ballots == h.ballots.insert((term, n.id), ballot),
        h2.candidacies.contains_key((term, ballot.candidate)),
        log_up_to_date(h2.candidacies[(term, ballot.candidate)], n.log),
    ensures
        h2.inv(members),
{
    assert forall|t: Term| #[trigger] h2.reigns.contains_key(t) implies h2.reign_inv(
        members,
        t,
    ) by {
        assert(h.reign_inv(members, t));
        lemma_good_log_stable(h, h2, h.reigns[t].log);
        assert forall|v: NodeId| #[trigger] h2.reigns[t].electors.contains(v) implies {
            &&& h2.ballots.contains_key((t, v))
            &&& h2.ballots[(t, v)].candidate == h2.reigns[t].leader
            &&& h2.ballots[(t, v)].early
        } by {
            assert(h.ballots.contains_key((t, v)));
        }
        assert(h.candidacies.contains_key((t, h.reigns[t].leader)));
    }
    lemma_good_log_stable(h, h2, n.log);
    assert forall|t: Term, v: NodeId| #[trigger] h2.ballots.contains_key(
        (t, v),
    ) implies h2.ballot_inv(t, v) by {
        if (t, v) != (term, n.id) {
            assert(h.ballots.contains_key((t, v)));
            assert(h.ballot_inv(t, v));
            lemma_good_log_stable(h, h2, h.ballots[(t, v)].log);
            assert(h.candidacies.contains_key((t, h.ballots[(t, v)].candidate)));
        }
    }
    assert forall|v: NodeId, t: Term, i: int| #[trigger] h2.acks.contains(
        (v, t, i),
    ) implies h2.ack_inv(members, v, t, i) by {
        assert(h.ack_inv(members, v, t, i));
    }
    assert forall|v: NodeId, t: Term, i: int, later: Term|
        #![trigger h2.acks.contains((v, t, i)), h2.ballots.contains_key((later, v))]
        h2.acks.contains((v, t, i)) && h2.ballots.contains_key(
            (later, v),
        ) implies h2.kept_until_vote(v, t, i, later) by {
        assert(h.acks.contains((v, t, i)));
        assert(h.ack_inv(members, v, t, i));
        if (later, v) == (term, n.id) {
            if t < later && ballot.early && h2.handed_down(t, i, later as int) {
                lemma_handed_down_stable(h, h2, t, i, later as int);
                assert(h.handed_down(t, i, n.current_term + 1)) by {
                    assert forall|u: Term|
                        t < u < n.current_term + 1 && #[trigger] h.reigns.contains_key(
                            u,
                        ) implies h.has(h.reigns[u].elected_with, t, i) by {
                        if term == n.current_term && u == term {
                            assert(false);
                        }
                    }
                }
                assert(h.has(n.log, t, i));
                lemma_has_stable(h, h2, n.log, t, i);
            }
        } else {
            assert(h.ballots.contains_key((later, v)));
            assert(h.kept_until_vote(v, t, i, later));
            if t < later && h2.ballots[(later, v)].early && h2.handed_down(t, i, later as int) {
                lemma_handed_down_stable(h, h2, t, i, later as int);
                lemma_has_stable(h, h2, h.ballots[(later, v)].log, t, i);
            }
        }
    }
}

/// The parts of the invariant that speak of a node's log and of its acknowledgements stay, where
/// the history grows and no acknowledgement of the node is added.
proof fn lemma_node_keeps(h: History, h2: History, members: Seq<NodeId>, n: NodeView)
    requires
        h.inv(members),
        h.node_inv(members, n),
        h.grows(h2),
        forall|t: Term, i: int| #[trigger]
            h2.acks.contains((n.id, t, i)) ==> h.acks.contains((n.id, t, i)),
    ensures
        h2.log_inv(n),
        h2.keeper_inv(n),
        h2.commit_inv(members, n),
{
    lemma_good_log_stable(h, h2, n.log);
    lemma_covered_stable(h, h2, members, n.log, n.commit_index as int, n.current_term);
    assert forall|t: Term, i: int| #[trigger] h2.acks.contains((n.id, t, i)) implies t
        <= n.current_term && (h2.handed_down(t, i, n.current_term + 1) ==> h2.has(n.log, t, i)) by {
        assert(h.acks.contains((n.id, t, i)));
        assert(h.ack_inv(members, n.id, t, i));
        if h2.handed_down(t, i, n.current_term + 1) {
            lemma_handed_down_stable(h, h2, t, i, n.current_term + 1);
            lemma_has_stable(h, h2, n.log, t, i);
        }
    }
}

/// A candidate with a majority becomes leader.
proof fn lemma_become_leader(h: History, members: Seq<NodeId>, n: NodeView) -> (h2: History)
    requires
        members.no_duplicates(),
        h.inv(members),
        h.node_inv(members, n),
        n.state is Candidate,
        n.has_majority(),
    ensures
        advances(h, h2, members, n, n.become_leader()),
{
    let term = n.current_term;
    let o = n.become_leader();
    let node = o.node;
    assert(is_quorum(members, n.votes_received));
    // No other node leads this term: it would share a voter.
    assert(!h.reigns.contains_key(term)) by {
        if h.reigns.contains_key(term) {
            assert(h.reign_inv(members, term));
            let v = lemma_quorums_meet(members, n.votes_received, h.reigns[term].electors);
            assert(h.ballots[(term, v)].candidate == n.id);
            assert(h.reigns[term].leader == n.id);
            assert(false);
        }
    }
    let reign = Reign {
        leader: n.id,
        elected_with: n.log,
        log: n.log,
        electors: n.votes_received,
    };
    let h2 = History {
        reigns: h.reigns.insert(term, reign),
        acks: h.acks.union(
            Set::new(
                |a: (NodeId, Term, int)| a.0 == n.id && a.1 == term && 1 <= a.2 <= n.log.len(),
            ),
        ),
        ..h
    };
    lemma_same_history(h);
    assert(h.grows(h2));
    assert forall|id: NodeId| id != n.id implies #[trigger] h.same_for(h2, id) by {
        assert forall|t: Term| #[trigger]
            h2.reigns.contains_key(t) && h2.reigns[t].leader == id implies h.reigns.contains_key(t)
            && h.reigns[t].log == h2.reigns[t].log by {
            assert(t != term);
        }
    }
    assert(h2.inv(members)) by {
        assert forall|t: Term| #[trigger] h2.reigns.contains_key(t) implies h2.reign_inv(
            members,
            t,
        ) by {
            if t == term {
                lemma_good_log_stable(h, h2, n.log);
                assert(n.log.take(n.log.len() as int) =~= n.log);
                assert forall|v: NodeId| #[trigger] reign.electors.contains(v) implies {
                    &&& h2.ballots.contains_key((t, v))
                    &&& h2.ballots[(t, v)].candidate == reign.leader
                    &&& h2.ballots[(t, v)].early
                } by {
                    assert(h.ballots.contains_key((term, v)));
                    assert(h.ballot_inv(term, v));
                }
            } else {
                assert(h.reign_inv(members, t));
                lemma_good_log_stable(h, h2, h.reigns[t].log);
            }
        }
        assert forall|t: Term, v: NodeId| #[trigger] h2.ballots.contains_key(
            (t, v),
        ) implies h2.ballot_inv(t, v) by {
            assert(h.ballot_inv(t, v));
            lemma_good_log_stable(h, h2, h.ballots[(t, v)].log);
        }
        lemma_new_acks(h, h2, members, n);
    }
    assert(h2.node_inv(members, node)) by {
        lemma_own_acks(h, h2, members, n);
        assert(h2.log_inv(node));
        assert(h2.keeper_inv(node));
        assert(h2.commit_inv(members, node));
        assert(h2.voter_inv(node));
        assert(h2.candidate_inv(members, node));
        assert(h2.leader_inv(node)) by {
            assert forall|t: Term| #[trigger]
                h2.reigns.contains_key(t) && h2.reigns[t].leader == node.id implies t
                <= node.current_term && (t == node.current_term ==> node.state is Leader) by {
                if t != term {
                    assert(h.reigns.contains_key(t));
                }
            }
        }
    }
    lemma_replication(h2, members, node);
    h2
}

/// Acknowledgements by node `n` of its current term, within the log of the leader of that term,
/// keep the history's invariant.
proof fn lemma_new_acks(h: History, h2: History, members: Seq<NodeId>, n: NodeView)
    requires
        h.inv(members),
        h.node_inv(members, n),
        h.grows(h2),
        h2.ballots == h.ballots,
        h2.reigns.contains_key(n.current_term),
        forall|v: NodeId, t: Term, i: int| #[trigger]
            h2.acks.contains((v, t, i)) ==> h.acks.contains((v, t, i)) || v == n.id && t
                == n.current_term && 1 <= i <= h2.reigns[n.current_term].log.len(),
    ensures
        forall|v: NodeId, t: Term, i: int| #[trigger]
            h2.acks.contains((v, t, i)) ==> h2.ack_inv(members, v, t, i),
        forall|v: NodeId, t: Term, i: int, later: Term|
            #![trigger h2.acks.contains((v, t, i)), h2.ballots.contains_key((later, v))]
            h2.acks.contains((v, t, i)) && h2.ballots.contains_key((later, v))
                ==> h2.kept_until_vote(v, t, i, later),
{
    assert forall|v: NodeId, t: Term, i: int| #[trigger] h2.acks.contains(
        (v, t, i),
    ) implies h2.ack_inv(members, v, t, i) by {
        if h.acks.contains((v, t, i)) {
            assert(h.ack_inv(members, v, t, i));
        }
    }
    assert forall|v: NodeId, t: Term, i: int, later: Term|
        #![trigger h2.acks.contains((v, t, i)), h2.ballots.contains_key((later, v))]
        h2.acks.contains((v, t, i)) && h2.ballots.contains_key(
            (later, v),
        ) implies h2.kept_until_vote(v, t, i, later) by {
        assert(h.ballots.contains_key((later, v)));
        if h.acks.contains((v, t, i)) {
            assert(h.ack_inv(members, v, t, i));
            assert(h.kept_until_vote(v, t, i, later));
            if t < later && h2.ballots[(later, v)].early && h2.handed_down(t, i, later as int) {
                lemma_handed_down_stable(h, h2, t, i, later as int);
                lemma_has_stable(h, h2, h.ballots[(later, v)].log, t, i);
            }
        } else {
            // The node has not voted beyond its term.
            assert(later <= n.current_term);
        }
    }
}

/// Acknowledgements by node `n` of its current term that its own log backs keep the node's
/// part of the invariant.
proof fn lemma_own_acks(h: History, h2: History, members: Seq<NodeId>, n: NodeView)
    requires
        h.inv(members),
        h.node_inv(members, n),
        h.grows(h2),
        h2.reigns.contains_key(n.current_term),
        forall|t: Term, i: int| #[trigger]
            h2.acks.contains((n.id, t, i)) ==> h.acks.contains((n.id, t, i)) || t
                == n.current_term && h2.has(n.log, t, i),
    ensures
        h2.log_inv(n),
        h2.keeper_inv(n),
        h2.commit_inv(members, n),
{
    lemma_good_log_stable(h, h2, n.log);
    lemma_covered_stable(h, h2, members, n.log, n.commit_index as int, n.current_term);
    assert forall|t: Term, i: int| #[trigger] h2.acks.contains((n.id, t, i)) implies t
        <= n.current_term && (h2.handed_down(t, i, n.current_term + 1) ==> h2.has(n.log, t, i)) by {
        if h.acks.contains((n.id, t, i)) {
            assert(h.ack_inv(members, n.id, t, i));
            if h2.handed_down(t, i, n.current_term + 1) {
                lemma_handed_down_stable(h, h2, t, i, n.current_term + 1);
                lemma_has_stable(h, h2, n.log, t, i);
            }
        }
    }
}

/// What a leader sends satisfies the invariant of messages.
proof fn lemma_replication(h: History, members: Seq<NodeId>, n: NodeView)
    requires
        h.inv(members),
        h.node_inv(members, n),
        n.state is Leader,
    ensures
        h.sent_inv(members, n.replication(n.others())),
{
    broadcast use vstd::seq_lib::group_filter_ensures;

    let others = n.others();
    let sent = n.replication(others);
    let is_other = |p: NodeId| p != n.id;
    assert forall|i: int| 0 <= i < sent.len() implies h.request_inv(
        members,
        #[trigger] sent[i],
    ) by {
        let p = others[i];
        assert(is_other(n.peers.filter(is_other)[i]));
        assert(p != n.id);
        assert(sent[i] == Request::Send { to: p, msg: n.append_entries_for(p) });
        assert(1 <= n.next_for(p) <= n.log.len() + 1);
        let prev = n.next_for(p) - 1;
        assert(n.log.skip(prev) =~= n.log.subrange(prev, n.log.len() as int));
        assert(h.message_inv(members, p, n.append_entries_for(p)));
    }
}

/// A node starts an election.
proof fn lemma_start_election(
    h: History,
    members: Seq<NodeId>,
    n: NodeView,
    now: u64,
    timeout: u64,
) -> (h2: History)
    requires
        members.no_duplicates(),
        h.inv(members),
        h.node_inv(members, n),
        n.current_term < u64::MAX,
        is_election_timeout(timeout),
    ensures
        advances(h, h2, members, n, n.start_election(now, timeout)),
{
    let o = n.start_election(now, timeout);
    let term = (n.current_term + 1) as u64;
    let node = NodeView {
        state: NodeState::Candidate,
        current_term: term,
        voted_for: Some(n.id),
        votes_received: Set::empty().insert(n.id),
        ..n.armed(now, timeout)
    };
    let asked = seq![
        Request::Broadcast {
            msg: MessageView::RequestVote {
                term: node.current_term,
                from: node.id,
                last_log_index: node.last_log_index(),
                last_log_term: last_term(node.log),
            },
        },
    ];
    let ballot = Ballot {
        candidate: n.id,
        log: n.log,
        early: !h.reigns.contains_key(term),
    };
    let h1 = History {
        ballots: h.ballots.insert((term, n.id), ballot),
        candidacies: h.candidacies.insert((term, n.id), n.log),
        ..h
    };
    lemma_same_history(h);
    assert(!h.ballots.contains_key((term, n.id)));
    assert(!h.candidacies.contains_key((term, n.id)));
    assert(h.grows(h1));
    lemma_new_ballot(h, h1, members, n, term, ballot);
    lemma_node_keeps(h, h1, members, n);
    assert forall|id: NodeId| id != n.id implies #[trigger] h.same_for(h1, id) by {}
    assert(h1.node_inv(members, node)) by {
        assert(node.wf());
        assert(h1.voter_inv(node)) by {
            assert forall|t: Term| #[trigger] h1.ballots.contains_key((t, node.id)) implies t
                <= node.current_term by {
                if t != term {
                    assert(h.ballots.contains_key((t, n.id)));
                }
            }
        }
        assert(h1.candidate_inv(members, node)) by {
            assert forall|t: Term| #[trigger] h1.candidacies.contains_key((t, node.id)) implies t
                <= node.current_term by {
                if t != term {
                    assert(h.candidacies.contains_key((t, n.id)));
                }
            }
        }
        assert(h1.keeper_inv(node)) by {
            assert forall|t: Term, i: int| #[trigger] h1.acks.contains((node.id, t, i)) implies t
                <= node.current_term && (h1.handed_down(t, i, node.current_term + 1) ==> h1.has(
                node.log,
                t,
                i,
            )) by {
                if h1.handed_down(t, i, node.current_term + 1) {
                    assert(h1.handed_down(t, i, n.current_term + 1));
                }
            }
        }
        lemma_covered_extends(
            h1,
            members,
            n.log,
            n.log,
            n.commit_index as int,
            n.current_term,
            term,
        );
        assert(h1.commit_inv(members, node));
        assert(h1.leader_inv(node));
    }
    assert(h1.sent_inv(members, asked)) by {
        assert forall|to: NodeId| #[trigger] h1.message_inv(
            members,
            to,
            asked[0]->Broadcast_msg,
        ) by {}
    }
    let o1 = Outcome { node, sent: asked };
    assert(advances(h, h1, members, n, o1));
    if node.has_majority() {
        let h2 = lemma_become_leader(h1, members, node);
        lemma_advances_twice(h, h1, h2, members, n, o1, node.become_leader());
        h2
    } else {
        h1
    }
}

/// A node that only changed what the invariant does not speak of keeps it.
proof fn lemma_not_candidate_or_leader(
    h: History,
    members: Seq<NodeId>,
    n: NodeView,
    node: NodeView,
)
    requires
        h.node_inv(members, n),
        node.wf(),
        !(n.state is Leader),
        !(node.state is Leader) && !(node.state is Candidate),
        node == (NodeView {
            state: node.state,
            votes_received: node.votes_received,
            last_heard: node.last_heard,
            election_timeout: node.election_timeout,
            ..n
        }),
    ensures
        h.node_inv(members, node),
{
}

/// A node asks for pre-votes.
proof fn lemma_start_pre_election(
    h: History,
    members: Seq<NodeId>,
    n: NodeView,
    now: u64,
    timeout: u64,
) -> (h2: History)
    requires
        members.no_duplicates(),
        h.inv(members),
        h.node_inv(members, n),
        !(n.state is Leader),
        n.current_term < u64::MAX,
        is_election_timeout(timeout),
    ensures
        advances(h, h2, members, n, n.start_pre_election(now, timeout)),
{
    let node = NodeView {
        state: NodeState::PreCandidate,
        votes_received: Set::empty().insert(n.id),
        ..n.armed(now, timeout)
    };
    let asked = seq![
        Request::Broadcast {
            msg: MessageView::PreVoteRequest {
                term: (node.current_term + 1) as u64,
                from: node.id,
                last_log_index: node.last_log_index(),
                last_log_term: last_term(node.log),
            },
        },
    ];
    lemma_same_history(h);
    lemma_not_candidate_or_leader(h, members, n, node);
    assert(h.sent_inv(members, asked)) by {
        assert forall|to: NodeId| #[trigger] h.message_inv(
            members,
            to,
            asked[0]->Broadcast_msg,
        ) by {}
    }
    let o1 = Outcome { node, sent: asked };
    assert(advances(h, h, members, n, o1));
    if node.has_majority() {
        let h2 = lemma_start_election(h, members, node, now, timeout);
        lemma_advances_twice(h, h, h2, members, n, o1, node.start_election(now, timeout));
        h2
    } else {
        h
    }
}

/// A node counts a pre-vote.
proof fn lemma_handle_pre_vote_response(
    h: History,
    members: Seq<NodeId>,
    n: NodeView,
    now: u64,
    timeout: u64,
    proposed_term: Term,
    from: NodeId,
    vote_granted: bool,
) -> (h2: History)
    requires
        members.no_duplicates(),
        h.inv(members),
        h.node_inv(members, n),
        is_election_timeout(timeout),
    ensures
        advances(
            h,
            h2,
            members,
            n,
            n.handle_pre_vote_response(now, timeout, proposed_term, from, vote_granted),
        ),
{
    lemma_same_history(h);
    if n.state is PreCandidate && proposed_term == n.current_term + 1 && vote_granted {
        let node = NodeView { votes_received: n.votes_received.insert(from), ..n };
        lemma_not_candidate_or_leader(h, members, n, node);
        let o1 = Outcome { node, sent: Seq::empty() };
        assert(advances(h, h, members, n, o1));
        if node.has_majority() {
            let h2 = lemma_start_election(h, members, node, now, timeout);
            let o2 = node.start_election(now, timeout);
            lemma_advances_twice(h, h, h2, members, n, o1, o2);
            assert(Seq::<Request>::empty() + o2.sent =~= o2.sent);
            h2
        } else {
            h
        }
    } else {
        h
    }
}

/// A candidate counts a vote.
proof fn lemma_handle_vote_response(
    h: History,
    members: Seq<NodeId>,
    n: NodeView,
    term: Term,
    from: NodeId,
    vote_granted: bool,
) -> (h2: History)
    requires
        members.no_duplicates(),
        h.inv(members),
        h.node_inv(members, n),
        h.message_inv(members, n.id, MessageView::VoteResponse { term, from, vote_granted }),
    ensures
        advances(h, h2, members, n, n.handle_vote_response(term, from, vote_granted)),
{
    lemma_same_history(h);
    if n.state is Candidate && term == n.current_term && vote_granted {
        let node = NodeView { votes_received: n.votes_received.insert(from), ..n };
        assert(h.candidate_inv(members, node)) by {
            assert forall|v: NodeId| #[trigger] node.votes_received.contains(v) implies {
                &&& members.contains(v)
                &&& h.ballots.contains_key((node.current_term, v))
                &&& h.ballots[(node.current_term, v)].candidate == node.id
            } by {
                if v != from {
                    assert(n.votes_received.contains(v));
                }
            }
        }
        assert(h.keeper_inv(node));
        assert(h.node_inv(members, node));
        let o1 = Outcome { node, sent: Seq::empty() };
        assert(advances(h, h, members, n, o1));
        if node.has_majority() {
            let h2 = lemma_become_leader(h, members, node);
            let o2 = node.become_leader();
            lemma_advances_twice(h, h, h2, members, n, o1, o2);
            assert(Seq::<Request>::empty() + o2.sent =~= o2.sent);
            h2
        } else {
            h
        }
    } else {
        h
    }
}

/// What a follower takes over from the log `l` of its leader: either it had all of it
/// already, or its log becomes the beginning of the leader's.
pub proof fn lemma_merge_from_leader(
    h: History,
    f: Seq<LogEntryView>,
    l: Seq<LogEntryView>,
    prev: int,
    len: int,
)
    requires
        h.good_log(f),
        h.good_log(l),
        0 <= prev <= f.len(),
        0 <= len,
        prev + len <= l.len(),
        prev > 0 ==> f[prev - 1].term == l[prev - 1].term,
    ensures
        ({
            let g = merged(f, prev, l.subrange(prev, prev + len));
            &&& g == f || g == l.take(prev + len)
            &&& prev + len <= g.len()
            &&& g.take(prev + len) == l.take(prev + len)
            &&& forall|k: int|
                0 <= k <= f.len() && k <= l.len() && #[trigger] f.take(k) == l.take(k) ==> k
                    <= g.len() && g.take(k) == f.take(k)
        }),
{
    let entries = l.subrange(prev, prev + len);
    let m = matched(f, prev, entries) as int;
    let g = merged(f, prev, entries);
    lemma_matched(f, prev, entries);
    // The logs agree up to where the terms do.
    assert(f.take(prev + m) == l.take(prev + m)) by {
        let at = prev + m - 1;
        if prev + m > 0 {
            if m > 0 {
                assert(f[prev + (m - 1)].term == entries[m - 1].term);
                assert(entries[m - 1] == l[at]);
            }
            assert(f[at].term == l[at].term);
            assert(h.rooted(f, at));
            assert(h.rooted(l, at));
        } else {
            assert(f.take(0) =~= l.take(0));
        }
    }
    if m == len {
        assert(g == f);
    } else {
        assert(entries.skip(m) =~= l.subrange(prev + m, prev + len));
        assert(g =~= l.take(prev + len)) by {
            assert(l.take(prev + m) + l.subrange(prev + m, prev + len) =~= l.take(prev + len));
        }
        assert(g.take(prev + len) =~= l.take(prev + len));
    }
    assert forall|k: int|
        0 <= k <= f.len() && k <= l.len() && #[trigger] f.take(k) == l.take(k) implies k <= g.len()
        && g.take(k) == f.take(k) by {
        if m < len {
            if prev + m < k {
                assert(f[prev + m] == f.take(k)[prev + m]);
                assert(l[prev + m] == l.take(k)[prev + m]);
                assert(entries[m] == l[prev + m]);
                assert(false);
            }
            lemma_take_take(l, k, prev + len);
        }
    }
}

/// The beginning of a good log is good.
proof fn lemma_good_log_take(h: History, l: Seq<LogEntryView>, k: int, bound: Term)
    requires
        h.good_log(l),
        ordered(l, bound),
        0 <= k <= l.len(),
    ensures
        h.good_log(l.take(k)),
        ordered(l.take(k), bound),
{
    assert forall|i: int| 0 <= i < l.take(k).len() implies #[trigger] h.rooted(l.take(k), i) by {
        assert(h.rooted(l, i));
        lemma_take_take(l, i + 1, k);
    }
}

/// A node takes entries of its leader.
proof fn lemma_handle_append_entries(
    h: History,
    members: Seq<NodeId>,
    n: NodeView,
    now: u64,
    timeout: u64,
    term: Term,
    from: NodeId,
    prev_log_index: u64,
    prev_log_term: Term,
    entries: Seq<LogEntryView>,
    leader_commit: u64,
) -> (h2: History)
    requires
        members.no_duplicates(),
        h.inv(members),
        h.node_inv(members, n),
        term <= n.current_term,
        is_election_timeout(timeout),
        n.log.len() + entries.len() < usize::MAX,
        h.message_inv(
            members,
            n.id,
            MessageView::AppendEntries {
                term,
                from,
                prev_log_index,
                prev_log_term,
                entries,
                leader_commit,
            },
        ),
    ensures
        advances(
            h,
            h2,
            members,
            n,
            n.handle_append_entries(
                now,
                timeout,
                term,
                from,
                prev_log_index,
                prev_log_term,
                entries,
                leader_commit,
            ),
        ),
{
    lemma_same_history(h);
    let o = n.handle_append_entries(
        now,
        timeout,
        term,
        from,
        prev_log_index,
        prev_log_term,
        entries,
        leader_commit,
    );
    if term < n.current_term {
        assert(h.sent_inv(members, o.sent));
        h
    } else {
        // The leader of the term does not get its own messages.
        assert(!(n.state is Leader));
        let calm = NodeView {
            state: if n.state is Candidate || n.state is PreCandidate {
                NodeState::Follower
            } else {
                n.state
            },
            ..n.armed(now, timeout)
        };
        lemma_not_candidate_or_leader(h, members, n, calm);
        if calm.log_matches(prev_log_index, prev_log_term) {
            lemma_take_over(
                h,
                members,
                calm,
                term,
                from,
                prev_log_index,
                prev_log_term,
                entries,
                leader_commit,
            )
        } else {
            assert(h.sent_inv(members, o.sent));
            h
        }
    }
}

/// A node whose log matches keeps the invariant with the entries of its leader in its log, which
/// then is the leader's as far as the message covers it.
proof fn lemma_merged_node(
    h: History,
    members: Seq<NodeId>,
    n: NodeView,
    prev: int,
    len: int,
)
    requires
        h.inv(members),
        h.node_inv(members, n),
        !(n.state is Leader) && !(n.state is Candidate),
        h.reigns.contains_key(n.current_term),
        0 <= prev <= n.log.len(),
        0 <= len,
        prev + len <= h.reigns[n.current_term].log.len(),
        n.log.len() + len < usize::MAX,
        prev > 0 ==> n.log[prev - 1].term == h.reigns[n.current_term].log[prev - 1].term,
    ensures
        ({
            let l = h.reigns[n.current_term].log;
            let g = merged(n.log, prev, l.subrange(prev, prev + len));
            &&& h.node_inv(members, (NodeView { log: g, ..n }))
            &&& prev + len <= g.len()
            &&& g.take(prev + len) == l.take(prev + len)
        }),
{
    let term = n.current_term;
    let l = h.reigns[term].log;
    let entries = l.subrange(prev, prev + len);
    let g = merged(n.log, prev, entries);
    assert(h.reign_inv(members, term));
    lemma_merge_from_leader(h, n.log, l, prev, len);
    lemma_matched(n.log, prev, entries);
    assert(g.len() <= n.log.len() + len);
    lemma_good_log_take(h, l, prev + len, term);
    let node = NodeView { log: g, ..n };
    // What was committed stays.
    let k = n.commit_index as int;
    lemma_covered_in_log(h, members, n.log, k, term);
    assert(n.log.take(k) == l.take(k));
    assert(g.take(k) == n.log.take(k));
    lemma_covered_extends(h, members, n.log, g, k, term, term);
    lemma_agree_less(g, n.log, n.last_applied as int, k);
    // What was acknowledged stays.
    assert(h.keeper_inv(node)) by {
        assert forall|t: Term, i: int| #[trigger] h.acks.contains((n.id, t, i)) implies t
            <= term && (h.handed_down(t, i, term + 1) ==> h.has(g, t, i)) by {
            assert(h.ack_inv(members, n.id, t, i));
            if h.handed_down(t, i, term + 1) {
                assert(h.has(n.log, t, i));
                assert(n.log.take(i) == l.take(i)) by {
                    if t < term {
                        assert(h.has(h.reigns[term].elected_with, t, i));
                        lemma_take_take(l, i, h.reigns[term].elected_with.len() as int);
                    }
                }
                assert(g.take(i) == n.log.take(i));
            }
        }
    }
    assert(node.wf());
    assert(h.log_inv(node));
    assert(h.commit_inv(members, node));
}

/// A node whose log matches takes entries of its leader over.
proof fn lemma_take_over(
    h: History,
    members: Seq<NodeId>,
    n: NodeView,
    term: Term,
    from: NodeId,
    prev_log_index: u64,
    prev_log_term: Term,
    entries: Seq<LogEntryView>,
    leader_commit: u64,
) -> (h2: History)
    requires
        h.inv(members),
        h.node_inv(members, n),
        n.current_term == term,
        !(n.state is Leader) && !(n.state is Candidate),
        n.log.len() + entries.len() < usize::MAX,
        n.log_matches(prev_log_index, prev_log_term),
        h.message_inv(
            members,
            n.id,
            MessageView::AppendEntries {
                term,
                from,
                prev_log_index,
                prev_log_term,
                entries,
                leader_commit,
            },
        ),
    ensures
        advances(
            h,
            h2,
            members,
            n,
            Outcome {
                node: NodeView {
                    log: merged(n.log, prev_log_index as int, entries),
                    ..n
                }.follow_commit(leader_commit, (prev_log_index + entries.len()) as u64),
                sent: n.append_answer(from, true, (prev_log_index + entries.len()) as u64),
            },
        ),
{
    let prev = prev_log_index as int;
    let len = entries.len() as int;
    let covers = prev + len;
    let l = h.reigns[term].log;
    let g = merged(n.log, prev, entries);
    let merged_node = NodeView { log: g, ..n };
    lemma_merged_node(h, members, n, prev, len);
    // The new acknowledgement.
    let h2 = History {
        acks: h.acks.union(
            Set::new(|a: (NodeId, Term, int)| a.0 == n.id && a.1 == term && 1 <= a.2 <= covers),
        ),
        ..h
    };
    lemma_same_history(h);
    assert(h.grows(h2));
    assert forall|id: NodeId| id != n.id implies #[trigger] h.same_for(h2, id) by {}
    assert(h2.inv(members)) by {
        assert forall|t: Term| #[trigger] h2.reigns.contains_key(t) implies h2.reign_inv(
            members,
            t,
        ) by {
            assert(h.reign_inv(members, t));
            lemma_good_log_stable(h, h2, h.reigns[t].log);
        }
        assert forall|t: Term, v: NodeId| #[trigger] h2.ballots.contains_key(
            (t, v),
        ) implies h2.ballot_inv(t, v) by {
            assert(h.ballot_inv(t, v));
            lemma_good_log_stable(h, h2, h.ballots[(t, v)].log);
        }
        lemma_new_acks(h, h2, members, n);
    }
    assert(h2.node_inv(members, merged_node)) by {
        assert forall|t: Term, i: int| #[trigger] h2.acks.contains(
            (merged_node.id, t, i),
        ) implies h.acks.contains((merged_node.id, t, i)) || t == merged_node.current_term
            && h2.has(merged_node.log, t, i) by {
            if !h.acks.contains((merged_node.id, t, i)) {
                lemma_agree_less(g, l, i, covers);
            }
        }
        lemma_own_acks(h, h2, members, merged_node);
        assert(h2.voter_inv(merged_node));
        assert(h2.candidate_inv(members, merged_node));
        assert(h2.leader_inv(merged_node));
    }
    let answer = n.append_answer(from, true, covers as u64);
    assert(h2.sent_inv(members, answer)) by {
        assert(answer[0] == Request::Send {
            to: from,
            msg: MessageView::AppendEntriesResponse {
                term,
                from: n.id,
                success: true,
                match_index: covers as u64,
            },
        });
    }
    // The commit index follows: the message covers what the leader reports.
    assert(covers as u64 == covers);
    assert(leader_commit <= covers);
    if leader_commit > n.commit_index {
        let lc = leader_commit as int;
        lemma_covered_stable(h, h2, members, l, lc, term);
        lemma_agree_less(g, l, lc, covers);
        lemma_covered_extends(h2, members, l, g, lc, term, term);
        lemma_commit(h2, members, merged_node, leader_commit);
    }
    h2
}

/// A node moves its commit index to what is covered, and applies it.
proof fn lemma_commit(h: History, members: Seq<NodeId>, n: NodeView, commit_index: u64)
    requires
        h.node_inv(members, n),
        n.commit_index <= commit_index <= n.log.len(),
        h.covered(members, n.log, commit_index as int, n.current_term),
    ensures
        h.node_inv(members, (NodeView { commit_index, ..n }).apply_log()),
        (NodeView { commit_index, ..n }).apply_log().commit_index == commit_index,
{
    let s = NodeView { commit_index, ..n };
    law_applied_once_and_in_order(s);
    let node = s.apply_log();
    assert(h.keeper_inv(node));
    assert(h.commit_inv(members, node));
}

/// The part of a sequence without duplicates that is kept has none either.
pub proof fn lemma_filter_no_duplicates(s: Seq<NodeId>, keep: spec_fn(NodeId) -> bool)
    requires
        s.no_duplicates(),
    ensures
        s.filter(keep).no_duplicates(),
        forall|v: NodeId| #[trigger] s.filter(keep).contains(v) ==> s.contains(v) && keep(v),
    decreases s.len(),
{
    reveal_with_fuel(Seq::filter, 1);
    if s.len() > 0 {
        let init = s.drop_last();
        let last = s.last();
        lemma_filter_no_duplicates(init, keep);
        let f = init.filter(keep);
        assert forall|v: NodeId| #[trigger] s.filter(keep).contains(v) implies s.contains(v)
            && keep(v) by {
            let k = choose|k: int| 0 <= k < s.filter(keep).len() && s.filter(keep)[k] == v;
            if k < f.len() {
                assert(f[k] == v);
                assert(f.contains(v));
                let j = choose|j: int| 0 <= j < init.len() && init[j] == v;
                assert(s[j] == v);
            } else {
                assert(v == last);
                assert(s[s.len() - 1] == v);
            }
        }
        if keep(last) {
            assert forall|j: int| 0 <= j < f.len() implies f[j] != last by {
                assert(f.contains(f[j]));
                let k = choose|k: int| 0 <= k < init.len() && init[k] == f[j];
                assert(s[k] == f[j]);
            }
        }
    }
}

/// What a leader may commit is committed.
proof fn lemma_committable(h: History, members: Seq<NodeId>, n: NodeView, k: u64)
    requires
        members.no_duplicates(),
        h.inv(members),
        h.node_inv(members, n),
        n.state is Leader,
        n.committable(k),
    ensures
        h.committed(members, n.current_term, k as int),
        h.covered(members, n.log, k as int, n.current_term),
{
    let holds = |p: NodeId| p != n.id && n.match_for(p) >= k;
    let f = n.peers.filter(holds);
    lemma_filter_no_duplicates(n.peers, holds);
    f.unique_seq_to_set();
    vstd::seq_lib::seq_to_set_is_finite(f);
    let q = f.to_set().insert(n.id);
    assert(!f.contains(n.id));
    assert(q.len() == f.len() + 1);
    assert(is_quorum(members, q)) by {
        assert forall|v: NodeId| #[trigger] q.contains(v) implies members.contains(v) by {
            if v != n.id {
                assert(f.contains(v));
            }
        }
    }
    assert forall|v: NodeId| #[trigger] q.contains(v) implies h.acks.contains(
        (v, n.current_term, k as int),
    ) by {
        if v != n.id {
            assert(f.contains(v));
            assert(n.match_index.contains_key(v));
        }
    }
    assert(h.committed(members, n.current_term, k as int));
    assert(h.has(n.log, n.current_term, k as int));
}

/// A leader counts an acknowledgement or a refusal.
proof fn lemma_handle_append_entries_response(
    h: History,
    members: Seq<NodeId>,
    n: NodeView,
    term: Term,
    from: NodeId,
    success: bool,
    match_index: u64,
) -> (h2: History)
    requires
        members.no_duplicates(),
        h.inv(members),
        h.node_inv(members, n),
        h.message_inv(
            members,
            n.id,
            MessageView::AppendEntriesResponse { term, from, success, match_index },
        ),
    ensures
        advances(
            h,
            h2,
            members,
            n,
            Outcome {
                node: n.handle_append_entries_response(term, from, success, match_index),
                sent: Seq::empty(),
            },
        ),
{
    lemma_same_history(h);
    if n.state is Leader && term == n.current_term {
        if success {
            let acked = NodeView {
                match_index: n.match_index.insert(from, match_index),
                next_index: n.next_index.insert(from, (match_index + 1) as u64),
                ..n
            };
            assert(h.leader_inv(acked)) by {
                assert forall|p: NodeId, i: int|
                    #![trigger acked.match_index.contains_key(p), h.acks.contains((p, acked.current_term, i))]
                    acked.match_index.contains_key(p) && 1 <= i
                        <= acked.match_index[p] implies h.acks.contains(
                    (p, acked.current_term, i),
                ) by {
                    if p != from {
                        assert(n.match_index.contains_key(p));
                    }
                }
                assert forall|p: NodeId| #[trigger] acked.match_index.contains_key(
                    p,
                ) implies acked.match_index[p] <= acked.log.len() by {
                    if p != from {
                        assert(n.match_index.contains_key(p));
                    }
                }
                assert forall|p: NodeId| #[trigger] acked.next_index.contains_key(p) implies 1
                    <= acked.next_index[p] <= acked.log.len() + 1 by {
                    if p != from {
                        assert(n.next_index.contains_key(p));
                    }
                }
            }
            assert(h.keeper_inv(acked));
            assert(acked.wf());
            assert(h.node_inv(members, acked));
            let last = acked.last_log_index();
            lemma_greatest_committable(acked, last);
            let k = acked.greatest_committable(last);
            if k > acked.commit_index {
                lemma_committable(h, members, acked, k);
                lemma_commit(h, members, acked, k);
            }
        } else {
            let node = n.handle_append_entries_response(term, from, success, match_index);
            assert(h.leader_inv(node)) by {
                assert forall|p: NodeId| #[trigger] node.next_index.contains_key(p) implies 1
                    <= node.next_index[p] <= node.log.len() + 1 by {
                    if p != from {
                        assert(n.next_index.contains_key(p));
                    }
                }
            }
            assert(h.keeper_inv(node));
        }
    }
    h
}

/// A leader starts a round.
proof fn lemma_tick_leader(
    h: History,
    members: Seq<NodeId>,
    n: NodeView,
    commands: Seq<Seq<char>>,
) -> (h2: History)
    requires
        h.inv(members),
        h.node_inv(members, n),
        n.state is Leader,
        n.log.len() + commands.len() < usize::MAX,
    ensures
        advances(h, h2, members, n, n.tick_leader(commands)),
{
    let term = n.current_term;
    let node = n.take_commands(commands);
    let old_reign = h.reigns[term];
    let reign = Reign { log: node.log, ..old_reign };
    let h2 = History {
        reigns: h.reigns.insert(term, reign),
        acks: h.acks.union(
            Set::new(
                |a: (NodeId, Term, int)| a.0 == n.id && a.1 == term && 1 <= a.2 <= node.log.len(),
            ),
        ),
        ..h
    };
    lemma_same_history(h);
    assert(h.reign_inv(members, term));
    assert(node.log.take(n.log.len() as int) =~= n.log);
    assert(h.grows(h2));
    assert forall|id: NodeId| id != n.id implies #[trigger] h.same_for(h2, id) by {
        assert forall|t: Term| #[trigger]
            h2.reigns.contains_key(t) && h2.reigns[t].leader == id implies h.reigns.contains_key(t)
            && h.reigns[t].log == h2.reigns[t].log by {
            assert(t != term);
        }
    }
    lemma_good_log_stable(h, h2, n.log);
    assert(h2.good_log(node.log)) by {
        assert forall|i: int| 0 <= i < node.log.len() implies #[trigger] h2.rooted(
            node.log,
            i,
        ) by {
            if i < n.log.len() {
                assert(h2.rooted(n.log, i));
                assert(node.log[i] == n.log[i]);
                assert(node.log.take(i + 1) =~= n.log.take(i + 1));
            } else {
                assert(node.log[i].term == term);
            }
        }
    }
    assert(ordered(node.log, term));
    assert(h2.inv(members)) by {
        assert forall|t: Term| #[trigger] h2.reigns.contains_key(t) implies h2.reign_inv(
            members,
            t,
        ) by {
            if t == term {
                let e = old_reign.elected_with;
                lemma_take_take(node.log, e.len() as int, n.log.len() as int);
                assert forall|i: int| e.len() <= i < node.log.len() implies (
                #[trigger] node.log[i]).term == t by {
                    if i < n.log.len() {
                        assert(node.log[i] == n.log[i]);
                        assert(old_reign.log[i].term == t);
                    }
                }
            } else {
                assert(h.reign_inv(members, t));
                lemma_good_log_stable(h, h2, h.reigns[t].log);
            }
        }
        assert forall|t: Term, v: NodeId| #[trigger] h2.ballots.contains_key(
            (t, v),
        ) implies h2.ballot_inv(t, v) by {
            assert(h.ballot_inv(t, v));
            lemma_good_log_stable(h, h2, h.ballots[(t, v)].log);
        }
        lemma_new_acks(h, h2, members, n);
    }
    assert(h2.node_inv(members, node)) by {
        law_tick_leader_keeps_node_valid(n, commands);
        let k = n.commit_index as int;
        lemma_covered_stable(h, h2, members, n.log, k, term);
        lemma_take_take(node.log, k, n.log.len() as int);
        lemma_covered_extends(h2, members, n.log, node.log, k, term, term);
        lemma_take_take(node.log, n.last_applied as int, n.log.len() as int);
        assert(h2.commit_inv(members, node));
        assert(h2.keeper_inv(node)) by {
            assert forall|t: Term, i: int| #[trigger] h2.acks.contains((n.id, t, i)) implies t
                <= term && (h2.handed_down(t, i, term + 1) ==> h2.has(node.log, t, i)) by {
                if h.acks.contains((n.id, t, i)) {
                    assert(h.ack_inv(members, n.id, t, i));
                    if h2.handed_down(t, i, term + 1) {
                        lemma_handed_down_stable(h, h2, t, i, term + 1);
                        assert(h.has(n.log, t, i));
                        lemma_has_stable(h, h2, n.log, t, i);
                        lemma_take_take(node.log, i, n.log.len() as int);
                    }
                }
            }
        }
        assert(h2.leader_inv(node)) by {
            assert forall|t: Term| #[trigger]
                h2.reigns.contains_key(t) && h2.reigns[t].leader == node.id implies t
                <= node.current_term && (t == node.current_term ==> node.state is Leader) by {
                assert(h.reigns.contains_key(t));
            }
            assert forall|p: NodeId, i: int|
                #![trigger node.match_index.contains_key(p), h2.acks.contains((p, node.current_term, i))]
                node.match_index.contains_key(p) && 1 <= i
                    <= node.match_index[p] implies h2.acks.contains((p, node.current_term, i)) by {
                assert(n.match_index.contains_key(p));
                assert(h.acks.contains((p, n.current_term, i)));
            }
        }
    }
    lemma_replication(h2, members, node);
    h2
}

/// A node takes a message.
pub proof fn lemma_handle_message(
    h: History,
    members: Seq<NodeId>,
    n: NodeView,
    now: u64,
    timeout: u64,
    msg: MessageView,
) -> (h2: History)
    requires
        members.no_duplicates(),
        h.inv(members),
        h.node_inv(members, n),
        n.accepts(msg),
        is_election_timeout(timeout),
        h.message_inv(members, n.id, msg),
    ensures
        advances(h, h2, members, n, n.handle_message(now, timeout, msg)),
{
    lemma_same_history(h);
    lemma_notice_term(h, members, n, msg);
    let s = n.notice_term(msg);
    let o = n.handle_message(now, timeout, msg);
    match msg {
        MessageView::RequestVote { term, from, last_log_index, last_log_term } => {
            lemma_handle_request_vote(
                h,
                members,
                s,
                now,
                timeout,
                term,
                from,
                last_log_index,
                last_log_term,
            )
        },
        MessageView::AppendEntries {
            term,
            from,
            prev_log_index,
            prev_log_term,
            entries,
            leader_commit,
        } => {
            lemma_handle_append_entries(
                h,
                members,
                s,
                now,
                timeout,
                term,
                from,
                prev_log_index,
                prev_log_term,
                entries,
                leader_commit,
            )
        },
        MessageView::VoteResponse { term, from, vote_granted } => {
            lemma_handle_vote_response(h, members, s, term, from, vote_granted)
        },
        MessageView::AppendEntriesResponse { term, from, success, match_index } => {
            lemma_handle_append_entries_response(h, members, s, term, from, success, match_index)
        },
        MessageView::PreVoteRequest { .. } => {
            assert(h.sent_inv(members, o.sent));
            h
        },
        MessageView::PreVoteResponse { term, from, vote_granted } => {
            lemma_handle_pre_vote_response(
                h,
                members,
                s,
                now,
                timeout,
                term,
                from,
                vote_granted,
            )
        },
    }
}

/// Something happens to node `id` of a cluster.
pub proof fn lemma_step(
    c: Cluster,
    c2: Cluster,
    h: History,
    id: NodeId,
    event: Event,
    now: u64,
    timeout: u64,
) -> (h2: History)
    requires
        cluster_inv(c, h),
        c.step(c2, id, event, now, timeout),
    ensures
        h.grows(h2),
        cluster_inv(c2, h2),
        c2.nodes[id].commit_index >= c.nodes[id].commit_index,
        c2.nodes[id].current_term >= c.nodes[id].current_term,
{
    let n = c.nodes[id];
    let o = c.outcome(id, event, now, timeout);
    let h2 = match event {
        Event::Deliver { msg } => {
            assert(c.network.contains(Envelope { to: id, msg }));
            lemma_handle_message(h, c.members, n, now, timeout, msg)
        },
        Event::Timeout => lemma_start_pre_election(h, c.members, n, now, timeout),
        Event::Lead { commands } => lemma_tick_leader(h, c.members, n, commands),
    };
    assert forall|v: NodeId| #[trigger] c2.members.contains(v) implies c2.nodes[v].id == v
        && h2.node_inv(c2.members, c2.nodes[v]) by {
        if v != id {
            assert(c2.nodes[v] == c.nodes[v]);
            assert(h.same_for(h2, v));
            lemma_node_stable(h, h2, c.members, c.nodes[v]);
        }
    }
    assert forall|e: Envelope| #[trigger] c2.network.contains(e) implies h2.message_inv(
        c2.members,
        e.to,
        e.msg,
    ) by {
        if c.network.contains(e) {
            lemma_message_stable(h, h2, c.members, e.to, e.msg);
        } else {
            let send = Request::Send { to: e.to, msg: e.msg };
            let broadcast = Request::Broadcast { msg: e.msg };
            if o.sent.contains(send) {
                let i = choose|i: int| 0 <= i < o.sent.len() && o.sent[i] == send;
                assert(h2.request_inv(c.members, o.sent[i]));
            } else {
                let i = choose|i: int| 0 <= i < o.sent.len() && o.sent[i] == broadcast;
                assert(h2.request_inv(c.members, o.sent[i]));
                assert(h2.message_inv(c.members, e.to, e.msg));
            }
        }
    }
    h2
}

} // verus!
