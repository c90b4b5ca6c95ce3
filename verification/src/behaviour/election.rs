//! Votes and pre-votes, asked for, given and counted.
use vstd::prelude::*;

use crate::model::{MessageView, NodeView, ReceivedView, Request};
use crate::node::{NodeId, NodeState, Term};

verus! {

/// A vote is given exactly to a candidate of the node's term or a later one that the node has not
/// refused by a vote for another in that term, and whose log ends in a later term than the
/// node's, or in the same term and is at least as long. The answer says so, in the later of the
/// two terms.
pub proof fn law_vote_is_given_to_up_to_date_candidate(
    s: NodeView,
    now: u64,
    timeout: u64,
    term: Term,
    from: NodeId,
    last_log_index: u64,
    last_log_term: Term,
)
    ensures
        ({
            let o = s.handle_message(
                now,
                timeout,
                MessageView::RequestVote { term, from, last_log_index, last_log_term },
            );
            let ours = if s.log.len() == 0 {
                0
            } else {
                s.log[s.log.len() - 1].term
            };
            let log_ok = last_log_term > ours || last_log_term == ours && last_log_index
                >= s.log.len();
            let free = term > s.current_term || term == s.current_term && (s.voted_for is None
                || s.voted_for == Some(from));
            &&& o.sent == seq![
                Request::Send {
                    to: from,
                    msg: MessageView::VoteResponse {
                        term: if term > s.current_term {
                            term
                        } else {
                            s.current_term
                        },
                        from: s.id,
                        vote_granted: free && log_ok,
                    },
                },
            ]
            &&& free && log_ok ==> {
                &&& o.node.voted_for == Some(from)
                &&& o.node.last_heard == now
                &&& o.node.election_timeout == timeout
            }
            &&& !(free && log_ok) ==> {
                &&& o.node.voted_for == if term > s.current_term {
                    None
                } else {
                    s.voted_for
                }
                &&& o.node.last_heard == s.last_heard
                &&& o.node.election_timeout == s.election_timeout
            }
        }),
{
}

/// Apart from the vote and the timer, being asked for a vote changes a node only where the term
/// is a later one: it becomes a follower of that term, and forgets what a leader keeps.
pub proof fn law_vote_request_changes_only_the_vote(
    s: NodeView,
    now: u64,
    timeout: u64,
    term: Term,
    from: NodeId,
    last_log_index: u64,
    last_log_term: Term,
)
    ensures
        ({
            let node = s.handle_message(
                now,
                timeout,
                MessageView::RequestVote { term, from, last_log_index, last_log_term },
            ).node;
            &&& node.id == s.id
            &&& node.peers == s.peers
            &&& node.log == s.log
            &&& node.commit_index == s.commit_index
            &&& node.last_applied == s.last_applied
            &&& node.state_machine == s.state_machine
            &&& node.votes_received == s.votes_received
            &&& if term > s.current_term {
                &&& node.current_term == term
                &&& node.state == NodeState::Follower
                &&& node.next_index == Map::<NodeId, u64>::empty()
                &&& node.match_index == Map::<NodeId, u64>::empty()
            } else {
                &&& node.current_term == s.current_term
                &&& node.state == s.state
                &&& node.next_index == s.next_index
                &&& node.match_index == s.match_index
            }
        }),
{
}

/// A pre-vote is granted exactly where the proposed term is a later one, the log would get the
/// vote, and the node has heard nothing for 150 ms. The answer names the proposed term, and the
/// node stays as it is.
pub proof fn law_pre_vote_is_granted_after_silence(
    s: NodeView,
    now: u64,
    timeout: u64,
    term: Term,
    from: NodeId,
    last_log_index: u64,
    last_log_term: Term,
)
    ensures
        ({
            let o = s.handle_message(
                now,
                timeout,
                MessageView::PreVoteRequest { term, from, last_log_index, last_log_term },
            );
            let ours = if s.log.len() == 0 {
                0
            } else {
                s.log[s.log.len() - 1].term
            };
            let log_ok = last_log_term > ours || last_log_term == ours && last_log_index
                >= s.log.len();
            &&& o.node == s
            &&& o.sent == seq![
                Request::Send {
                    to: from,
                    msg: MessageView::PreVoteResponse {
                        term,
                        from: s.id,
                        vote_granted: term > s.current_term && log_ok && now >= s.last_heard
                            + 150_000_000,
                    },
                },
            ]
        }),
{
}

/// A granted vote of the candidate's term makes it leader exactly where the voters, with the
/// sender, are more than half of the peers; otherwise it goes on as a candidate, with one voter
/// more.
pub proof fn law_majority_of_votes_makes_a_leader(
    s: NodeView,
    now: u64,
    timeout: u64,
    from: NodeId,
)
    requires
        s.state is Candidate,
        s.votes_received.finite(),
    ensures
        ({
            let o = s.handle_message(
                now,
                timeout,
                MessageView::VoteResponse { term: s.current_term, from, vote_granted: true },
            );
            let voters = s.votes_received.insert(from);
            &&& o.node.state is Leader <==> 2 * voters.len() > s.peers.len()
            &&& o.node.state is Candidate <==> 2 * voters.len() <= s.peers.len()
            &&& o.sent.len() == if 2 * voters.len() > s.peers.len() {
                s.peers.filter(|p: NodeId| p != s.id).len()
            } else {
                0
            }
            &&& o.node == NodeView {
                state: o.node.state,
                votes_received: voters,
                next_index: o.node.next_index,
                match_index: o.node.match_index,
                ..s
            }
            &&& o.node.state is Candidate ==> o.node.next_index == s.next_index
                && o.node.match_index == s.match_index
        }),
{
}

/// A vote that was refused, or is of an earlier term, or comes to a node that is no candidate,
/// counts for nothing.
pub proof fn law_other_votes_count_for_nothing(
    s: NodeView,
    now: u64,
    timeout: u64,
    term: Term,
    from: NodeId,
    vote_granted: bool,
)
    requires
        term <= s.current_term,
        !(s.state is Candidate) || term < s.current_term || !vote_granted,
    ensures
        ({
            let o = s.handle_message(
                now,
                timeout,
                MessageView::VoteResponse { term, from, vote_granted },
            );
            &&& o.node == s
            &&& o.sent.len() == 0
        }),
{
}

/// An answer of a later term, to a request for a vote or to entries, makes the node a follower of
/// that term without a vote; it says nothing and keeps its log, its timer and its state machine.
pub proof fn law_answer_of_later_term_makes_follower(
    s: NodeView,
    now: u64,
    timeout: u64,
    msg: MessageView,
)
    requires
        msg is VoteResponse || msg is AppendEntriesResponse,
        msg matches MessageView::VoteResponse { term, .. } ==> term > s.current_term,
        msg matches MessageView::AppendEntriesResponse { term, .. } ==> term > s.current_term,
    ensures
        ({
            let o = s.handle_message(now, timeout, msg);
            &&& o.sent.len() == 0
            &&& o.node == NodeView {
                current_term: match msg {
                    MessageView::VoteResponse { term, .. } => term,
                    MessageView::AppendEntriesResponse { term, .. } => term,
                    _ => s.current_term,
                },
                voted_for: None,
                state: NodeState::Follower,
                next_index: Map::empty(),
                match_index: Map::empty(),
                ..s
            }
        }),
{
}

/// A granted pre-vote for the term after the node's own makes it enter that term exactly where
/// those that granted theirs, with the sender, are more than half of the peers. It then votes for
/// itself alone, starts its timer, and asks all nodes for their votes, with the length and the
/// last term of its log.
pub proof fn law_majority_of_pre_votes_starts_an_election(
    s: NodeView,
    now: u64,
    timeout: u64,
    from: NodeId,
)
    requires
        s.state is PreCandidate,
        s.current_term < u64::MAX,
        s.votes_received.finite(),
        s.log.len() <= u64::MAX,
    ensures
        ({
            let o = s.handle_message(
                now,
                timeout,
                MessageView::PreVoteResponse {
                    term: (s.current_term + 1) as u64,
                    from,
                    vote_granted: true,
                },
            );
            let granted = s.votes_received.insert(from);
            let ours = if s.log.len() == 0 {
                0
            } else {
                s.log[s.log.len() - 1].term
            };
            &&& o.node.current_term == s.current_term + 1 <==> 2 * granted.len() > s.peers.len()
            &&& 2 * granted.len() <= s.peers.len() ==> {
                &&& o.node == NodeView { votes_received: granted, ..s }
                &&& o.sent.len() == 0
            }
            &&& 2 * granted.len() > s.peers.len() ==> {
                &&& o.node.state == if s.peers.len() < 2 {
                    NodeState::Leader
                } else {
                    NodeState::Candidate
                }
                &&& o.node == NodeView {
                    state: o.node.state,
                    current_term: (s.current_term + 1) as u64,
                    voted_for: Some(s.id),
                    votes_received: o.node.votes_received,
                    last_heard: now,
                    election_timeout: timeout,
                    next_index: o.node.next_index,
                    match_index: o.node.match_index,
                    ..s
                }
                &&& forall|v: NodeId| #[trigger] o.node.votes_received.contains(v) <==> v == s.id
                &&& o.sent.len() >= 1
                &&& o.sent[0] == Request::Broadcast {
                    msg: MessageView::RequestVote {
                        term: (s.current_term + 1) as u64,
                        from: s.id,
                        last_log_index: s.log.len() as u64,
                        last_log_term: ours,
                    },
                }
                &&& s.peers.len() < 2 ==> o.sent.len() == 1 + s.peers.filter(
                    |p: NodeId| p != s.id,
                ).len()
                &&& s.peers.len() >= 2 ==> {
                    &&& o.sent.len() == 1
                    &&& o.node.next_index == s.next_index
                    &&& o.node.match_index == s.match_index
                }
            }
        }),
{
    assert(Set::<NodeId>::empty().insert(s.id).len() == 1);
}

/// A pre-vote that was refused, or is for another term than the next, or comes to a node that
/// does not ask for pre-votes, counts for nothing.
pub proof fn law_other_pre_votes_count_for_nothing(
    s: NodeView,
    now: u64,
    timeout: u64,
    term: Term,
    from: NodeId,
    vote_granted: bool,
)
    requires
        !(s.state is PreCandidate) || term != s.current_term + 1 || !vote_granted,
    ensures
        ({
            let o = s.handle_message(
                now,
                timeout,
                MessageView::PreVoteResponse { term, from, vote_granted },
            );
            &&& o.node == s
            &&& o.sent.len() == 0
        }),
{
}

/// After a timeout the node asks all nodes whether they would vote for it in the next term, with
/// the length and the last term of its log, and starts its timer. With another peer it stays in
/// its term, with its vote, and counts only itself; without one it leads the next term.
pub proof fn law_timeout_asks_for_pre_votes(s: NodeView, now: u64, timeout: u64)
    requires
        s.current_term < u64::MAX,
        s.log.len() <= u64::MAX,
    ensures
        ({
            let o = s.tick(now, timeout, ReceivedView::Timeout);
            let ours = if s.log.len() == 0 {
                0
            } else {
                s.log[s.log.len() - 1].term
            };
            let asked = Request::Broadcast {
                msg: MessageView::PreVoteRequest {
                    term: (s.current_term + 1) as u64,
                    from: s.id,
                    last_log_index: s.log.len() as u64,
                    last_log_term: ours,
                },
            };
            &&& o.node.last_heard == now
            &&& o.node.election_timeout == timeout
            &&& forall|v: NodeId| #[trigger] o.node.votes_received.contains(v) <==> v == s.id
            &&& o.sent.len() >= 1
            &&& o.sent[0] == asked
            &&& s.peers.len() >= 2 ==> {
                &&& o.sent.len() == 1
                &&& o.node == NodeView {
                    state: NodeState::PreCandidate,
                    votes_received: o.node.votes_received,
                    last_heard: now,
                    election_timeout: timeout,
                    ..s
                }
            }
            &&& s.peers.len() < 2 ==> {
                &&& o.sent.len() == 2 + s.peers.filter(|p: NodeId| p != s.id).len()
                &&& o.sent[1] == Request::Broadcast {
                    msg: MessageView::RequestVote {
                        term: (s.current_term + 1) as u64,
                        from: s.id,
                        last_log_index: s.log.len() as u64,
                        last_log_term: ours,
                    },
                }
                &&& o.node == NodeView {
                    state: NodeState::Leader,
                    current_term: (s.current_term + 1) as u64,
                    voted_for: Some(s.id),
                    votes_received: o.node.votes_received,
                    last_heard: now,
                    election_timeout: timeout,
                    next_index: o.node.next_index,
                    match_index: o.node.match_index,
                    ..s
                }
            }
        }),
{
    assert(Set::<NodeId>::empty().insert(s.id).len() == 1);
}

/// A node that has just started is a follower of term 0 that has voted for nobody, knows of no
/// entry, and has started its timer.
pub proof fn law_node_starts_from_nothing(id: NodeId, peers: Seq<NodeId>, now: u64, timeout: u64)
    ensures
        ({
            let node = NodeView::started(id, peers, now, timeout);
            &&& node.id == id
            &&& node.peers == peers
            &&& node.state == NodeState::Follower
            &&& node.current_term == 0
            &&& node.voted_for is None
            &&& node.log.len() == 0
            &&& node.commit_index == 0
            &&& node.last_applied == 0
            &&& forall|key: Seq<char>| !#[trigger] node.state_machine.contains_key(key)
            &&& forall|p: NodeId| !#[trigger] node.next_index.contains_key(p)
            &&& forall|p: NodeId| !#[trigger] node.match_index.contains_key(p)
            &&& forall|p: NodeId| !#[trigger] node.votes_received.contains(p)
            &&& node.last_heard == now
            &&& node.election_timeout == timeout
        }),
{
}

} // verus!
