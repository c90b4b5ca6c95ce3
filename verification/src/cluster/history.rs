//! What the proofs remember of a run, and the invariant of a cluster.
use vstd::prelude::*;

use crate::cluster::system::Cluster;
use crate::model::{
    apply_entries, last_term, Envelope, LogEntryView, MessageView, NodeView, Request,
};
use crate::node::{NodeId, Term};

verus! {

/// A vote that was given.
pub struct Ballot {
    /// Who got it.
    pub candidate: NodeId,
    /// The log of the voter at that time.
    pub log: Seq<LogEntryView>,
    /// Whether the term had no leader yet.
    pub early: bool,
}

/// The leadership of a term.
pub struct Reign {
    pub leader: NodeId,
    /// The log of the leader when it was elected.
    pub elected_with: Seq<LogEntryView>,
    /// The longest log that it had as leader.
    pub log: Seq<LogEntryView>,
    /// The nodes whose votes it had when it was elected.
    pub electors: Set<NodeId>,
}

/// What is remembered of a run.
pub struct History {
    /// The vote of each node in each term.
    pub ballots: Map<(Term, NodeId), Ballot>,
    /// The log of each candidate in each term.
    pub candidacies: Map<(Term, NodeId), Seq<LogEntryView>>,
    /// The leader of each term.
    pub reigns: Map<Term, Reign>,
    /// The triples of a node, a term and an index such that the node, while in the term, had
    /// the log of the leader of that term up to the index.
    pub acks: Set<(NodeId, Term, int)>,
}

/// Whether a log is at least as up-to-date as another.
pub open spec fn log_up_to_date(a: Seq<LogEntryView>, b: Seq<LogEntryView>) -> bool {
    ||| last_term(a) > last_term(b)
    ||| last_term(a) == last_term(b) && a.len() >= b.len()
}

/// Whether the terms of a log never go back and are at most `bound`.
pub open spec fn ordered(log: Seq<LogEntryView>, bound: Term) -> bool {
    &&& forall|i: int, j: int| 0 <= i <= j < log.len() ==> log[i].term <= log[j].term
    &&& forall|i: int| 0 <= i < log.len() ==> (#[trigger] log[i]).term <= bound
}

/// Whether more than half of the members are in `q`.
pub open spec fn is_quorum(members: Seq<NodeId>, q: Set<NodeId>) -> bool {
    &&& q.finite()
    &&& forall|v: NodeId| #[trigger] q.contains(v) ==> members.contains(v)
    &&& q.len() > members.len() / 2
}

impl History {
    /// Whether `log` up to its entry at position `i` is the log of the leader of that entry's
    /// term.
    pub open spec fn rooted(self, log: Seq<LogEntryView>, i: int) -> bool {
        let t = log[i].term;
        &&& self.reigns.contains_key(t)
        &&& i < self.reigns[t].log.len()
        &&& log.take(i + 1) == self.reigns[t].log.take(i + 1)
    }

    /// Whether every entry of `log` stands behind what the leader of its term had before it.
    pub open spec fn good_log(self, log: Seq<LogEntryView>) -> bool {
        forall|i: int| 0 <= i < log.len() ==> #[trigger] self.rooted(log, i)
    }

    /// Whether `log` begins with the first `i` entries of the leader of term `t`.
    pub open spec fn has(self, log: Seq<LogEntryView>, t: Term, i: int) -> bool {
        &&& self.reigns.contains_key(t)
        &&& 0 <= i <= log.len()
        &&& i <= self.reigns[t].log.len()
        &&& log.take(i) == self.reigns[t].log.take(i)
    }

    /// Whether every leader of a term between `t` and `end`, both excluded, was elected with the
    /// first `i` entries of the leader of term `t`.
    pub open spec fn handed_down(self, t: Term, i: int, end: int) -> bool {
        forall|u: Term|
            t < u < end && #[trigger] self.reigns.contains_key(u) ==> self.has(
                self.reigns[u].elected_with,
                t,
                i,
            )
    }

    /// Whether the entry with index `i` of the leader of term `t` is of that term, and held by a
    /// majority.
    pub open spec fn committed(self, members: Seq<NodeId>, t: Term, i: int) -> bool {
        &&& self.reigns.contains_key(t)
        &&& 1 <= i <= self.reigns[t].log.len()
        &&& self.reigns[t].log[i - 1].term == t
        &&& exists|q: Set<NodeId>|
            is_quorum(members, q) && forall|v: NodeId| #[trigger]
                q.contains(v) ==> self.acks.contains((v, t, i))
    }

    /// Whether the first `k` entries of `log` are covered by what was committed up to term
    /// `bound`.
    pub open spec fn covered(
        self,
        members: Seq<NodeId>,
        log: Seq<LogEntryView>,
        k: int,
        bound: Term,
    ) -> bool {
        k == 0 || exists|t: Term, i: int| #[trigger]
            self.committed(members, t, i) && t <= bound && k <= i && self.has(log, t, k)
    }

    /// The leader of a term was elected by a majority of early votes, and its log is the one it
    /// was elected with, followed by entries of its term.
    pub open spec fn reign_inv(self, members: Seq<NodeId>, t: Term) -> bool {
        let r = self.reigns[t];
        &&& members.contains(r.leader)
        &&& r.elected_with.len() <= r.log.len()
        &&& r.log.take(r.elected_with.len() as int) == r.elected_with
        &&& forall|i: int|
            0 <= i < r.elected_with.len() ==> (#[trigger] r.elected_with[i]).term < t
        &&& forall|i: int| r.elected_with.len() <= i < r.log.len() ==> (#[trigger] r.log[i]).term == t
        &&& ordered(r.log, t)
        &&& self.good_log(r.log)
        &&& is_quorum(members, r.electors)
        &&& self.candidacies.contains_key((t, r.leader))
        &&& self.candidacies[(t, r.leader)] == r.elected_with
        &&& forall|v: NodeId| #[trigger]
            r.electors.contains(v) ==> {
                &&& self.ballots.contains_key((t, v))
                &&& self.ballots[(t, v)].candidate == r.leader
                &&& self.ballots[(t, v)].early
            }
    }

    /// A vote went to a candidate whose log was good enough.
    pub open spec fn ballot_inv(self, t: Term, v: NodeId) -> bool {
        let b = self.ballots[(t, v)];
        &&& self.good_log(b.log)
        &&& ordered(b.log, t)
        &&& self.candidacies.contains_key((t, b.candidate))
        &&& log_up_to_date(self.candidacies[(t, b.candidate)], b.log)
        &&& b.early || self.reigns.contains_key(t)
    }

    /// An acknowledgement is one of a member, for an entry of a leader.
    pub open spec fn ack_inv(self, members: Seq<NodeId>, v: NodeId, t: Term, i: int) -> bool {
        &&& members.contains(v)
        &&& self.reigns.contains_key(t)
        &&& 1 <= i <= self.reigns[t].log.len()
    }

    /// What a node acknowledged in a term is in its log when it votes in a later one, as long as
    /// the leaders in between hand it down.
    pub open spec fn kept_until_vote(self, v: NodeId, t: Term, i: int, later: Term) -> bool {
        t < later && self.ballots[(later, v)].early && self.handed_down(t, i, later as int)
            ==> self.has(self.ballots[(later, v)].log, t, i)
    }

    /// What holds of the history by itself.
    pub open spec fn inv(self, members: Seq<NodeId>) -> bool {
        &&& forall|t: Term| #[trigger] self.reigns.contains_key(t) ==> self.reign_inv(members, t)
        &&& forall|t: Term, v: NodeId| #[trigger]
            self.ballots.contains_key((t, v)) ==> self.ballot_inv(t, v)
        &&& forall|v: NodeId, t: Term, i: int| #[trigger]
            self.acks.contains((v, t, i)) ==> self.ack_inv(members, v, t, i)
        &&& forall|v: NodeId, t: Term, i: int, later: Term|
            #![trigger self.acks.contains((v, t, i)), self.ballots.contains_key((later, v))]
            self.acks.contains((v, t, i)) && self.ballots.contains_key((later, v))
                ==> self.kept_until_vote(v, t, i, later)
    }

    /// What holds of the log of a node.
    pub open spec fn log_inv(self, n: NodeView) -> bool {
        &&& self.good_log(n.log)
        &&& ordered(n.log, n.current_term)
    }

    /// The votes of a node lie in the terms that it has seen.
    pub open spec fn voter_inv(self, n: NodeView) -> bool {
        &&& forall|t: Term| #[trigger]
            self.ballots.contains_key((t, n.id)) ==> t <= n.current_term
        &&& match n.voted_for {
            Some(c) => self.ballots.contains_key((n.current_term, n.id)) && self.ballots[(
                n.current_term,
                n.id,
            )].candidate == c,
            None => !self.ballots.contains_key((n.current_term, n.id)),
        }
    }

    /// A candidate counts votes that it was given, with a log that it does not change.
    pub open spec fn candidate_inv(self, members: Seq<NodeId>, n: NodeView) -> bool {
        &&& forall|t: Term| #[trigger]
            self.candidacies.contains_key((t, n.id)) ==> t <= n.current_term
        &&& n.state is Candidate ==> {
            &&& self.candidacies.contains_key((n.current_term, n.id))
            &&& self.candidacies[(n.current_term, n.id)] == n.log
            &&& forall|i: int| 0 <= i < n.log.len() ==> (#[trigger] n.log[i]).term < n.current_term
            &&& forall|v: NodeId| #[trigger]
                n.votes_received.contains(v) ==> {
                    &&& members.contains(v)
                    &&& self.ballots.contains_key((n.current_term, v))
                    &&& self.ballots[(n.current_term, v)].candidate == n.id
                }
        }
    }

    /// A leader has the log of its term, knows of followers only what they acknowledged, and
    /// stays leader as long as its term lasts.
    pub open spec fn leader_inv(self, n: NodeView) -> bool {
        &&& forall|t: Term| #[trigger]
            self.reigns.contains_key(t) && self.reigns[t].leader == n.id ==> t <= n.current_term
                && (t == n.current_term ==> n.state is Leader)
        &&& n.state is Leader ==> {
            &&& self.reigns.contains_key(n.current_term)
            &&& self.reigns[n.current_term].leader == n.id
            &&& self.reigns[n.current_term].log == n.log
            &&& forall|i: int|
                1 <= i <= n.log.len() ==> #[trigger] self.acks.contains((n.id, n.current_term, i))
            &&& forall|p: NodeId| #[trigger]
                n.match_index.contains_key(p) ==> n.match_index[p] <= n.log.len()
            &&& forall|p: NodeId, i: int|
                #![trigger n.match_index.contains_key(p), self.acks.contains((p, n.current_term, i))]
                n.match_index.contains_key(p) && 1 <= i <= n.match_index[p] ==> self.acks.contains(
                    (p, n.current_term, i),
                )
            &&& forall|p: NodeId| #[trigger]
                n.next_index.contains_key(p) ==> 1 <= n.next_index[p] <= n.log.len() + 1
        }
    }

    /// What a node acknowledged is in its log, as long as the leaders since then hand it down.
    pub open spec fn keeper_inv(self, n: NodeView) -> bool {
        forall|t: Term, i: int| #[trigger]
            self.acks.contains((n.id, t, i)) ==> t <= n.current_term && (self.handed_down(
                t,
                i,
                n.current_term + 1,
            ) ==> self.has(n.log, t, i))
    }

    /// What a node has committed is covered, and what it has applied is the beginning of that.
    pub open spec fn commit_inv(self, members: Seq<NodeId>, n: NodeView) -> bool {
        &&& n.last_applied <= n.commit_index <= n.log.len()
        &&& self.covered(members, n.log, n.commit_index as int, n.current_term)
        &&& n.state_machine == apply_entries(Map::empty(), n.log.take(n.last_applied as int))
    }

    /// What holds of a node.
    pub open spec fn node_inv(self, members: Seq<NodeId>, n: NodeView) -> bool {
        &&& n.wf()
        &&& members.contains(n.id)
        &&& n.peers == members
        &&& self.log_inv(n)
        &&& self.voter_inv(n)
        &&& self.candidate_inv(members, n)
        &&& self.leader_inv(n)
        &&& self.keeper_inv(n)
        &&& self.commit_inv(members, n)
    }

    /// What holds of a message to node `to`.
    pub open spec fn message_inv(self, members: Seq<NodeId>, to: NodeId, msg: MessageView) -> bool {
        match msg {
            MessageView::RequestVote { term, from, last_log_index, last_log_term } => {
                &&& self.candidacies.contains_key((term, from))
                &&& last_log_index == self.candidacies[(term, from)].len()
                &&& last_log_term == last_term(self.candidacies[(term, from)])
            },
            MessageView::VoteResponse { term, from, vote_granted } => vote_granted ==> {
                &&& members.contains(from)
                &&& self.ballots.contains_key((term, from))
                &&& self.ballots[(term, from)].candidate == to
            },
            MessageView::AppendEntries {
                term,
                from,
                prev_log_index,
                prev_log_term,
                entries,
                leader_commit,
            } => {
                &&& self.reigns.contains_key(term)
                &&& to != self.reigns[term].leader
                &&& prev_log_index + entries.len() <= self.reigns[term].log.len()
                &&& entries == self.reigns[term].log.subrange(
                    prev_log_index as int,
                    prev_log_index + entries.len(),
                )
                &&& prev_log_index > 0 ==> prev_log_term == self.reigns[term].log[prev_log_index
                    - 1].term
                &&& leader_commit <= prev_log_index + entries.len()
                &&& self.covered(members, self.reigns[term].log, leader_commit as int, term)
            },
            MessageView::AppendEntriesResponse { term, from, success, match_index } => success ==> {
                &&& members.contains(from)
                &&& self.reigns.contains_key(term)
                &&& match_index <= self.reigns[term].log.len()
                &&& forall|i: int|
                    1 <= i <= match_index ==> #[trigger] self.acks.contains((from, term, i))
            },
            _ => true,
        }
    }

    /// What holds of a request to a transport.
    pub open spec fn request_inv(self, members: Seq<NodeId>, r: Request) -> bool {
        match r {
            Request::Send { to, msg } => self.message_inv(members, to, msg),
            Request::Broadcast { msg } => forall|to: NodeId| #[trigger]
                self.message_inv(members, to, msg),
        }
    }

    /// What holds of a sequence of requests to a transport.
    pub open spec fn sent_inv(self, members: Seq<NodeId>, sent: Seq<Request>) -> bool {
        forall|i: int| 0 <= i < sent.len() ==> self.request_inv(members, #[trigger] sent[i])
    }

    /// Whether `later` remembers all of `self`.
    pub open spec fn grows(self, later: History) -> bool {
        &&& forall|k: (Term, NodeId)| #[trigger]
            self.ballots.contains_key(k) ==> later.ballots.contains_key(k) && later.ballots[k]
                == self.ballots[k]
        &&& forall|k: (Term, NodeId)| #[trigger]
            self.candidacies.contains_key(k) ==> later.candidacies.contains_key(k)
                && later.candidacies[k] == self.candidacies[k]
        &&& forall|t: Term| #[trigger]
            self.reigns.contains_key(t) ==> {
                &&& later.reigns.contains_key(t)
                &&& later.reigns[t].leader == self.reigns[t].leader
                &&& later.reigns[t].elected_with == self.reigns[t].elected_with
                &&& later.reigns[t].electors == self.reigns[t].electors
                &&& self.reigns[t].log.len() <= later.reigns[t].log.len()
                &&& later.reigns[t].log.take(self.reigns[t].log.len() as int) == self.reigns[t].log
            }
        &&& forall|a: (NodeId, Term, int)| #[trigger]
            self.acks.contains(a) ==> later.acks.contains(a)
    }

    /// Whether `later` remembers nothing more than `self` of what node `id` did itself.
    pub open spec fn same_for(self, later: History, id: NodeId) -> bool {
        &&& forall|t: Term| #[trigger]
            later.ballots.contains_key((t, id)) ==> self.ballots.contains_key((t, id))
        &&& forall|t: Term| #[trigger]
            later.candidacies.contains_key((t, id)) ==> self.candidacies.contains_key((t, id))
        &&& forall|t: Term| #[trigger]
            later.reigns.contains_key(t) && later.reigns[t].leader == id
                ==> self.reigns.contains_key(t) && self.reigns[t].log == later.reigns[t].log
        &&& forall|t: Term, i: int| #[trigger]
            later.acks.contains((id, t, i)) ==> self.acks.contains((id, t, i))
    }
}

/// The invariant of a cluster with a history.
pub open spec fn cluster_inv(c: Cluster, h: History) -> bool {
    &&& c.members.no_duplicates()
    &&& h.inv(c.members)
    &&& forall|id: NodeId| #[trigger]
        c.members.contains(id) ==> c.nodes[id].id == id && h.node_inv(c.members, c.nodes[id])
    &&& forall|e: Envelope| #[trigger]
        c.network.contains(e) ==> h.message_inv(c.members, e.to, e.msg)
}

// ------------------------------------------------------------------------------------------
// What is remembered stays true.
// ------------------------------------------------------------------------------------------

/// The beginning of a beginning is a beginning.
pub proof fn lemma_take_take<A>(s: Seq<A>, i: int, j: int)
    requires
        0 <= i <= j <= s.len(),
    ensures
        s.take(j).take(i) == s.take(i),
{
    assert(s.take(j).take(i) =~= s.take(i));
}

/// Where two sequences agree on `j` elements they agree on fewer.
pub proof fn lemma_agree_less<A>(a: Seq<A>, b: Seq<A>, i: int, j: int)
    requires
        0 <= i <= j <= a.len(),
        j <= b.len(),
        a.take(j) == b.take(j),
    ensures
        a.take(i) == b.take(i),
{
    lemma_take_take(a, i, j);
    lemma_take_take(b, i, j);
}

/// A log that begins with `j` entries of a leader begins with fewer of them.
pub proof fn lemma_has_less(h: History, log: Seq<LogEntryView>, t: Term, i: int, j: int)
    requires
        h.has(log, t, j),
        0 <= i <= j,
    ensures
        h.has(log, t, i),
{
    lemma_agree_less(log, h.reigns[t].log, i, j);
}

/// The log of a leader only grows at its end.
pub proof fn lemma_reign_log_stable(h: History, h2: History, t: Term, i: int)
    requires
        h.grows(h2),
        h.reigns.contains_key(t),
        0 <= i <= h.reigns[t].log.len(),
    ensures
        h2.reigns[t].log.take(i) == h.reigns[t].log.take(i),
        forall|k: int| 0 <= k < i ==> h2.reigns[t].log[k] == h.reigns[t].log[k],
{
    let l = h.reigns[t].log;
    let l2 = h2.reigns[t].log;
    lemma_take_take(l2, i, l.len() as int);
    assert forall|k: int| 0 <= k < i implies l2[k] == l[k] by {
        assert(l2.take(l.len() as int)[k] == l2[k]);
    }
}

/// A good log stays good.
pub proof fn lemma_good_log_stable(h: History, h2: History, log: Seq<LogEntryView>)
    requires
        h.grows(h2),
        h.good_log(log),
    ensures
        h2.good_log(log),
{
    assert forall|i: int| 0 <= i < log.len() implies #[trigger] h2.rooted(log, i) by {
        assert(h.rooted(log, i));
        lemma_reign_log_stable(h, h2, log[i].term, i + 1);
    }
}

/// What a log begins with stays what it was.
pub proof fn lemma_has_stable(h: History, h2: History, log: Seq<LogEntryView>, t: Term, i: int)
    requires
        h.grows(h2),
        h.reigns.contains_key(t),
        i <= h.reigns[t].log.len(),
    ensures
        h.has(log, t, i) == h2.has(log, t, i),
{
    if 0 <= i {
        lemma_reign_log_stable(h, h2, t, i);
    }
}

/// What leaders hand down now, they handed down before.
pub proof fn lemma_handed_down_stable(h: History, h2: History, t: Term, i: int, end: int)
    requires
        h.grows(h2),
        h.reigns.contains_key(t),
        i <= h.reigns[t].log.len(),
        h2.handed_down(t, i, end),
    ensures
        h.handed_down(t, i, end),
{
    assert forall|u: Term| t < u < end && #[trigger] h.reigns.contains_key(u) implies h.has(
        h.reigns[u].elected_with,
        t,
        i,
    ) by {
        assert(h2.reigns.contains_key(u));
        lemma_has_stable(h, h2, h.reigns[u].elected_with, t, i);
    }
}

/// What is committed stays committed.
pub proof fn lemma_committed_stable(
    h: History,
    h2: History,
    members: Seq<NodeId>,
    t: Term,
    i: int,
)
    requires
        h.grows(h2),
        h.committed(members, t, i),
    ensures
        h2.committed(members, t, i),
{
    lemma_reign_log_stable(h, h2, t, i);
    let q = choose|q: Set<NodeId>|
        is_quorum(members, q) && forall|v: NodeId| #[trigger]
            q.contains(v) ==> h.acks.contains((v, t, i));
    assert(forall|v: NodeId| #[trigger] q.contains(v) ==> h2.acks.contains((v, t, i)));
}

/// What is covered stays covered.
pub proof fn lemma_covered_stable(
    h: History,
    h2: History,
    members: Seq<NodeId>,
    log: Seq<LogEntryView>,
    k: int,
    bound: Term,
)
    requires
        h.grows(h2),
        h.covered(members, log, k, bound),
    ensures
        h2.covered(members, log, k, bound),
{
    if k != 0 {
        let (t, i) = choose|t: Term, i: int| #[trigger]
            h.committed(members, t, i) && t <= bound && k <= i && h.has(log, t, k);
        lemma_committed_stable(h, h2, members, t, i);
        lemma_has_stable(h, h2, log, t, k);
    }
}

/// A longer log, or one of a later term, is covered as far as it was.
pub proof fn lemma_covered_extends(
    h: History,
    members: Seq<NodeId>,
    log: Seq<LogEntryView>,
    log2: Seq<LogEntryView>,
    k: int,
    bound: Term,
    bound2: Term,
)
    requires
        h.covered(members, log, k, bound),
        bound <= bound2,
        0 <= k <= log.len(),
        k <= log2.len(),
        log2.take(k) == log.take(k),
    ensures
        h.covered(members, log2, k, bound2),
{
    if k != 0 {
        let (t, i) = choose|t: Term, i: int| #[trigger]
            h.committed(members, t, i) && t <= bound && k <= i && h.has(log, t, k);
        assert(h.has(log2, t, k));
        assert(h.committed(members, t, i) && t <= bound2 && k <= i && h.has(log2, t, k));
    }
}

/// A message keeps its invariant.
pub proof fn lemma_message_stable(
    h: History,
    h2: History,
    members: Seq<NodeId>,
    to: NodeId,
    msg: MessageView,
)
    requires
        h.grows(h2),
        h.message_inv(members, to, msg),
    ensures
        h2.message_inv(members, to, msg),
{
    match msg {
        MessageView::AppendEntries {
            term,
            prev_log_index,
            prev_log_term,
            entries,
            leader_commit,
            ..
        } => {
            let l = h.reigns[term].log;
            let l2 = h2.reigns[term].log;
            let end = prev_log_index + entries.len();
            lemma_reign_log_stable(h, h2, term, l.len() as int);
            assert(l2.subrange(prev_log_index as int, end as int) =~= l.subrange(
                prev_log_index as int,
                end as int,
            ));
            assert(h2.reigns.contains_key(term));
            if prev_log_index > 0 {
                assert(l2[prev_log_index - 1] == l[prev_log_index - 1]);
            }
            lemma_covered_stable(h, h2, members, l, leader_commit as int, term);
            lemma_reign_log_stable(h, h2, term, leader_commit as int);
            lemma_covered_extends(h2, members, l, l2, leader_commit as int, term, term);
        },
        MessageView::AppendEntriesResponse { term, from, success, match_index } => {
            if success {
                lemma_reign_log_stable(h, h2, term, match_index as int);
                assert forall|i: int| 1 <= i <= match_index implies #[trigger] h2.acks.contains(
                    (from, term, i),
                ) by {
                    assert(h.acks.contains((from, term, i)));
                }
            }
        },
        _ => {},
    }
}

/// Requests keep their invariant.
pub proof fn lemma_sent_stable(h: History, h2: History, members: Seq<NodeId>, sent: Seq<Request>)
    requires
        h.grows(h2),
        h.sent_inv(members, sent),
    ensures
        h2.sent_inv(members, sent),
{
    assert forall|i: int| 0 <= i < sent.len() implies h2.request_inv(
        members,
        #[trigger] sent[i],
    ) by {
        assert(h.request_inv(members, sent[i]));
        match sent[i] {
            Request::Send { to, msg } => {
                lemma_message_stable(h, h2, members, to, msg);
            },
            Request::Broadcast { msg } => {
                assert forall|to: NodeId| #[trigger] h2.message_inv(members, to, msg) by {
                    assert(h.message_inv(members, to, msg));
                    lemma_message_stable(h, h2, members, to, msg);
                }
            },
        }
    }
}

/// Requests after requests.
pub proof fn lemma_sent_concat(h: History, members: Seq<NodeId>, a: Seq<Request>, b: Seq<Request>)
    requires
        h.sent_inv(members, a),
        h.sent_inv(members, b),
    ensures
        h.sent_inv(members, a + b),
{
    assert forall|i: int| 0 <= i < (a + b).len() implies h.request_inv(
        members,
        #[trigger] (a + b)[i],
    ) by {
        if i < a.len() {
            assert((a + b)[i] == a[i]);
        } else {
            assert((a + b)[i] == b[i - a.len()]);
        }
    }
}

/// A node to which nothing happens keeps its invariant.
pub proof fn lemma_node_stable(h: History, h2: History, members: Seq<NodeId>, n: NodeView)
    requires
        h.grows(h2),
        h.same_for(h2, n.id),
        h.inv(members),
        h.node_inv(members, n),
    ensures
        h2.node_inv(members, n),
{
    lemma_good_log_stable(h, h2, n.log);
    lemma_covered_stable(h, h2, members, n.log, n.commit_index as int, n.current_term);
    assert(h2.keeper_inv(n)) by {
        assert forall|t: Term, i: int| #[trigger] h2.acks.contains((n.id, t, i)) implies t
            <= n.current_term && (h2.handed_down(t, i, n.current_term + 1) ==> h2.has(
            n.log,
            t,
            i,
        )) by {
            assert(h.acks.contains((n.id, t, i)));
            assert(h.ack_inv(members, n.id, t, i));
            if h2.handed_down(t, i, n.current_term + 1) {
                lemma_handed_down_stable(h, h2, t, i, n.current_term + 1);
                lemma_has_stable(h, h2, n.log, t, i);
            }
        }
    }
    assert(h2.leader_inv(n)) by {
        assert forall|t: Term| #[trigger]
            h2.reigns.contains_key(t) && h2.reigns[t].leader == n.id implies t <= n.current_term
            && (t == n.current_term ==> n.state is Leader) by {
            assert(h.reigns.contains_key(t));
        }
        if n.state is Leader {
            assert(h.reigns.contains_key(n.current_term));
            assert forall|i: int| 1 <= i <= n.log.len() implies #[trigger] h2.acks.contains(
                (n.id, n.current_term, i),
            ) by {
                assert(h.acks.contains((n.id, n.current_term, i)));
            }
            assert forall|p: NodeId, i: int|
                #![trigger n.match_index.contains_key(p), h2.acks.contains((p, n.current_term, i))]
                n.match_index.contains_key(p) && 1 <= i
                    <= n.match_index[p] implies h2.acks.contains((p, n.current_term, i)) by {
                assert(h.acks.contains((p, n.current_term, i)));
            }
        }
    }
    assert(h2.candidate_inv(members, n)) by {
        if n.state is Candidate {
            assert forall|v: NodeId| #[trigger] n.votes_received.contains(v) implies {
                &&& members.contains(v)
                &&& h2.ballots.contains_key((n.current_term, v))
                &&& h2.ballots[(n.current_term, v)].candidate == n.id
            } by {
                assert(h.ballots.contains_key((n.current_term, v)));
            }
        }
    }
}

} // verus!
