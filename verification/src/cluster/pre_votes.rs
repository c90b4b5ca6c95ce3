//! No term starts without a pre-vote round that a majority confirms.
use vstd::prelude::*;

use crate::cluster::history::is_quorum;
use crate::cluster::safety::lemma_invariant;
use crate::cluster::system::{is_run, Cluster, Event};
use crate::model::{Envelope, MessageView, NodeView, Outcome, Request};
use crate::node::{NodeId, NodeState, Term};

verus! {

/// Whether, by state `at` of a run, node `v` has granted node `a` its pre-vote for term `t`: its
/// answer was sent, and in an earlier state it had been asked by `a` and was willing to vote.
pub open spec fn granted_pre_vote(
    run: Seq<Cluster>,
    at: int,
    v: NodeId,
    a: NodeId,
    t: Term,
) -> bool {
    &&& run[at].network.contains(
        Envelope {
            to: a,
            msg: MessageView::PreVoteResponse { term: t, from: v, vote_granted: true },
        },
    )
    &&& exists|i: int, now: u64, last_log_index: u64, last_log_term: Term|
        0 <= i < at && was_willing(run[i], v, a, t, now, last_log_index, last_log_term)
}

/// Whether node `v` of a cluster has been asked by node `a` whether it would vote in term `t`,
/// and would, at `now`.
pub open spec fn was_willing(
    c: Cluster,
    v: NodeId,
    a: NodeId,
    t: Term,
    now: u64,
    last_log_index: u64,
    last_log_term: Term,
) -> bool {
    &&& c.network.contains(
        Envelope {
            to: v,
            msg: MessageView::PreVoteRequest { term: t, from: a, last_log_index, last_log_term },
        },
    )
    &&& c.nodes[v].grants_pre_vote(now, t, last_log_index, last_log_term)
}

/// Whether, by state `at` of a run, more than half of the members have said that they would vote
/// for node `a` in term `t`: the node itself, and others that granted their pre-vote.
pub open spec fn confirmed(run: Seq<Cluster>, at: int, a: NodeId, t: Term) -> bool {
    exists|q: Set<NodeId>| #[trigger]
        is_quorum(run[at].members, q) && q.contains(a) && forall|v: NodeId| #[trigger]
            q.contains(v) ==> v == a || granted_pre_vote(run, at, v, a, t)
}

/// Whether, by state `at` of a run, some member was confirmed for term `t`.
pub open spec fn opened(run: Seq<Cluster>, at: int, t: Term) -> bool {
    exists|a: NodeId| run[at].members.contains(a) && #[trigger] confirmed(run, at, a, t)
}

/// A node that asks for pre-votes counts only what it was granted, and itself.
spec fn counts_pre_votes(run: Seq<Cluster>, at: int, n: NodeView) -> bool {
    n.state is PreCandidate ==> {
        &&& n.votes_received.contains(n.id)
        &&& forall|v: NodeId| #[trigger]
            n.votes_received.contains(v) ==> run[at].members.contains(v) && (v == n.id
                || granted_pre_vote(run, at, v, n.id, (n.current_term + 1) as u64))
    }
}

/// What holds of a node.
spec fn node_ok(run: Seq<Cluster>, at: int, n: NodeView) -> bool {
    &&& counts_pre_votes(run, at, n)
    &&& n.state is Candidate || n.state is Leader ==> confirmed(run, at, n.id, n.current_term)
    &&& n.current_term > 0 ==> opened(run, at, n.current_term)
}

/// What holds of a message to node `to`.
spec fn message_ok(run: Seq<Cluster>, at: int, to: NodeId, msg: MessageView) -> bool {
    &&& !msg.is_pre_vote() && msg.term() > 0 ==> opened(run, at, msg.term())
    &&& msg matches MessageView::PreVoteResponse { term, from, vote_granted } ==> (vote_granted
        ==> run[at].members.contains(from) && granted_pre_vote(run, at, from, to, term))
}

/// What holds of every state of a run.
spec fn state_ok(run: Seq<Cluster>, at: int) -> bool {
    &&& forall|id: NodeId| #[trigger]
        run[at].members.contains(id) ==> node_ok(run, at, run[at].nodes[id])
    &&& forall|e: Envelope| #[trigger]
        run[at].network.contains(e) ==> message_ok(run, at, e.to, e.msg)
}

/// The message of a request to a transport.
spec fn message_of(r: Request) -> MessageView {
    match r {
        Request::Send { msg, .. } => msg,
        Request::Broadcast { msg } => msg,
    }
}

/// Whether what a node sends outside of a pre-vote round carries the term that it ends up in,
/// and no pre-vote is granted.
spec fn speaks_in_its_term(o: Outcome) -> bool {
    forall|i: int|
        0 <= i < o.sent.len() ==> {
            let msg = message_of(#[trigger] o.sent[i]);
            &&& msg.is_pre_vote() || msg.term() == o.node.current_term
            &&& !(msg is PreVoteResponse)
        }
}

/// Replication carries the term of the leader.
proof fn lemma_become_leader_speaks(n: NodeView)
    ensures
        speaks_in_its_term(n.become_leader()),
{
}

/// An election carries the term that it is for.
proof fn lemma_start_election_speaks(n: NodeView, now: u64, timeout: u64)
    ensures
        speaks_in_its_term(n.start_election(now, timeout)),
{
    let node = NodeView {
        state: NodeState::Candidate,
        current_term: (n.current_term + 1) as u64,
        voted_for: Some(n.id),
        votes_received: Set::empty().insert(n.id),
        ..n.armed(now, timeout)
    };
    lemma_become_leader_speaks(node);
}

/// Every node speaks in its own term.
proof fn lemma_speaks(c: Cluster, id: NodeId, event: Event, now: u64, timeout: u64)
    requires
        !(event matches Event::Deliver { msg } && msg is PreVoteRequest),
    ensures
        speaks_in_its_term(c.outcome(id, event, now, timeout)),
{
    let n = c.nodes[id];
    match event {
        Event::Deliver { msg } => {
            let s = n.notice_term(msg);
            match msg {
                MessageView::VoteResponse { from, .. } => {
                    lemma_become_leader_speaks(
                        NodeView { votes_received: s.votes_received.insert(from), ..s },
                    );
                },
                MessageView::PreVoteResponse { from, .. } => {
                    lemma_start_election_speaks(
                        NodeView { votes_received: s.votes_received.insert(from), ..s },
                        now,
                        timeout,
                    );
                },
                _ => {},
            }
        },
        Event::Timeout => {
            let node = NodeView {
                state: NodeState::PreCandidate,
                votes_received: Set::empty().insert(n.id),
                ..n.armed(now, timeout)
            };
            lemma_start_election_speaks(node, now, timeout);
        },
        Event::Lead { .. } => {},
    }
}

/// What was granted stays granted.
proof fn lemma_granted_stays(run: Seq<Cluster>, at: int, v: NodeId, a: NodeId, t: Term)
    requires
        0 < at < run.len(),
        run[at - 1].network.subset_of(run[at].network),
        granted_pre_vote(run, at - 1, v, a, t),
    ensures
        granted_pre_vote(run, at, v, a, t),
{
}

/// What was confirmed stays confirmed.
proof fn lemma_confirmed_stays(run: Seq<Cluster>, at: int, a: NodeId, t: Term)
    requires
        0 < at < run.len(),
        run[at].members == run[at - 1].members,
        run[at - 1].network.subset_of(run[at].network),
        confirmed(run, at - 1, a, t),
    ensures
        confirmed(run, at, a, t),
{
    let q = choose|q: Set<NodeId>| #[trigger]
        is_quorum(run[at - 1].members, q) && q.contains(a) && forall|v: NodeId| #[trigger]
            q.contains(v) ==> v == a || granted_pre_vote(run, at - 1, v, a, t);
    assert forall|v: NodeId| #[trigger] q.contains(v) implies v == a || granted_pre_vote(
        run,
        at,
        v,
        a,
        t,
    ) by {
        if v != a {
            lemma_granted_stays(run, at, v, a, t);
        }
    }
    assert(is_quorum(run[at].members, q));
}

/// A term that was opened stays so.
proof fn lemma_opened_stays(run: Seq<Cluster>, at: int, t: Term)
    requires
        0 < at < run.len(),
        run[at].members == run[at - 1].members,
        run[at - 1].network.subset_of(run[at].network),
        opened(run, at - 1, t),
    ensures
        opened(run, at, t),
{
    let a = choose|a: NodeId|
        run[at - 1].members.contains(a) && #[trigger] confirmed(run, at - 1, a, t);
    lemma_confirmed_stays(run, at, a, t);
}

/// Every member is a valid node that knows its name and the members.
proof fn lemma_member(run: Seq<Cluster>, at: int, id: NodeId)
    requires
        is_run(run),
        0 <= at < run.len(),
        run[at].members.contains(id),
    ensures
        run[at].nodes[id].id == id,
        run[at].nodes[id].wf(),
        run[at].nodes[id].peers == run[at].members,
{
    let h = lemma_invariant(run, at);
    assert(h.node_inv(run[at].members, run[at].nodes[id]));
}

/// What a message makes of a node's part in elections, apart from a pre-vote that counts: it
/// neither enters an election nor leads unless it did so in the same term, and its term changes
/// only to that of the message.
proof fn lemma_message_starts_no_election(n: NodeView, now: u64, timeout: u64, msg: MessageView)
    requires
        !(msg is PreVoteResponse),
    ensures
        ({
            let node = n.handle_message(now, timeout, msg).node;
            &&& node.id == n.id
            &&& node.current_term == n.current_term || !msg.is_pre_vote() && node.current_term
                == msg.term()
            &&& node.state is PreCandidate ==> {
                &&& n.state is PreCandidate
                &&& node.current_term == n.current_term
                &&& node.votes_received == n.votes_received
            }
            &&& node.state is Candidate || node.state is Leader ==> {
                &&& n.state is Candidate || n.state is Leader
                &&& node.current_term == n.current_term
            }
        }),
{
}

/// A node to which nothing happens keeps what holds of it.
proof fn lemma_node_stays(run: Seq<Cluster>, at: int, n: NodeView)
    requires
        0 < at < run.len(),
        run[at].members == run[at - 1].members,
        run[at - 1].network.subset_of(run[at].network),
        node_ok(run, at - 1, n),
    ensures
        node_ok(run, at, n),
{
    if n.current_term > 0 {
        lemma_opened_stays(run, at, n.current_term);
    }
    if n.state is Candidate || n.state is Leader {
        lemma_confirmed_stays(run, at, n.id, n.current_term);
    }
    if n.state is PreCandidate {
        let t = (n.current_term + 1) as u64;
        assert forall|v: NodeId| #[trigger] n.votes_received.contains(
            v,
        ) implies run[at].members.contains(v) && (v == n.id || granted_pre_vote(
            run,
            at,
            v,
            n.id,
            t,
        )) by {
            if v != n.id {
                lemma_granted_stays(run, at, v, n.id, t);
            }
        }
    }
}

/// A node that has counted a majority of pre-votes and starts the election is confirmed for it.
proof fn lemma_election_ok(run: Seq<Cluster>, at: int, n: NodeView, now: u64, timeout: u64)
    requires
        run[at].members.contains(n.id),
        counts_pre_votes(run, at, n),
        n.state is PreCandidate,
        n.wf(),
        n.peers == run[at].members,
        n.has_majority(),
    ensures
        node_ok(run, at, n.start_election(now, timeout).node),
{
    let t = (n.current_term + 1) as u64;
    assert(is_quorum(run[at].members, n.votes_received));
    assert(confirmed(run, at, n.id, t));
    assert(opened(run, at, t));
}

/// A node counts a pre-vote.
proof fn lemma_pre_vote_ok(
    run: Seq<Cluster>,
    at: int,
    n: NodeView,
    now: u64,
    timeout: u64,
    term: Term,
    from: NodeId,
    vote_granted: bool,
)
    requires
        run[at].members.contains(n.id),
        node_ok(run, at, n),
        n.wf(),
        n.peers == run[at].members,
        message_ok(run, at, n.id, MessageView::PreVoteResponse { term, from, vote_granted }),
    ensures
        node_ok(
            run,
            at,
            n.handle_pre_vote_response(now, timeout, term, from, vote_granted).node,
        ),
{
    if n.state is PreCandidate && term == n.current_term + 1 && vote_granted {
        let counted = NodeView { votes_received: n.votes_received.insert(from), ..n };
        assert(counts_pre_votes(run, at, counted));
        if counted.has_majority() {
            lemma_election_ok(run, at, counted, now, timeout);
        }
    }
}

/// A message keeps what holds of messages.
proof fn lemma_message_stays(run: Seq<Cluster>, at: int, to: NodeId, msg: MessageView)
    requires
        0 < at < run.len(),
        run[at].members == run[at - 1].members,
        run[at - 1].network.subset_of(run[at].network),
        message_ok(run, at - 1, to, msg),
    ensures
        message_ok(run, at, to, msg),
{
    if !msg.is_pre_vote() && msg.term() > 0 {
        lemma_opened_stays(run, at, msg.term());
    }
    if let MessageView::PreVoteResponse { term, from, vote_granted } = msg {
        if vote_granted {
            lemma_granted_stays(run, at, from, to, term);
        }
    }
}

/// The node to which something happens keeps what holds of it.
proof fn lemma_node_step(
    run: Seq<Cluster>,
    at: int,
    id: NodeId,
    event: Event,
    now: u64,
    timeout: u64,
)
    requires
        is_run(run),
        0 < at < run.len(),
        state_ok(run, at - 1),
        run[at - 1].step(run[at], id, event, now, timeout),
    ensures
        node_ok(run, at, run[at].nodes[id]),
{
    let c = run[at - 1];
    let n = c.nodes[id];
    lemma_member(run, at - 1, id);
    assert(node_ok(run, at - 1, n));
    lemma_node_stays(run, at, n);
    match event {
        Event::Deliver { msg } => {
            assert(c.network.contains(Envelope { to: id, msg }));
            lemma_message_stays(run, at, id, msg);
            if let MessageView::PreVoteResponse { term, from, vote_granted } = msg {
                lemma_pre_vote_ok(run, at, n, now, timeout, term, from, vote_granted);
            } else {
                lemma_message_starts_no_election(n, now, timeout, msg);
            }
        },
        Event::Timeout => {
            let asking = NodeView {
                state: NodeState::PreCandidate,
                votes_received: Set::empty().insert(n.id),
                ..n.armed(now, timeout)
            };
            assert(counts_pre_votes(run, at, asking));
            if asking.has_majority() {
                lemma_election_ok(run, at, asking, now, timeout);
            }
        },
        Event::Lead { .. } => {},
    }
}

/// A message that is sent has what holds of messages.
proof fn lemma_message_step(
    run: Seq<Cluster>,
    at: int,
    id: NodeId,
    event: Event,
    now: u64,
    timeout: u64,
    r: Request,
    to: NodeId,
)
    requires
        is_run(run),
        0 < at < run.len(),
        state_ok(run, at - 1),
        run[at - 1].step(run[at], id, event, now, timeout),
        run[at - 1].outcome(id, event, now, timeout).sent.contains(r),
        r matches Request::Send { to: target, .. } ==> to == target,
    ensures
        message_ok(run, at, to, message_of(r)),
{
    let c = run[at - 1];
    let n = c.nodes[id];
    lemma_member(run, at - 1, id);
    let o = c.outcome(id, event, now, timeout);
    lemma_node_step(run, at, id, event, now, timeout);
    let k = choose|k: int| 0 <= k < o.sent.len() && o.sent[k] == r;
    if event matches Event::Deliver { msg } && msg is PreVoteRequest {
        let asked = event->Deliver_msg;
        let e = Envelope { to: id, msg: asked };
        assert(c.network.contains(e));
        if let MessageView::PreVoteRequest { term, from, last_log_index, last_log_term } = asked {
            if n.grants_pre_vote(now, term, last_log_index, last_log_term) {
                assert(was_willing(c, id, from, term, now, last_log_index, last_log_term));
                assert(run[at].network.contains(Envelope { to, msg: message_of(r) }));
            }
        }
    } else {
        lemma_speaks(c, id, event, now, timeout);
        assert(message_of(o.sent[k]) == message_of(r));
    }
}

/// Something that happens keeps what holds of every state.
proof fn lemma_state_step(run: Seq<Cluster>, at: int)
    requires
        is_run(run),
        0 < at < run.len(),
        state_ok(run, at - 1),
    ensures
        state_ok(run, at),
{
    let c = run[at - 1];
    let c2 = run[at];
    assert(c.moves_to(c2));
    let (id, event, now, timeout) = choose|id: NodeId, event: Event, now: u64, timeout: u64|
        #[trigger] c.step(c2, id, event, now, timeout);
    let o = c.outcome(id, event, now, timeout);
    lemma_node_step(run, at, id, event, now, timeout);
    assert forall|v: NodeId| #[trigger] c2.members.contains(v) implies node_ok(
        run,
        at,
        c2.nodes[v],
    ) by {
        if v != id {
            assert(c.members.contains(v));
            assert(node_ok(run, at - 1, c.nodes[v]));
            lemma_node_stays(run, at, c.nodes[v]);
        }
    }
    assert forall|e: Envelope| #[trigger] c2.network.contains(e) implies message_ok(
        run,
        at,
        e.to,
        e.msg,
    ) by {
        let send = Request::Send { to: e.to, msg: e.msg };
        let broadcast = Request::Broadcast { msg: e.msg };
        if c.network.contains(e) {
            lemma_message_stays(run, at, e.to, e.msg);
        } else if o.sent.contains(send) {
            lemma_message_step(run, at, id, event, now, timeout, send, e.to);
        } else {
            lemma_message_step(run, at, id, event, now, timeout, broadcast, e.to);
        }
    }
}

/// Every state of a run has what [`state_ok`] says.
proof fn lemma_states(run: Seq<Cluster>, at: int)
    requires
        is_run(run),
        0 <= at < run.len(),
    ensures
        state_ok(run, at),
    decreases at,
{
    if at > 0 {
        lemma_states(run, at - 1);
        lemma_state_step(run, at);
    }
}

/// A member has what [`node_ok`] says.
proof fn lemma_node_ok(run: Seq<Cluster>, at: int, id: NodeId)
    requires
        is_run(run),
        0 <= at < run.len(),
        run[at].members.contains(id),
    ensures
        node_ok(run, at, run[at].nodes[id]),
{
    lemma_states(run, at);
}

/// A message on its way has what [`message_ok`] says.
proof fn lemma_message_ok(run: Seq<Cluster>, at: int, to: NodeId, msg: MessageView)
    requires
        is_run(run),
        0 <= at < run.len(),
        run[at].network.contains(Envelope { to, msg }),
    ensures
        message_ok(run, at, to, msg),
{
    lemma_states(run, at);
}

/// A node stands for election or leads in a term only once more than half of the members, itself
/// included, have said that they would vote for it in that term.
pub proof fn law_candidate_was_confirmed(run: Seq<Cluster>, at: int, a: NodeId)
    requires
        is_run(run),
        0 <= at < run.len(),
        run[at].members.contains(a),
        run[at].nodes[a].state is Candidate || run[at].nodes[a].state is Leader,
    ensures
        confirmed(run, at, a, run[at].nodes[a].current_term),
{
    lemma_states(run, at);
    lemma_member(run, at, a);
}

/// A node enters a new term in one of two ways: it follows a message of that term, or it starts
/// an election of its own, and then more than half of the members, itself included, had said
/// before that they would vote for it in that term.
pub proof fn law_new_term_was_confirmed_or_followed(run: Seq<Cluster>, at: int, a: NodeId)
    requires
        is_run(run),
        0 < at < run.len(),
        run[at].members.contains(a),
        run[at].nodes[a].current_term != run[at - 1].nodes[a].current_term,
    ensures
        ({
            let before = run[at - 1].nodes[a];
            let after = run[at].nodes[a];
            ||| {
                &&& after.state is Candidate || after.state is Leader
                &&& after.current_term == before.current_term + 1
                &&& confirmed(run, at - 1, a, after.current_term)
            }
            ||| {
                &&& after.state is Follower
                &&& exists|msg: MessageView| #[trigger]
                    run[at - 1].network.contains(Envelope { to: a, msg }) && !msg.is_pre_vote()
                        && msg.term() == after.current_term
            }
        }),
{
    let c = run[at - 1];
    let c2 = run[at];
    assert(c.moves_to(c2));
    let (id, event, now, timeout) = choose|id: NodeId, event: Event, now: u64, timeout: u64|
        #[trigger] c.step(c2, id, event, now, timeout);
    assert(id == a);
    let n = c.nodes[a];
    lemma_member(run, at - 1, a);
    lemma_node_ok(run, at - 1, a);
    match event {
        Event::Deliver { msg } => {
            assert(c.network.contains(Envelope { to: a, msg }));
            lemma_message_ok(run, at - 1, a, msg);
            if let MessageView::PreVoteResponse { term, from, vote_granted } = msg {
                lemma_pre_vote_ok(run, at - 1, n, now, timeout, term, from, vote_granted);
            } else {
                lemma_message_starts_no_election(n, now, timeout, msg);
            }
        },
        Event::Timeout => {
            let asking = NodeView {
                state: NodeState::PreCandidate,
                votes_received: Set::empty().insert(n.id),
                ..n.armed(now, timeout)
            };
            assert(counts_pre_votes(run, at - 1, asking));
            lemma_election_ok(run, at - 1, asking, now, timeout);
        },
        Event::Lead { .. } => {},
    }
}

/// No term starts without a majority: for every term that any node has entered, some member had
/// been told by more than half of the members that they would vote for it in that term.
pub proof fn law_every_term_was_confirmed(run: Seq<Cluster>, at: int, b: NodeId)
    requires
        is_run(run),
        0 <= at < run.len(),
        run[at].members.contains(b),
        run[at].nodes[b].current_term > 0,
    ensures
        exists|a: NodeId|
            run[at].members.contains(a) && #[trigger] confirmed(
                run,
                at,
                a,
                run[at].nodes[b].current_term,
            ),
{
    lemma_states(run, at);
    assert(node_ok(run, at, run[at].nodes[b]));
}

/// A majority is needed: as long as half of the members or more have granted a node no pre-vote
/// for a term, it neither stands for election nor leads in that term.
pub proof fn law_no_election_without_pre_votes(
    run: Seq<Cluster>,
    at: int,
    a: NodeId,
    refusing: Set<NodeId>,
)
    requires
        is_run(run),
        0 <= at < run.len(),
        run[at].members.contains(a),
        refusing.finite(),
        refusing.subset_of(run[at].members.to_set()),
        2 * refusing.len() >= run[at].members.len(),
        !refusing.contains(a),
        forall|v: NodeId| #[trigger]
            refusing.contains(v) ==> !granted_pre_vote(
                run,
                at,
                v,
                a,
                run[at].nodes[a].current_term,
            ),
    ensures
        !(run[at].nodes[a].state is Candidate),
        !(run[at].nodes[a].state is Leader),
{
    let members = run[at].members;
    let t = run[at].nodes[a].current_term;
    if run[at].nodes[a].state is Candidate || run[at].nodes[a].state is Leader {
        law_candidate_was_confirmed(run, at, a);
        let q = choose|q: Set<NodeId>| #[trigger]
            is_quorum(members, q) && q.contains(a) && forall|v: NodeId| #[trigger]
                q.contains(v) ==> v == a || granted_pre_vote(run, at, v, a, t);
        let all = members.to_set();
        members.lemma_cardinality_of_set();
        vstd::seq_lib::seq_to_set_is_finite(members);
        vstd::set_lib::lemma_set_disjoint_lens(q, refusing);
        assert((q + refusing).subset_of(all));
        vstd::set_lib::lemma_len_subset(q + refusing, all);
    }
}

} // verus!
