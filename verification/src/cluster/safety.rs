//! The laws of a cluster: what holds in every state of every run, however messages are
//! delayed, lost, repeated and reordered.
use vstd::prelude::*;

use crate::cluster::completeness::{lemma_covered_agree, lemma_covered_in_log};
use crate::cluster::history::{
    cluster_inv, lemma_agree_less, lemma_covered_stable, History,
};
use crate::cluster::steps::{
    lemma_grows_transitive, lemma_merge_from_leader, lemma_same_history, lemma_step,
};
use crate::cluster::system::{is_run, Cluster, Event};
use crate::model::{apply_entries, merged, Envelope, LogEntryView, MessageView, NodeView};
use crate::node::{NodeId, Term};

verus! {

/// A cluster whose nodes have just started has the invariant.
proof fn lemma_init(c: Cluster) -> (h: History)
    requires
        c.init(),
    ensures
        cluster_inv(c, h),
{
    let h = History {
        ballots: Map::empty(),
        candidacies: Map::empty(),
        reigns: Map::empty(),
        acks: Set::empty(),
    };
    assert forall|id: NodeId| #[trigger] c.members.contains(id) implies c.nodes[id].id == id
        && h.node_inv(c.members, c.nodes[id]) by {
        assert(c.nodes[id].log.take(0) =~= Seq::<LogEntryView>::empty());
    }
    h
}

/// Every state of a run has the invariant, with a history that grows.
proof fn lemma_run(run: Seq<Cluster>, from: int, h: History, to: int) -> (h2: History)
    requires
        is_run(run),
        0 <= from <= to < run.len(),
        cluster_inv(run[from], h),
    ensures
        h.grows(h2),
        cluster_inv(run[to], h2),
        run[to].members == run[from].members,
        forall|v: NodeId| #[trigger]
            run[from].members.contains(v) ==> run[from].nodes[v].commit_index
                <= run[to].nodes[v].commit_index,
        forall|v: NodeId| #[trigger]
            run[from].members.contains(v) ==> run[from].nodes[v].current_term
                <= run[to].nodes[v].current_term,
    decreases to - from,
{
    if from == to {
        lemma_same_history(h);
        h
    } else {
        let h1 = lemma_run(run, from, h, to - 1);
        let c = run[to - 1];
        let c2 = run[to];
        assert(c.moves_to(c2));
        let (id, event, now, timeout) = choose|
            id: NodeId,
            event: Event,
            now: u64,
            timeout: u64,
        | #[trigger] c.step(c2, id, event, now, timeout);
        let h2 = lemma_step(c, c2, h1, id, event, now, timeout);
        lemma_grows_transitive(h, h1, h2);
        h2
    }
}

/// Every state of a run has the invariant.
pub proof fn lemma_invariant(run: Seq<Cluster>, at: int) -> (h: History)
    requires
        is_run(run),
        0 <= at < run.len(),
    ensures
        cluster_inv(run[at], h),
        run[at].members == run[0].members,
{
    let h0 = lemma_init(run[0]);
    lemma_run(run, 0, h0, at)
}

/// Election safety: a term has at most one leader, even over the whole of a run.
pub proof fn law_one_leader_per_term(run: Seq<Cluster>, i: int, j: int, a: NodeId, b: NodeId)
    requires
        is_run(run),
        0 <= i <= j < run.len(),
        run[i].members.contains(a),
        run[j].members.contains(b),
        run[i].nodes[a].state is Leader,
        run[j].nodes[b].state is Leader,
        run[i].nodes[a].current_term == run[j].nodes[b].current_term,
    ensures
        a == b,
{
    let h = lemma_invariant(run, i);
    let h2 = lemma_run(run, i, h, j);
    assert(h.node_inv(run[i].members, run[i].nodes[a]));
    assert(h2.node_inv(run[j].members, run[j].nodes[b]));
    assert(h.reigns.contains_key(run[i].nodes[a].current_term));
}

/// A leader only appends: while its term lasts, its log keeps what it has.
pub proof fn law_leader_only_appends(run: Seq<Cluster>, i: int, j: int, a: NodeId)
    requires
        is_run(run),
        0 <= i <= j < run.len(),
        run[i].members.contains(a),
        run[i].nodes[a].state is Leader,
        run[i].nodes[a].current_term == run[j].nodes[a].current_term,
    ensures
        ({
            let before = run[i].nodes[a];
            let after = run[j].nodes[a];
            &&& after.state is Leader
            &&& before.log.len() <= after.log.len()
            &&& after.log.take(before.log.len() as int) == before.log
        }),
{
    let h = lemma_invariant(run, i);
    let h2 = lemma_run(run, i, h, j);
    assert(h.node_inv(run[i].members, run[i].nodes[a]));
    assert(h2.node_inv(run[j].members, run[j].nodes[a]));
    let t = run[i].nodes[a].current_term;
    assert(h.reigns.contains_key(t));
    assert(h2.reigns.contains_key(t));
}

/// Log matching: where the logs of two nodes have an entry of the same term at the same
/// place, they are the same up to there.
pub proof fn law_logs_match(run: Seq<Cluster>, at: int, a: NodeId, b: NodeId, i: int)
    requires
        is_run(run),
        0 <= at < run.len(),
        run[at].members.contains(a),
        run[at].members.contains(b),
        0 <= i < run[at].nodes[a].log.len(),
        i < run[at].nodes[b].log.len(),
        run[at].nodes[a].log[i].term == run[at].nodes[b].log[i].term,
    ensures
        run[at].nodes[a].log.take(i + 1) == run[at].nodes[b].log.take(i + 1),
{
    let h = lemma_invariant(run, at);
    assert(h.node_inv(run[at].members, run[at].nodes[a]));
    assert(h.node_inv(run[at].members, run[at].nodes[b]));
    assert(h.rooted(run[at].nodes[a].log, i));
    assert(h.rooted(run[at].nodes[b].log, i));
}

/// Leader completeness: a leader has what any node of its term or an earlier one has
/// committed.
pub proof fn law_leader_has_what_is_committed(run: Seq<Cluster>, at: int, a: NodeId, b: NodeId)
    requires
        is_run(run),
        0 <= at < run.len(),
        run[at].members.contains(a),
        run[at].members.contains(b),
        run[at].nodes[b].state is Leader,
        run[at].nodes[a].current_term <= run[at].nodes[b].current_term,
    ensures
        ({
            let follower = run[at].nodes[a];
            let leader = run[at].nodes[b];
            &&& follower.commit_index <= follower.log.len()
            &&& follower.commit_index <= leader.log.len()
            &&& leader.log.take(follower.commit_index as int) == follower.log.take(
                follower.commit_index as int,
            )
        }),
{
    let h = lemma_invariant(run, at);
    let members = run[at].members;
    let n = run[at].nodes[a];
    let leader = run[at].nodes[b];
    assert(h.node_inv(members, n));
    assert(h.node_inv(members, leader));
    if n.commit_index > 0 {
        let (t, i) = choose|t: Term, i: int| #[trigger]
            h.committed(members, t, i) && t <= n.current_term && n.commit_index <= i && h.has(
                n.log,
                t,
                n.commit_index as int,
            );
        assert(h.committed(members, t, i) && t <= leader.current_term);
    }
    assert(h.covered(members, n.log, n.commit_index as int, leader.current_term));
    lemma_covered_in_log(h, members, n.log, n.commit_index as int, leader.current_term);
}

/// State-machine safety: any two nodes, at any two times of a run, agree on what both have
/// committed.
pub proof fn law_committed_logs_agree(
    run: Seq<Cluster>,
    i: int,
    j: int,
    a: NodeId,
    b: NodeId,
    k: int,
)
    requires
        is_run(run),
        0 <= i <= j < run.len(),
        run[i].members.contains(a),
        run[j].members.contains(b),
        0 <= k <= run[i].nodes[a].commit_index,
        k <= run[j].nodes[b].commit_index,
    ensures
        k <= run[i].nodes[a].log.len(),
        k <= run[j].nodes[b].log.len(),
        run[i].nodes[a].log.take(k) == run[j].nodes[b].log.take(k),
{
    let h = lemma_invariant(run, i);
    let h2 = lemma_run(run, i, h, j);
    let members = run[i].members;
    let n = run[i].nodes[a];
    let m = run[j].nodes[b];
    assert(h.node_inv(members, n));
    assert(h2.node_inv(members, m));
    lemma_covered_stable(h, h2, members, n.log, n.commit_index as int, n.current_term);
    lemma_covered_agree(
        h2,
        members,
        n.log,
        n.commit_index as int,
        n.current_term,
        m.log,
        m.commit_index as int,
        m.current_term,
    );
    let c = if n.commit_index <= m.commit_index {
        n.commit_index as int
    } else {
        m.commit_index as int
    };
    lemma_agree_less(n.log, m.log, k, c);
}

/// What a node has committed stays committed, and stays in its log.
pub proof fn law_committed_stays(run: Seq<Cluster>, i: int, j: int, a: NodeId)
    requires
        is_run(run),
        0 <= i <= j < run.len(),
        run[i].members.contains(a),
    ensures
        ({
            let before = run[i].nodes[a];
            let after = run[j].nodes[a];
            &&& before.commit_index <= after.commit_index <= after.log.len()
            &&& after.log.take(before.commit_index as int) == before.log.take(
                before.commit_index as int,
            )
        }),
{
    let h = lemma_invariant(run, i);
    let h2 = lemma_run(run, i, h, j);
    assert(h2.node_inv(run[j].members, run[j].nodes[a]));
    law_committed_logs_agree(run, i, j, a, a, run[i].nodes[a].commit_index as int);
}

/// The state machine of a node is what its applied entries make of an empty one, and only
/// committed entries are applied.
pub proof fn law_state_machine_is_applied_log(run: Seq<Cluster>, at: int, a: NodeId)
    requires
        is_run(run),
        0 <= at < run.len(),
        run[at].members.contains(a),
    ensures
        ({
            let n = run[at].nodes[a];
            &&& n.last_applied <= n.commit_index <= n.log.len()
            &&& n.state_machine == apply_entries(Map::empty(), n.log.take(n.last_applied as int))
        }),
{
    let h = lemma_invariant(run, at);
    assert(h.node_inv(run[at].members, run[at].nodes[a]));
}

/// Convergence: nodes that have applied equally many entries have the same state machine,
/// at any two times of a run.
pub proof fn law_state_machines_converge(run: Seq<Cluster>, i: int, j: int, a: NodeId, b: NodeId)
    requires
        is_run(run),
        0 <= i <= j < run.len(),
        run[i].members.contains(a),
        run[j].members.contains(b),
        run[i].nodes[a].last_applied == run[j].nodes[b].last_applied,
    ensures
        run[i].nodes[a].state_machine == run[j].nodes[b].state_machine,
{
    let h = lemma_invariant(run, i);
    let h2 = lemma_run(run, i, h, j);
    law_state_machine_is_applied_log(run, i, a);
    law_state_machine_is_applied_log(run, j, b);
    law_committed_logs_agree(run, i, j, a, b, run[i].nodes[a].last_applied as int);
}

/// A leader can always replicate: it never needs an entry that its log does not have.
pub proof fn law_leader_can_replicate(run: Seq<Cluster>, at: int, a: NodeId, commands: nat)
    requires
        is_run(run),
        0 <= at < run.len(),
        run[at].members.contains(a),
        run[at].nodes[a].state is Leader,
    ensures
        run[at].nodes[a].can_replicate(commands),
{
    let h = lemma_invariant(run, at);
    let n = run[at].nodes[a];
    assert(h.node_inv(run[at].members, n));
    assert forall|i: int| 0 <= i < n.peers.len() && n.peers[i] != n.id implies 1 <= n.next_for(
        #[trigger] n.peers[i],
    ) <= n.log.len() + commands + 1 by {
        let p = n.peers[i];
        if n.next_index.contains_key(p) {
            assert(1 <= n.next_index[p] <= n.log.len() + 1);
        }
    }
}

/// What a node makes of entries of a leader that is not stale, where its log matches.
proof fn lemma_entries_taken_over(n: NodeView, now: u64, timeout: u64, msg: MessageView)
    requires
        msg matches MessageView::AppendEntries { prev_log_index, prev_log_term, .. }
            && n.log_matches(prev_log_index, prev_log_term),
        msg.term() >= n.current_term,
    ensures
        msg matches MessageView::AppendEntries { prev_log_index, entries, .. } ==> {
            let o = n.handle_message(now, timeout, msg);
            &&& o.node.log == merged(n.log, prev_log_index as int, entries)
            &&& o.sent == o.node.append_answer(
                msg.from(),
                true,
                (prev_log_index + entries.len()) as u64,
            )
        },
{
}

/// What a leader sends to a node whose log matches makes the node's log begin with the leader's.
proof fn lemma_leader_log_merged(run: Seq<Cluster>, at: int, a: NodeId, b: NodeId)
    requires
        is_run(run),
        0 <= at < run.len(),
        run[at].members.contains(a),
        run[at].members.contains(b),
        run[at].nodes[b].state is Leader,
        ({
            let next = run[at].nodes[b].next_for(a);
            next > 1 ==> next <= run[at].nodes[a].log.len() + 1 && run[at].nodes[a].log[next
                - 2].term == run[at].nodes[b].log[next - 2].term
        }),
    ensures
        ({
            let leader = run[at].nodes[b];
            let prev = leader.next_for(a) - 1;
            let log = merged(run[at].nodes[a].log, prev, leader.log.skip(prev));
            &&& 0 <= prev <= leader.log.len()
            &&& leader.log.len() <= log.len()
            &&& log.take(leader.log.len() as int) == leader.log
            &&& leader.id == b
            &&& leader.wf()
        }),
{
    let h = lemma_invariant(run, at);
    let members = run[at].members;
    let n = run[at].nodes[a];
    let leader = run[at].nodes[b];
    assert(h.node_inv(members, n));
    assert(h.node_inv(members, leader));
    let prev = leader.next_for(a) - 1;
    let len = leader.log.len() - prev;
    assert(leader.log.skip(prev) =~= leader.log.subrange(prev, prev + len));
    lemma_merge_from_leader(h, n.log, leader.log, prev, len);
    assert(leader.log.take(leader.log.len() as int) =~= leader.log);
}

/// Replication: a follower whose log matches holds the whole log of its leader once it has
/// taken the leader's message, and says so.
pub proof fn law_follower_takes_over_leader_log(
    run: Seq<Cluster>,
    at: int,
    a: NodeId,
    b: NodeId,
    now: u64,
    timeout: u64,
)
    requires
        is_run(run),
        0 <= at < run.len(),
        run[at].members.contains(a),
        run[at].members.contains(b),
        a != b,
        run[at].nodes[b].state is Leader,
        run[at].nodes[a].current_term <= run[at].nodes[b].current_term,
        ({
            let next = run[at].nodes[b].next_for(a);
            next > 1 ==> next <= run[at].nodes[a].log.len() + 1 && run[at].nodes[a].log[next
                - 2].term == run[at].nodes[b].log[next - 2].term
        }),
    ensures
        ({
            let leader = run[at].nodes[b];
            let o = run[at].nodes[a].handle_message(now, timeout, leader.append_entries_for(a));
            &&& leader.log.len() <= o.node.log.len()
            &&& o.node.log.take(leader.log.len() as int) == leader.log
            &&& o.sent == o.node.append_answer(b, true, leader.log.len() as u64)
        }),
{
    lemma_leader_log_merged(run, at, a, b);
    lemma_entries_taken_over(
        run[at].nodes[a],
        now,
        timeout,
        run[at].nodes[b].append_entries_for(a),
    );
}

/// Every message on its way to a node can be taken by it, as long as its log has room for the
/// entries.
pub proof fn law_messages_can_be_taken(run: Seq<Cluster>, at: int, e: Envelope)
    requires
        is_run(run),
        0 <= at < run.len(),
        run[at].members.contains(e.to),
        run[at].network.contains(e),
        e.msg matches MessageView::AppendEntries { entries, .. } ==> run[at].nodes[e.to].log.len()
            + entries.len() < usize::MAX,
    ensures
        run[at].nodes[e.to].accepts(e.msg),
{
    let h = lemma_invariant(run, at);
    let n = run[at].nodes[e.to];
    assert(h.node_inv(run[at].members, n));
    assert(h.message_inv(run[at].members, e.to, e.msg));
}

} // verus!
