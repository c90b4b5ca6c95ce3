//! What a leader takes in, sends, counts and commits.
use vstd::prelude::*;

use crate::cluster::steps::lemma_filter_no_duplicates;
use crate::laws::lemma_greatest_committable;
use crate::model::{MessageView, NodeView, ReceivedView, Request};
use crate::node::{NodeId, Term};

verus! {

/// A round takes every command in as it is, in order, as an entry of the leader's term behind the
/// log, and changes nothing else of the node. It sends as many messages as there are other peers.
pub proof fn law_round_appends_every_command(s: NodeView, commands: Seq<Seq<char>>)
    ensures
        ({
            let node = s.tick_leader(commands).node;
            &&& s.tick_leader(commands).sent.len() == s.peers.filter(|p: NodeId| p != s.id).len()
            &&& node.log.len() == s.log.len() + commands.len()
            &&& forall|i: int| 0 <= i < s.log.len() ==> #[trigger] node.log[i] == s.log[i]
            &&& forall|i: int|
                #![trigger commands[i]]
                #![trigger node.log[s.log.len() + i]]
                0 <= i < commands.len() ==> {
                    &&& node.log[s.log.len() + i].term == s.current_term
                    &&& node.log[s.log.len() + i].command == commands[i]
                }
            &&& node == NodeView { log: node.log, ..s }
        }),
{
}

/// The place of a kept element among the kept ones.
proof fn lemma_filter_place(s: Seq<NodeId>, keep: spec_fn(NodeId) -> bool, i: int)
    requires
        0 <= i < s.len(),
        keep(s[i]),
    ensures
        s.take(i).filter(keep).len() < s.filter(keep).len(),
        s.filter(keep)[s.take(i).filter(keep).len() as int] == s[i],
    decreases s.len(),
{
    reveal_with_fuel(Seq::filter, 1);
    let init = s.drop_last();
    if i < s.len() - 1 {
        lemma_filter_place(init, keep, i);
        assert(init.take(i) =~= s.take(i));
    } else {
        assert(s.take(i) =~= init);
    }
}

/// A round sends one message to each other peer, in the order of the peers: the entries from the
/// next one for that peer on, each as it stands in the log, with the index and the term of the
/// entry before them, and with the commit index.
pub proof fn law_round_sends_each_peer_what_it_lacks(
    s: NodeView,
    commands: Seq<Seq<char>>,
    i: int,
)
    requires
        0 <= i < s.peers.len(),
        s.peers[i] != s.id,
        s.next_index.contains_key(s.peers[i]) ==> 1 <= s.next_index[s.peers[i]] <= s.log.len()
            + commands.len() + 1,
    ensures
        ({
            let o = s.tick_leader(commands);
            let other = |p: NodeId| p != s.id;
            let place = s.peers.take(i).filter(other).len() as int;
            let next = if s.next_index.contains_key(s.peers[i]) {
                s.next_index[s.peers[i]] as int
            } else {
                1
            };
            &&& o.sent.len() == s.peers.filter(other).len()
            &&& place < o.sent.len()
            &&& o.sent[place] matches Request::Send {
                to,
                msg: MessageView::AppendEntries {
                    term,
                    from,
                    prev_log_index,
                    prev_log_term,
                    entries,
                    leader_commit,
                },
            }
            &&& to == s.peers[i]
            &&& term == s.current_term
            &&& from == s.id
            &&& prev_log_index == next - 1
            &&& prev_log_term == if next == 1 {
                0
            } else {
                o.node.log[next - 2].term
            }
            &&& entries.len() == o.node.log.len() - (next - 1)
            &&& forall|j: int|
                0 <= j < entries.len() ==> #[trigger] entries[j] == o.node.log[next - 1 + j]
            &&& leader_commit == s.commit_index
        }),
{
    let other = |p: NodeId| p != s.id;
    lemma_filter_place(s.peers, other, i);
    let node = s.tick_leader(commands).node;
    assert(node.others() == s.peers.filter(other));
}

/// Whoever becomes leader expects every other peer to hold its whole log, knows of none that does,
/// and tells each of them at once, in the order of the peers, with no entries.
pub proof fn law_new_leader_tells_every_peer(
    s: NodeView,
    now: u64,
    timeout: u64,
    received: ReceivedView,
    i: int,
)
    requires
        !(s.state is Leader),
        s.tick(now, timeout, received).node.state is Leader,
        s.log.len() < u64::MAX,
        0 <= i < s.peers.len(),
        s.peers[i] != s.id,
    ensures
        ({
            let o = s.tick(now, timeout, received);
            let other = |p: NodeId| p != s.id;
            let others = s.peers.filter(other).len() as int;
            let place = o.sent.len() - others + s.peers.take(i).filter(other).len();
            &&& 0 <= o.sent.len() - others <= place < o.sent.len()
            &&& o.sent[place] matches Request::Send {
                to,
                msg: MessageView::AppendEntries {
                    term,
                    from,
                    prev_log_index,
                    prev_log_term,
                    entries,
                    leader_commit,
                },
            }
            &&& to == s.peers[i]
            &&& term == o.node.current_term
            &&& from == s.id
            &&& prev_log_index == s.log.len()
            &&& prev_log_term == if s.log.len() == 0 {
                0
            } else {
                s.log[s.log.len() - 1].term
            }
            &&& entries.len() == 0
            &&& leader_commit == s.commit_index
        }),
{
    lemma_new_leader(s, now, timeout, received);
    let o = s.tick(now, timeout, received);
    let other = |p: NodeId| p != s.id;
    lemma_filter_place(s.peers, other, i);
    assert(o.node.others() == s.peers.filter(other));
    let heartbeat = o.node.replication(o.node.others());
    let at = s.peers.take(i).filter(other).len() as int;
    let before = o.sent.len() - heartbeat.len();
    assert(o.sent[before + at] == heartbeat[at]);
    assert(s.peers.contains(s.peers[i]));
}

/// What a new leader knows of the others.
pub proof fn law_new_leader_knows_of_no_copy(
    s: NodeView,
    now: u64,
    timeout: u64,
    received: ReceivedView,
    p: NodeId,
)
    requires
        !(s.state is Leader),
        s.tick(now, timeout, received).node.state is Leader,
        s.log.len() < u64::MAX,
    ensures
        ({
            let node = s.tick(now, timeout, received).node;
            let is_other = s.peers.contains(p) && p != s.id;
            &&& node.next_index.contains_key(p) <==> is_other
            &&& node.match_index.contains_key(p) <==> is_other
            &&& is_other ==> node.next_index[p] == s.log.len() + 1 && node.match_index[p] == 0
            &&& node.log == s.log
        }),
{
    lemma_new_leader(s, now, timeout, received);
}

/// How a node becomes leader.
proof fn lemma_new_leader(s: NodeView, now: u64, timeout: u64, received: ReceivedView)
    requires
        !(s.state is Leader),
        s.tick(now, timeout, received).node.state is Leader,
    ensures
        ({
            let o = s.tick(now, timeout, received);
            let heartbeat = o.node.replication(o.node.others());
            let before = o.sent.len() - heartbeat.len();
            &&& o.node.log == s.log
            &&& o.node.peers == s.peers
            &&& o.node.id == s.id
            &&& o.node.commit_index == s.commit_index
            &&& before >= 0
            &&& o.sent.skip(before) == heartbeat
            &&& o.node.next_index == Map::new(
                |p: NodeId| s.peers.contains(p) && p != s.id,
                |p: NodeId| (s.log.len() + 1) as u64,
            )
            &&& o.node.match_index == Map::new(
                |p: NodeId| s.peers.contains(p) && p != s.id,
                |p: NodeId| 0u64,
            )
        }),
{
    let o = s.tick(now, timeout, received);
    let heartbeat = o.node.replication(o.node.others());
    assert(o.sent.skip(o.sent.len() - heartbeat.len()) =~= heartbeat);
}

/// An acknowledgement in the leader's term sets what the follower holds and what it needs next,
/// and leaves what is known of the others. Where it moves the commit index, everything up to
/// there is applied; nothing is sent, and nothing else changes.
pub proof fn law_acknowledgement_moves_the_follower(
    s: NodeView,
    now: u64,
    timeout: u64,
    from: NodeId,
    match_index: u64,
)
    requires
        s.state is Leader,
        match_index < u64::MAX,
        s.log.len() <= u64::MAX,
    ensures
        ({
            let o = s.handle_message(
                now,
                timeout,
                MessageView::AppendEntriesResponse {
                    term: s.current_term,
                    from,
                    success: true,
                    match_index,
                },
            );
            &&& o.sent.len() == 0
            &&& o.node == NodeView {
                match_index: s.match_index.insert(from, match_index),
                next_index: s.next_index.insert(from, (match_index + 1) as u64),
                commit_index: o.node.commit_index,
                last_applied: o.node.last_applied,
                state_machine: o.node.state_machine,
                ..s
            }
            &&& o.node.commit_index >= s.commit_index
            &&& if o.node.commit_index > s.commit_index {
                o.node.last_applied == if s.last_applied < o.node.commit_index {
                    o.node.commit_index
                } else {
                    s.last_applied
                }
            } else {
                &&& o.node.last_applied == s.last_applied
                &&& o.node.state_machine == s.state_machine
            }
        }),
{
    let acked = NodeView {
        match_index: s.match_index.insert(from, match_index),
        next_index: s.next_index.insert(from, (match_index + 1) as u64),
        ..s
    };
    lemma_greatest_committable(acked, acked.last_log_index());
}

/// A refusal in the leader's term moves the next entry for the follower one back, down to the
/// first, and changes nothing else.
pub proof fn law_refusal_moves_one_back(
    s: NodeView,
    now: u64,
    timeout: u64,
    from: NodeId,
    match_index: u64,
)
    requires
        s.state is Leader,
    ensures
        ({
            let o = s.handle_message(
                now,
                timeout,
                MessageView::AppendEntriesResponse {
                    term: s.current_term,
                    from,
                    success: false,
                    match_index,
                },
            );
            &&& o.sent.len() == 0
            &&& o.node == NodeView {
                next_index: s.next_index.insert(
                    from,
                    if s.next_index.contains_key(from) && s.next_index[from] > 1 {
                        (s.next_index[from] - 1) as u64
                    } else {
                        1
                    },
                ),
                ..s
            }
        }),
{
}

/// An answer to entries that is of an earlier term, or comes to a node that does not lead, counts
/// for nothing.
pub proof fn law_other_answers_count_for_nothing(
    s: NodeView,
    now: u64,
    timeout: u64,
    term: Term,
    from: NodeId,
    success: bool,
    match_index: u64,
)
    requires
        term <= s.current_term,
        !(s.state is Leader) || term < s.current_term,
    ensures
        ({
            let o = s.handle_message(
                now,
                timeout,
                MessageView::AppendEntriesResponse { term, from, success, match_index },
            );
            &&& o.node == s
            &&& o.sent.len() == 0
        }),
{
}

/// Distinct elements that are kept are no more than the kept elements.
proof fn lemma_kept_values(s: Seq<NodeId>, keep: spec_fn(NodeId) -> bool, q: Set<NodeId>)
    requires
        q.finite(),
        forall|v: NodeId| #[trigger] q.contains(v) ==> s.contains(v) && keep(v),
    ensures
        q.len() <= s.filter(keep).len(),
    decreases s.len(),
{
    reveal_with_fuel(Seq::filter, 1);
    if s.len() == 0 {
        assert(q =~= Set::empty());
    } else {
        let init = s.drop_last();
        let rest = q.remove(s.last());
        assert forall|v: NodeId| #[trigger] rest.contains(v) implies init.contains(v)
            && keep(v) by {
            assert(q.contains(v));
            let k = choose|k: int| 0 <= k < s.len() && s[k] == v;
            assert(init[k] == v);
        }
        lemma_kept_values(init, keep, rest);
    }
}

/// The kept elements stand at as many places.
proof fn lemma_kept_places(s: Seq<NodeId>, keep: spec_fn(NodeId) -> bool) -> (places: Set<int>)
    ensures
        places.finite(),
        places.len() == s.filter(keep).len(),
        forall|i: int| #[trigger] places.contains(i) <==> 0 <= i < s.len() && keep(s[i]),
    decreases s.len(),
{
    reveal_with_fuel(Seq::filter, 1);
    if s.len() == 0 {
        Set::empty()
    } else {
        let init = s.drop_last();
        let some = lemma_kept_places(init, keep);
        if keep(s.last()) {
            some.insert(s.len() - 1)
        } else {
            some
        }
    }
}

/// A majority commits: where the leader and enough others to be more than half of the peers hold
/// the log up to an entry of the leader's term, the acknowledgement that completes them moves the
/// commit index at least there.
pub proof fn law_majority_commits(
    s: NodeView,
    now: u64,
    timeout: u64,
    from: NodeId,
    match_index: u64,
    n: u64,
    q: Set<NodeId>,
)
    requires
        s.state is Leader,
        s.log.len() <= u64::MAX,
        s.commit_index < n <= s.log.len(),
        s.log[n - 1].term == s.current_term,
        q.finite(),
        q.contains(s.id),
        2 * q.len() > s.peers.len(),
        forall|p: NodeId| #[trigger]
            q.contains(p) && p != s.id ==> s.peers.contains(p) && if p == from {
                match_index >= n
            } else {
                s.match_index.contains_key(p) && s.match_index[p] >= n
            },
    ensures
        s.handle_message(
            now,
            timeout,
            MessageView::AppendEntriesResponse {
                term: s.current_term,
                from,
                success: true,
                match_index,
            },
        ).node.commit_index >= n,
{
    let acked = NodeView {
        match_index: s.match_index.insert(from, match_index),
        next_index: s.next_index.insert(from, (match_index + 1) as u64),
        ..s
    };
    let holds = |p: NodeId| p != acked.id && acked.match_for(p) >= n;
    lemma_kept_values(s.peers, holds, q.remove(s.id));
    assert(acked.committable(n));
    lemma_greatest_committable(acked, acked.last_log_index());
}

/// Only a majority commits: where an acknowledgement moves the commit index, the entry there is
/// of the leader's term, and the places in the list of peers at which stand other nodes that hold
/// the log up to it are, with the leader, more than half of all.
pub proof fn law_commit_has_a_majority(
    s: NodeView,
    now: u64,
    timeout: u64,
    from: NodeId,
    match_index: u64,
)
    requires
        s.state is Leader,
        s.log.len() <= u64::MAX,
    ensures
        ({
            let n = s.handle_message(
                now,
                timeout,
                MessageView::AppendEntriesResponse {
                    term: s.current_term,
                    from,
                    success: true,
                    match_index,
                },
            ).node.commit_index;
            n != s.commit_index ==> {
                &&& s.commit_index < n <= s.log.len()
                &&& s.log[n - 1].term == s.current_term
                &&& exists|places: Set<int>|
                    {
                        &&& #[trigger] places.finite()
                        &&& 2 * (1 + places.len()) > s.peers.len()
                        &&& forall|i: int| #[trigger]
                            places.contains(i) ==> 0 <= i < s.peers.len() && s.peers[i] != s.id
                                && if s.peers[i] == from {
                                match_index >= n
                            } else {
                                s.match_index.contains_key(s.peers[i])
                                    && s.match_index[s.peers[i]] >= n
                            }
                    }
            }
        }),
{
    let acked = NodeView {
        match_index: s.match_index.insert(from, match_index),
        next_index: s.next_index.insert(from, (match_index + 1) as u64),
        ..s
    };
    lemma_greatest_committable(acked, acked.last_log_index());
    let n = acked.greatest_committable(acked.last_log_index());
    if n != s.commit_index {
        let holds = |p: NodeId| p != acked.id && acked.match_for(p) >= n;
        let places = lemma_kept_places(s.peers, holds);
        assert(places.finite());
    }
}

/// Only a majority of members commits: with peers without repetition, the leader among them, an
/// acknowledgement moves the commit index only to an entry that a set of more than half of the
/// peers, the leader among them, hold.
pub proof fn law_commit_has_a_majority_of_members(
    s: NodeView,
    now: u64,
    timeout: u64,
    from: NodeId,
    match_index: u64,
)
    requires
        s.state is Leader,
        s.log.len() <= u64::MAX,
        s.peers.no_duplicates(),
        s.peers.contains(s.id),
    ensures
        ({
            let n = s.handle_message(
                now,
                timeout,
                MessageView::AppendEntriesResponse {
                    term: s.current_term,
                    from,
                    success: true,
                    match_index,
                },
            ).node.commit_index;
            n != s.commit_index ==> exists|q: Set<NodeId>|
                {
                    &&& #[trigger] q.finite()
                    &&& q.contains(s.id)
                    &&& 2 * q.len() > s.peers.len()
                    &&& forall|p: NodeId| #[trigger]
                        q.contains(p) ==> s.peers.contains(p) && (p == s.id || if p == from {
                            match_index >= n
                        } else {
                            s.match_index.contains_key(p) && s.match_index[p] >= n
                        })
                }
        }),
{
    let acked = NodeView {
        match_index: s.match_index.insert(from, match_index),
        next_index: s.next_index.insert(from, (match_index + 1) as u64),
        ..s
    };
    lemma_greatest_committable(acked, acked.last_log_index());
    let n = acked.greatest_committable(acked.last_log_index());
    if n != s.commit_index {
        let holds = |p: NodeId| p != acked.id && acked.match_for(p) >= n;
        let f = s.peers.filter(holds);
        lemma_filter_no_duplicates(s.peers, holds);
        f.unique_seq_to_set();
        vstd::seq_lib::seq_to_set_is_finite(f);
        let q = f.to_set().insert(s.id);
        assert(!f.contains(s.id));
        assert(q.finite());
        assert forall|p: NodeId| #[trigger] q.contains(p) implies s.peers.contains(p) && (p == s.id
            || if p == from {
            match_index >= n
        } else {
            s.match_index.contains_key(p) && s.match_index[p] >= n
        }) by {
            if p != s.id {
                assert(f.contains(p));
            }
        }
    }
}

} // verus!
