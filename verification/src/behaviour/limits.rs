//! Which events a node can take, and how long it waits.
use vstd::prelude::*;

use crate::model::{posted, Envelope, MessageView, NodeView, Outcome, ReceivedView, Request};
use crate::node::{Node, NodeId, Received};
use crate::rpc::rpc::RPC;

verus! {

/// A message can be taken unless its entries do not fit into the log, or it acknowledges to the
/// leader of its term an index that has none after it; a timeout, unless no term is left; the end
/// of all messages, always.
pub proof fn law_what_can_be_taken(s: NodeView, received: ReceivedView)
    ensures
        s.can_take(received) <==> match received {
            ReceivedView::Message(MessageView::AppendEntries { entries, .. }) => s.log.len()
                + entries.len() < usize::MAX,
            ReceivedView::Message(
                MessageView::AppendEntriesResponse { term, success, match_index, .. },
            ) => !(s.state is Leader) || term != s.current_term || !success || match_index
                < u64::MAX,
            ReceivedView::Message(_) => true,
            ReceivedView::Timeout => s.current_term < u64::MAX,
            ReceivedView::Disconnected => true,
        },
        received matches ReceivedView::Message(msg) ==> (s.accepts(msg) <==> s.can_take(received)),
{
}

/// A round can start where the log has room for the commands, and the entry before the next one
/// for each other peer will be in it.
pub proof fn law_when_a_round_can_start(s: NodeView, commands: nat)
    ensures
        s.can_lead(commands) <==> {
            &&& s.log.len() + commands < usize::MAX
            &&& forall|i: int|
                #![trigger s.peers[i]]
                0 <= i < s.peers.len() && s.peers[i] != s.id && s.next_index.contains_key(s.peers[i])
                    ==> 1 <= s.next_index[s.peers[i]] <= s.log.len() + commands + 1
        },
{
    if s.can_lead(commands) {
        assert forall|i: int|
            #![trigger s.peers[i]]
            0 <= i < s.peers.len() && s.peers[i] != s.id && s.next_index.contains_key(
                s.peers[i],
            ) implies 1 <= s.next_index[s.peers[i]] <= s.log.len() + commands + 1 by {
            assert(1 <= s.next_for(s.peers[i]) <= s.log.len() + commands + 1);
        }
    }
}

/// What makes a node valid.
pub proof fn law_valid_node(s: NodeView)
    ensures
        s.wf() <==> {
            &&& s.state is PreCandidate ==> s.current_term < u64::MAX
            &&& forall|p: NodeId| #[trigger]
                s.next_index.contains_key(p) ==> s.next_index[p] >= 1
            &&& 150_000_000 <= s.election_timeout < 300_000_000
            &&& s.election_timeout % 1_000_000 == 0
            &&& s.votes_received.finite()
            &&& s.log.len() < usize::MAX
            &&& s.commit_index < u64::MAX
            &&& s.peers.len() < usize::MAX
        },
{
    crate::timer::law_timeout_range(s.election_timeout);
}

/// A node waits until its election timeout has passed since it last started its timer, and no
/// longer.
pub proof fn law_time_left(s: NodeView, now: u64)
    ensures
        ({
            let left = s.election_deadline_remaining(now);
            &&& 0 <= left <= s.election_timeout
            &&& now <= s.last_heard ==> left == s.election_timeout
            &&& s.last_heard <= now <= s.last_heard + s.election_timeout ==> now + left
                == s.last_heard + s.election_timeout
            &&& now >= s.last_heard + s.election_timeout ==> left == 0
        }),
{
}

/// A message is taken in the same way whatever the node waits for it as, and where no message will
/// come any more nothing happens.
pub proof fn law_waiting_makes_no_difference(
    s: NodeView,
    now: u64,
    timeout: u64,
    msg: MessageView,
)
    ensures
        s.tick(now, timeout, ReceivedView::Message(msg)) == s.handle_message(now, timeout, msg),
        s.tick(now, timeout, ReceivedView::Disconnected).node == s,
        s.tick(now, timeout, ReceivedView::Disconnected).sent.len() == 0,
{
}

/// What came of waiting stands for itself.
pub proof fn law_received_stands_for_itself(r: Received)
    ensures
        match r {
            Received::Message(msg) => r@ == ReceivedView::Message(msg@),
            Received::Timeout => r@ == ReceivedView::Timeout,
            Received::Disconnected => r@ == ReceivedView::Disconnected,
        },
{
}

/// Requests put on their way exactly the messages that are sent to one node, to that node, and
/// those that are broadcast, to any.
pub proof fn law_requests_put_messages_on_their_way(sent: Seq<Request>, e: Envelope)
    ensures
        posted(sent).contains(e) <==> exists|i: int|
            0 <= i < sent.len() && match #[trigger] sent[i] {
                Request::Send { to, msg } => to == e.to && msg == e.msg,
                Request::Broadcast { msg } => msg == e.msg,
            },
{
    let send = Request::Send { to: e.to, msg: e.msg };
    let all = Request::Broadcast { msg: e.msg };
    if exists|i: int|
        0 <= i < sent.len() && match #[trigger] sent[i] {
            Request::Send { to, msg } => to == e.to && msg == e.msg,
            Request::Broadcast { msg } => msg == e.msg,
        } {
        let i = choose|i: int|
            0 <= i < sent.len() && match #[trigger] sent[i] {
                Request::Send { to, msg } => to == e.to && msg == e.msg,
                Request::Broadcast { msg } => msg == e.msg,
            };
        assert(sent[i] == send || sent[i] == all);
        assert(sent.contains(sent[i]));
    }
    if sent.contains(send) {
        let i = choose|i: int| 0 <= i < sent.len() && sent[i] == send;
        assert(sent[i] == send);
    }
    if sent.contains(all) {
        let i = choose|i: int| 0 <= i < sent.len() && sent[i] == all;
        assert(sent[i] == all);
    }
}

/// A node that follows an outcome has its state, and has handed exactly what it sends to the
/// transport, behind what was there.
pub proof fn law_node_follows_outcome<R: RPC>(node: Node<R>, before: Node<R>, o: Outcome)
    requires
        node.follows(&before, o),
    ensures
        node@ == o.node,
        node.requests().len() == before.requests().len() + o.sent.len(),
        forall|i: int|
            0 <= i < before.requests().len() ==> #[trigger] node.requests()[i]
                == before.requests()[i],
        forall|i: int|
            0 <= i < o.sent.len() ==> node.transport().requests()[before.requests().len() + i]
                == #[trigger] o.sent[i],
        before.transport().wf() ==> node.transport().wf() && node.transport().fixed()
            == before.transport().fixed(),
{
}

} // verus!
