//! The cluster as a transition system.
use vstd::prelude::*;

use crate::model::{posted, Envelope, MessageView, NodeView, Outcome};
use crate::node::NodeId;
use crate::timer::is_election_timeout;

verus! {

/// A cluster: its members, their states, and every message that was ever sent. A message
/// may be delivered late, more than once, or never.
pub struct Cluster {
    pub members: Seq<NodeId>,
    pub nodes: Map<NodeId, NodeView>,
    pub network: Set<Envelope>,
}

/// One thing that happens to a node of the cluster.
pub enum Event {
    /// The node takes a message.
    Deliver { msg: MessageView },
    /// The election timeout of a node that does not lead has passed.
    Timeout,
    /// A leader starts a round with commands of clients.
    Lead { commands: Seq<Seq<char>> },
}

impl Cluster {
    /// A cluster whose nodes have just started.
    pub open spec fn init(self) -> bool {
        &&& self.members.no_duplicates()
        &&& self.members.len() < usize::MAX
        &&& self.network == Set::<Envelope>::empty()
        &&& forall|id: NodeId| #[trigger]
            self.members.contains(id) ==> exists|now: u64, timeout: u64|
                is_election_timeout(timeout) && self.nodes[id] == #[trigger] NodeView::started(
                    id,
                    self.members,
                    now,
                    timeout,
                )
    }

    /// What the event makes of node `id`.
    pub open spec fn outcome(self, id: NodeId, event: Event, now: u64, timeout: u64) -> Outcome {
        match event {
            Event::Deliver { msg } => self.nodes[id].handle_message(now, timeout, msg),
            Event::Timeout => self.nodes[id].start_pre_election(now, timeout),
            Event::Lead { commands } => self.nodes[id].tick_leader(commands),
        }
    }

    /// Whether the event can happen to node `id`: a message must have been sent to it, only
    /// a leader leads, only another node times out, and the machine can count terms and
    /// entries.
    pub open spec fn enabled(self, id: NodeId, event: Event) -> bool {
        let node = self.nodes[id];
        &&& self.members.contains(id)
        &&& match event {
            Event::Deliver { msg } => {
                &&& self.network.contains(Envelope { to: id, msg })
                &&& node.accepts(msg)
            },
            Event::Timeout => !(node.state is Leader) && node.current_term < u64::MAX,
            Event::Lead { commands } => {
                &&& node.state is Leader
                &&& node.can_lead(commands.len())
            },
        }
    }

    /// The event happens to node `id`.
    pub open spec fn step(
        self,
        next: Cluster,
        id: NodeId,
        event: Event,
        now: u64,
        timeout: u64,
    ) -> bool {
        let o = self.outcome(id, event, now, timeout);
        &&& self.enabled(id, event)
        &&& is_election_timeout(timeout)
        &&& next.members == self.members
        &&& next.nodes == self.nodes.insert(id, o.node)
        &&& next.network == self.network.union(posted(o.sent))
    }

    /// Some event happens to some node.
    pub open spec fn moves_to(self, next: Cluster) -> bool {
        exists|id: NodeId, event: Event, now: u64, timeout: u64| #[trigger]
            self.step(next, id, event, now, timeout)
    }
}

/// A run of a cluster: it starts with nodes that have just started, and something happens to
/// one node between each state and the next.
pub open spec fn is_run(run: Seq<Cluster>) -> bool {
    &&& run.len() > 0
    &&& run[0].init()
    &&& forall|i: int| 0 < i < run.len() ==> run[i - 1].moves_to(#[trigger] run[i])
}

} // verus!
