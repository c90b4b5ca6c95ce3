use rafty::node::{Node, NodeState, Received};
use rafty::rpc::{FaultController, Message, Outbox, Outgoing};

const MS: u64 = 1_000_000;

/// Three nodes and the messages between them.
struct Sim {
    nodes: Vec<Node<Outbox>>,
    faults: FaultController,
    now: u64,
}

impl Sim {
    fn new() -> Sim {
        let peers: Vec<u64> = vec![1, 2, 3];
        Sim {
            nodes: peers
                .iter()
                .map(|id| Node::new(*id, peers.clone(), Outbox::new(), 0))
                .collect(),
            faults: FaultController::new(),
            now: 0,
        }
    }

    fn node(&mut self, id: u64) -> &mut Node<Outbox> {
        &mut self.nodes[(id - 1) as usize]
    }

    /// Delivers messages until none is left.
    fn settle(&mut self) {
        loop {
            let mut mail: Vec<(u64, Message)> = Vec::new();
            for n in self.nodes.iter_mut() {
                for o in n.rpc_mut().take() {
                    match o {
                        Outgoing::Send { to, msg } => mail.push((to, msg)),
                        Outgoing::Broadcast { msg } => {
                            for to in 1..=3u64 {
                                mail.push((to, msg.clone()));
                            }
                        }
                    }
                }
            }
            if mail.is_empty() {
                return;
            }
            let now = self.now;
            for (to, msg) in mail {
                if !self.faults.blocked(msg.from(), to) {
                    assert!(self.node(to).can_take(&Received::Message(msg.clone())));
                    self.node(to).handle_message(now, msg);
                }
            }
            self.check();
        }
    }

    fn time_out(&mut self, id: u64) {
        self.now += 400 * MS;
        let now = self.now;
        self.node(id).tick_follower(now, Received::Timeout);
        self.settle();
    }

    fn lead(&mut self, id: u64, commands: &[&str]) {
        assert_eq!(self.node(id).state(), NodeState::Leader);
        assert!(self.node(id).can_lead(commands.len()));
        let commands = commands.iter().map(|c| c.to_string()).collect();
        self.node(id).tick_leader(commands);
        self.settle();
    }

    /// One leader per term, and agreement on what is committed.
    fn check(&self) {
        for a in &self.nodes {
            assert!(a.last_applied() <= a.commit_index());
            assert!(a.commit_index() as usize <= a.log_len());
            for b in &self.nodes {
                if a.state() == NodeState::Leader
                    && b.state() == NodeState::Leader
                    && a.current_term() == b.current_term()
                {
                    assert_eq!(a.id(), b.id());
                }
                let k = a.commit_index().min(b.commit_index()) as usize;
                for i in 0..k {
                    let (x, y) = (a.entry(i).unwrap(), b.entry(i).unwrap());
                    assert_eq!((x.term, &x.command), (y.term, &y.command));
                }
                if a.last_applied() == b.last_applied() {
                    assert_eq!(a.state_machine().len(), b.state_machine().len());
                }
            }
        }
    }
}

#[test]
fn nodes_converge_on_the_same_state() {
    let mut s = Sim::new();
    s.time_out(2);
    assert_eq!(s.node(2).state(), NodeState::Leader);
    assert_eq!(s.node(2).current_term(), 1);
    s.lead(2, &["a=1", "b=2"]);
    s.lead(2, &["a=3"]);
    s.lead(2, &[]);
    for id in 1..=3u64 {
        let n = s.node(id);
        assert_eq!(n.last_applied(), 3);
        assert_eq!(n.state_machine().len(), 2);
        assert_eq!(n.state_machine().get("a"), Some(&"3".to_string()));
        assert_eq!(n.state_machine().get("b"), Some(&"2".to_string()));
    }
}

#[test]
fn minority_leader_commits_nothing_and_its_entries_are_replaced() {
    let mut s = Sim::new();
    s.time_out(1);
    s.lead(1, &["a=1"]);
    s.faults.isolate(1);
    s.lead(1, &["lost=1", "lost=2"]);
    assert_eq!(s.node(1).commit_index(), 1);
    s.time_out(3);
    assert_eq!(s.node(3).state(), NodeState::Leader);
    assert_eq!(s.node(3).current_term(), 2);
    s.lead(3, &["b=2"]);
    s.lead(3, &[]);
    s.faults.heal(1);
    for _ in 0..4 {
        s.lead(3, &[]);
    }
    assert_eq!(s.node(1).state(), NodeState::Follower);
    for id in 1..=3u64 {
        let n = s.node(id);
        assert_eq!(n.log_len(), 2);
        assert_eq!(n.last_applied(), 2);
        assert_eq!(n.state_machine().get("lost"), None);
        assert_eq!(n.state_machine().get("b"), Some(&"2".to_string()));
    }
}

#[test]
fn returning_node_does_not_unseat_the_leader() {
    let mut s = Sim::new();
    s.time_out(1);
    s.faults.isolate(3);
    for _ in 0..5 {
        s.time_out(3);
        s.lead(1, &["k=v"]);
    }
    // Alone, the node has not counted a single term.
    assert_eq!(s.node(3).state(), NodeState::PreCandidate);
    assert_eq!(s.node(3).current_term(), 1);
    s.faults.heal(3);
    // It asks again, with a log that is behind.
    s.time_out(3);
    assert_eq!(s.node(1).state(), NodeState::Leader);
    assert_eq!(s.node(1).current_term(), 1);
    assert_eq!(s.node(2).current_term(), 1);
    s.lead(1, &[]);
    assert_eq!(s.node(3).log_len(), 5);
    assert_eq!(s.node(3).state(), NodeState::Follower);
    // It asks once more, with the whole log: a node that hears the leader refuses.
    let now = s.now;
    s.faults.isolate(1);
    s.node(3).tick_follower(now, Received::Timeout);
    s.settle();
    assert_eq!(s.node(2).current_term(), 1);
    assert_eq!(s.node(3).current_term(), 1);
}

#[test]
fn a_leader_answers_pre_votes_by_its_own_timer() {
    let mut s = Sim::new();
    s.time_out(1);
    s.now += 150 * MS;
    s.lead(1, &[]);
    // Node 2 has just heard the leader; the leader itself has heard none since its election.
    let now = s.now;
    s.node(3).tick_follower(now, Received::Timeout);
    s.settle();
    assert_eq!(s.node(3).state(), NodeState::Leader);
    assert_eq!(s.node(3).current_term(), 2);
    assert_eq!(s.node(1).state(), NodeState::Follower);
}

#[test]
fn an_election_needs_pre_votes_of_a_majority() {
    let mut s = Sim::new();
    s.now = 400 * MS;
    let now = s.now;
    s.node(1).tick_follower(now, Received::Timeout);
    // The question alone moves no term.
    let asked = s.node(1).rpc_mut().take();
    assert_eq!(asked.len(), 1);
    assert!(s.nodes.iter().all(|n| n.current_term() == 0));
    let request =
        Message::PreVoteRequest { term: 1, from: 1, last_log_index: 0, last_log_term: 0 };
    s.node(2).handle_message(now, request);
    assert!(s.nodes.iter().all(|n| n.current_term() == 0));
    // With the grant of one other node, two of three confirm.
    let granted = s.node(2).rpc_mut().take();
    assert!(matches!(
        &granted[0],
        Outgoing::Send {
            to: 1,
            msg: Message::PreVoteResponse { term: 1, from: 2, vote_granted: true }
        }
    ));
    let grant = Message::PreVoteResponse { term: 1, from: 2, vote_granted: true };
    s.node(1).handle_message(now, grant);
    assert_eq!(s.node(1).state(), NodeState::Candidate);
    assert_eq!(s.node(1).current_term(), 1);
    // The others enter the term by following its messages.
    s.settle();
    assert_eq!(s.node(1).state(), NodeState::Leader);
    assert!(s.nodes.iter().all(|n| n.current_term() == 1));
}

#[test]
fn no_majority_no_leader() {
    let mut s = Sim::new();
    s.faults.isolate(2);
    s.faults.isolate(3);
    s.time_out(1);
    assert_eq!(s.node(1).state(), NodeState::PreCandidate);
    assert_eq!(s.node(1).current_term(), 0);
}
