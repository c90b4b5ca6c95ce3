//! Node states and behaviour.
use std::collections::{HashMap, HashSet};

use vstd::prelude::*;

use crate::kv::StateMachine;
use crate::log::{clone_entries, entries_view, merge_entries, term_of_last};
use crate::model::{
    apply_entries, lemma_matched, LogEntryView, MessageView, NodeView, Outcome,
    ReceivedView, Request,
};
use crate::rpc::rpc::{carried_on, Message, RPC};
use crate::timer::{
    elapsed_since, is_election_timeout, random_election_timeout, ELECTION_TIMEOUT_MIN_MS,
    NANOS_PER_MS,
};

pub use crate::log::LogEntry;

verus! {

broadcast use vstd::std_specs::hash::group_hash_axioms;

/// What a node is at the moment.
#[derive(Debug, Clone, Copy, PartialEq, Eq, Structural)]
pub enum NodeState {
    /// Follows a leader.
    Follower,
    /// Asks whether it would be elected.
    PreCandidate,
    /// Asks to be elected.
    Candidate,
    /// Leads.
    Leader,
}

/// The number of a term.
pub type Term = u64;

/// The name of a node.
pub type NodeId = u64;

/// What came of waiting for a message.
#[derive(Debug)]
pub enum Received {
    /// A message arrived.
    Message(Message),
    /// The time to wait passed.
    Timeout,
    /// No message will arrive any more.
    Disconnected,
}

impl View for Received {
    type V = ReceivedView;

    open spec fn view(&self) -> ReceivedView {
        match *self {
            Received::Message(msg) => ReceivedView::Message(msg@),
            Received::Timeout => ReceivedView::Timeout,
            Received::Disconnected => ReceivedView::Disconnected,
        }
    }
}

/// What the loop around a node does next. Times to wait are in nanoseconds.
#[derive(Debug, Clone, Copy, PartialEq, Eq, Structural)]
pub enum Action {
    /// Leave the loop.
    Stop,
    /// Wait this long for a message, then call [`Node::tick_follower`].
    Follow { timeout: u64 },
    /// Wait this long for a message, then call [`Node::tick_pre_candidate`].
    AwaitPreVotes { timeout: u64 },
    /// Wait this long for a message, then call [`Node::tick_candidate`].
    AwaitVotes { timeout: u64 },
    /// Collect the commands of clients, then call [`Node::tick_leader`].
    Lead,
}

/// A Raft node that talks through the transport `R`.
pub struct Node<R: RPC> {
    id: NodeId,
    state: NodeState,
    current_term: Term,
    voted_for: Option<NodeId>,
    // Log and state-machine application.
    log: Vec<LogEntry>,
    last_applied: u64,
    commit_index: u64,
    state_machine: StateMachine,
    // Cluster knowledge (includes the node itself).
    peers: Vec<NodeId>,
    // Leader-only bookkeeping (cleared on step-down, populated on becoming leader).
    next_index: HashMap<NodeId, u64>,
    match_index: HashMap<NodeId, u64>,
    // Election bookkeeping.
    last_heard: u64,
    election_timeout: u64,
    votes_received: HashSet<NodeId>,
    // Transport seam.
    rpc: R,
}

impl<R: RPC> View for Node<R> {
    type V = NodeView;

    closed spec fn view(&self) -> NodeView {
        NodeView {
            id: self.id,
            state: self.state,
            current_term: self.current_term,
            voted_for: self.voted_for,
            log: entries_view(self.log@),
            last_applied: self.last_applied,
            commit_index: self.commit_index,
            state_machine: self.state_machine@,
            peers: self.peers@,
            next_index: self.next_index@,
            match_index: self.match_index@,
            last_heard: self.last_heard,
            election_timeout: self.election_timeout,
            votes_received: self.votes_received@,
        }
    }
}

impl<R: RPC> Node<R> {
    /// The transport.
    pub closed spec fn transport(&self) -> R {
        self.rpc
    }

    /// What the node has handed to its transport and nobody has taken from there yet, oldest
    /// first.
    pub open spec fn requests(&self) -> Seq<Request> {
        self.transport().requests()
    }

    /// Whether the node is what `outcome` says, and has handed to its transport what
    /// `outcome` says, beyond what it had handed over at `before`, and done nothing else to it.
    pub open spec fn follows(&self, before: &Self, outcome: Outcome) -> bool {
        &&& self@ == outcome.node
        &&& self.requests() == before.requests() + outcome.sent
        &&& carried_on(self.transport(), before.transport())
    }

    /// A follower of term 0 with an empty log, its election timer started at `now`.
    pub fn new(id: NodeId, peers: Vec<NodeId>, rpc: R, now: u64) -> (res: Self)
        requires
            peers@.len() < usize::MAX,
        ensures
            res@.wf(),
            res@ == NodeView::started(id, peers@, now, res@.election_timeout),
            res.transport() == rpc,
    {
        let node = Node {
            id,
            state: NodeState::Follower,
            current_term: 0,
            voted_for: None,
            log: Vec::new(),
            last_applied: 0,
            commit_index: 0,
            state_machine: StateMachine::new(),
            peers,
            next_index: HashMap::new(),
            match_index: HashMap::new(),
            last_heard: now,
            election_timeout: random_election_timeout(),
            votes_received: HashSet::new(),
            rpc,
        };
        assert(entries_view(node.log@) =~= Seq::<LogEntryView>::empty());
        node
    }

    /// What the loop around the node does next: it stops on `shutdown`, otherwise the node's
    /// state decides, and the election timer says how long to wait.
    pub fn run(&self, now: u64, shutdown: bool) -> (res: Action)
        ensures
            res == if shutdown {
                Action::Stop
            } else {
                let timeout = self@.election_deadline_remaining(now) as u64;
                match self@.state {
                    NodeState::Follower => Action::Follow { timeout },
                    NodeState::PreCandidate => Action::AwaitPreVotes { timeout },
                    NodeState::Candidate => Action::AwaitVotes { timeout },
                    NodeState::Leader => Action::Lead,
                }
            },
    {
        if shutdown {
            return Action::Stop;
        }
        let timeout: u64 = self.election_deadline_remaining(now);
        match self.state {
            NodeState::Follower => Action::Follow { timeout },
            NodeState::PreCandidate => Action::AwaitPreVotes { timeout },
            NodeState::Candidate => Action::AwaitVotes { timeout },
            NodeState::Leader => Action::Lead,
        }
    }

    /// Takes what came of a follower's waiting.
    pub fn tick_follower(&mut self, now: u64, received: Received)
        requires
            old(self)@.wf(),
            old(self)@.can_take(received@),
        ensures
            final(self)@.wf(),
            final(self).follows(
                old(self),
                old(self)@.tick(now, final(self)@.election_timeout, received@),
            ),
    {
        match received {
            Received::Message(msg) => self.handle_message(now, msg),
            Received::Timeout => self.start_pre_election(now),
            Received::Disconnected => {
                assert(self.requests() =~= old(self).requests() + Seq::<Request>::empty());
            },
        }
    }

    /// Takes what came of a pre-candidate's waiting.
    pub fn tick_pre_candidate(&mut self, now: u64, received: Received)
        requires
            old(self)@.wf(),
            old(self)@.can_take(received@),
        ensures
            final(self)@.wf(),
            final(self).follows(
                old(self),
                old(self)@.tick(now, final(self)@.election_timeout, received@),
            ),
    {
        match received {
            Received::Message(msg) => self.handle_message(now, msg),
            Received::Timeout => self.start_pre_election(now),
            Received::Disconnected => {
                assert(self.requests() =~= old(self).requests() + Seq::<Request>::empty());
            },
        }
    }

    /// Takes what came of a candidate's waiting.
    pub fn tick_candidate(&mut self, now: u64, received: Received)
        requires
            old(self)@.wf(),
            old(self)@.can_take(received@),
        ensures
            final(self)@.wf(),
            final(self).follows(
                old(self),
                old(self)@.tick(now, final(self)@.election_timeout, received@),
            ),
    {
        match received {
            Received::Message(msg) => self.handle_message(now, msg),
            Received::Timeout => self.start_pre_election(now),
            Received::Disconnected => {
                assert(self.requests() =~= old(self).requests() + Seq::<Request>::empty());
            },
        }
    }

    /// Starts a leader's round: takes the commands of clients in, then replicates the log to
    /// every other node, which serves as the heartbeat.
    pub fn tick_leader(&mut self, commands: Vec<String>)
        requires
            old(self)@.wf(),
            old(self)@.can_lead(commands@.len()),
        ensures
            final(self)@.wf(),
            final(self).follows(
                old(self),
                old(self)@.tick_leader(commands@.map_values(|c: String| c@)),
            ),
    {
        self.drain_client_queue(commands);
        self.replicate();
    }

    /// Takes what came of a leader's waiting within a round; whether the round goes on.
    pub fn tick_leader_receive(&mut self, now: u64, received: Received) -> (res: bool)
        requires
            old(self)@.wf(),
            received is Message ==> old(self)@.can_take(received@),
        ensures
            final(self)@.wf(),
            match received@ {
                ReceivedView::Message(msg) => {
                    &&& final(self).follows(
                        old(self),
                        old(self)@.handle_message(now, final(self)@.election_timeout, msg),
                    )
                    &&& res == (final(self)@.state is Leader)
                },
                _ => *final(self) == *old(self) && !res,
            },
    {
        match received {
            Received::Message(msg) => {
                self.handle_message(now, msg);
                self.state == NodeState::Leader
            },
            _ => false,
        }
    }

    /// Appends commands of clients to the log, as entries of the current term.
    fn drain_client_queue(&mut self, commands: Vec<String>)
        requires
            old(self)@.wf(),
            old(self)@.log.len() + commands@.len() < usize::MAX,
        ensures
            final(self)@.wf(),
            final(self)@ == old(self)@.take_commands(commands@.map_values(|c: String| c@)),
            final(self).transport() == old(self).transport(),
    {
        let ghost texts = commands@.map_values(|c: String| c@);
        let term = self.current_term;
        let ghost taken = texts.map_values(
            |c: Seq<char>| LogEntryView { term: term, command: c },
        );
        for command in it: commands
            invariant
                it.seq() == commands@,
                texts == commands@.map_values(|c: String| c@),
                term == old(self)@.current_term,
                taken == texts.map_values(
                    |c: Seq<char>| LogEntryView { term: term, command: c },
                ),
                self@ == (NodeView { log: self@.log, ..old(self)@ }),
                self@.log =~= old(self)@.log + taken.take(it.index() as int),
                self.transport() == old(self).transport(),
        {
            let ghost before = self@.log;
            let ghost i = it.index() as int;
            assert(texts[i] == command@);
            self.log.push(LogEntry { term, command });
            assert(self@.log =~= before.push(taken[i]));
        }
        assert(taken.take(taken.len() as int) =~= taken);
    }

    /// Replicates the log to every other node.
    fn replicate(&mut self)
        requires
            old(self)@.wf(),
            old(self)@.can_replicate(0),
        ensures
            final(self).follows(
                old(self),
                Outcome {
                    node: old(self)@,
                    sent: old(self)@.replication(old(self)@.others()),
                },
            ),
    {
        let ghost was = self@;
        let ghost other = |p: NodeId| p != was.id;
        let mut i: usize = 0;
        assert(was.peers.take(0).filter(other) =~= Seq::<NodeId>::empty()) by {
            reveal_with_fuel(Seq::filter, 1);
        }
        assert(self.requests() =~= self.requests() + was.replication(Seq::<NodeId>::empty()));
        while i < self.peers.len()
            invariant
                i <= self.peers@.len(),
                self@ == was,
                was.wf(),
                was.can_replicate(0),
                was == old(self)@,
                other == |p: NodeId| p != was.id,
                self.requests() == old(self).requests() + was.replication(
                    was.peers.take(i as int).filter(other),
                ),
                carried_on(self.transport(), old(self).transport()),
            decreases self.peers@.len() - i,
        {
            let peer = self.peers[i];
            proof {
                lemma_filter_take(was.peers, i as int, other);
            }
            let ghost sent = was.replication(was.peers.take(i as int).filter(other));
            if peer != self.id {
                self.send_append_entries(peer);
                assert(was.replication(was.peers.take(i as int).filter(other).push(peer))
                    =~= sent.push(
                    Request::Send { to: peer, msg: was.append_entries_for(peer) },
                ));
                assert(self.requests() =~= old(self).requests() + sent.push(
                    Request::Send { to: peer, msg: was.append_entries_for(peer) },
                ));
            }
            i = i + 1;
        }
        assert(was.peers.take(i as int) =~= was.peers);
    }

    /// Sends `peer` the entries that it needs next, possibly none.
    fn send_append_entries(&mut self, peer: NodeId)
        requires
            old(self)@.wf(),
            old(self)@.can_send_to(peer),
        ensures
            final(self)@ == old(self)@,
            final(self).requests() == old(self).requests().push(
                Request::Send { to: peer, msg: old(self)@.append_entries_for(peer) },
            ),
            carried_on(final(self).transport(), old(self).transport()),
    {
        let next: u64 = self.next_index(peer);
        let prev: usize = (next - 1) as usize;
        let prev_log_term: Term = if prev == 0 {
            0
        } else {
            self.log[prev - 1].term
        };
        let entries = clone_entries(&self.log, prev);
        let msg = Message::AppendEntries {
            term: self.current_term,
            from: self.id,
            prev_log_index: next - 1,
            prev_log_term,
            entries,
            leader_commit: self.commit_index,
        };
        assert(msg@ == self@.append_entries_for(peer));
        self.rpc.send(peer, msg);
    }

    /// Whether the node can take what came of waiting: see [`NodeView::can_take`].
    pub fn can_take(&self, received: &Received) -> (res: bool)
        requires
            self@.wf(),
        ensures
            res == self@.can_take(received@),
    {
        match received {
            Received::Message(Message::AppendEntries { entries, .. }) => {
                entries.len() < usize::MAX - self.log.len()
            },
            Received::Message(
                Message::AppendEntriesResponse { term, success, match_index, .. },
            ) => {
                !(self.state == NodeState::Leader && *term == self.current_term && *success)
                    || *match_index < u64::MAX
            },
            Received::Message(_) => true,
            Received::Timeout => self.current_term < u64::MAX,
            Received::Disconnected => true,
        }
    }

    /// Whether the node can start a leader's round with this many commands: see
    /// [`NodeView::can_lead`].
    pub fn can_lead(&self, commands: usize) -> (res: bool)
        requires
            self@.wf(),
        ensures
            res == self@.can_lead(commands as nat),
    {
        if commands >= usize::MAX - self.log.len() {
            return false;
        }
        let len: u64 = (self.log.len() + commands) as u64;
        let mut i: usize = 0;
        while i < self.peers.len()
            invariant
                i <= self.peers@.len(),
                self@.wf(),
                len == self@.log.len() + commands,
                len < usize::MAX,
                forall|k: int|
                    0 <= k < i && self@.peers[k] != self@.id ==> 1 <= self@.next_for(
                        #[trigger] self@.peers[k],
                    ) <= len + 1,
            decreases self.peers@.len() - i,
        {
            let peer = self.peers[i];
            if peer != self.id {
                let next: u64 = self.next_index(peer);
                if next > len + 1 {
                    assert(!(1 <= self@.next_for(self@.peers[i as int]) <= len + 1));
                    return false;
                }
            }
            i = i + 1;
        }
        true
    }

    /// Takes a message. A higher term makes the node step down first, except in a pre-vote
    /// round: a node that returns from isolation must not disturb the others with the terms
    /// that it counted alone.
    pub fn handle_message(&mut self, now: u64, msg: Message)
        requires
            old(self)@.wf(),
            old(self)@.accepts(msg@),
        ensures
            final(self)@.wf(),
            final(self).follows(
                old(self),
                old(self)@.handle_message(now, final(self)@.election_timeout, msg@),
            ),
    {
        let is_prevote = match &msg {
            Message::PreVoteRequest { .. } | Message::PreVoteResponse { .. } => true,
            _ => false,
        };
        if !is_prevote {
            let msg_term: Term = msg.term();
            if msg_term > self.current_term {
                self.step_down(msg_term);
            }
        }
        assert(self@ == old(self)@.notice_term(msg@));
        match msg {
            Message::RequestVote { term, from, last_log_index, last_log_term } =>
                self.handle_request_vote(now, term, from, last_log_index, last_log_term),
            Message::AppendEntries {
                term,
                from,
                prev_log_index,
                prev_log_term,
                entries,
                leader_commit,
            } => self.handle_append_entries(
                now,
                term,
                from,
                prev_log_index,
                prev_log_term,
                entries,
                leader_commit,
            ),
            Message::VoteResponse { term, from, vote_granted } =>
                self.handle_vote_response(term, from, vote_granted),
            Message::AppendEntriesResponse { term, from, success, match_index } => {
                self.handle_append_entries_response(term, from, success, match_index);
                assert(self.requests() =~= old(self).requests() + Seq::<Request>::empty());
            },
            Message::PreVoteRequest { term, from, last_log_index, last_log_term } =>
                self.handle_pre_vote_request(now, term, from, last_log_index, last_log_term),
            Message::PreVoteResponse { term, from, vote_granted } =>
                self.handle_pre_vote_response(now, term, from, vote_granted),
        }
    }

    /// Whether a log with this last entry is at least as up-to-date as the node's own.
    fn log_ok(&self, last_log_index: u64, last_log_term: Term) -> (res: bool)
        ensures
            res == self@.up_to_date(last_log_index, last_log_term),
    {
        let our_last_idx: u64 = self.log.len() as u64;
        let our_last_term: Term = term_of_last(&self.log);
        last_log_term > our_last_term || (last_log_term == our_last_term && last_log_index
            >= our_last_idx)
    }

    /// Says whether the node would vote for `from` in `proposed_term`. The answer carries the
    /// proposed term, not the node's own.
    fn handle_pre_vote_request(
        &mut self,
        now: u64,
        proposed_term: Term,
        from: NodeId,
        last_log_index: u64,
        last_log_term: Term,
    )
        requires
            old(self)@.wf(),
        ensures
            final(self)@.wf(),
            final(self).follows(
                old(self),
                old(self)@.handle_pre_vote_request(
                    now,
                    proposed_term,
                    from,
                    last_log_index,
                    last_log_term,
                ),
            ),
    {
        let log_ok = self.log_ok(last_log_index, last_log_term);
        // Only grant if we would be willing to start our own election.
        let timer_ok = elapsed_since(self.last_heard, now) >= ELECTION_TIMEOUT_MIN_MS
            * NANOS_PER_MS;
        let grant = proposed_term > self.current_term && log_ok && timer_ok;
        self.rpc.send(
            from,
            Message::PreVoteResponse { term: proposed_term, from: self.id, vote_granted: grant },
        );
        assert(self.requests() =~= old(self).requests() + old(self)@.handle_pre_vote_request(
            now,
            proposed_term,
            from,
            last_log_index,
            last_log_term,
        ).sent);
    }

    /// Counts a pre-vote; a majority starts the election.
    fn handle_pre_vote_response(
        &mut self,
        now: u64,
        proposed_term: Term,
        from: NodeId,
        vote_granted: bool,
    )
        requires
            old(self)@.wf(),
        ensures
            final(self)@.wf(),
            final(self).follows(
                old(self),
                old(self)@.handle_pre_vote_response(
                    now,
                    final(self)@.election_timeout,
                    proposed_term,
                    from,
                    vote_granted,
                ),
            ),
    {
        assert(self.requests() =~= old(self).requests() + Seq::<Request>::empty());
        if self.state != NodeState::PreCandidate {
            return;
        }
        // The proposed term that we sent was the one after ours.
        if proposed_term != self.current_term + 1 || !vote_granted {
            return;
        }
        self.votes_received.insert(from);
        if self.has_majority() {
            // The pre-vote passed: now run a real election.
            self.start_election(now);
        }
    }

    /// Votes for `from`, or refuses.
    fn handle_request_vote(
        &mut self,
        now: u64,
        term: Term,
        from: NodeId,
        last_log_index: u64,
        last_log_term: Term,
    )
        requires
            old(self)@.wf(),
        ensures
            final(self)@.wf(),
            final(self).follows(
                old(self),
                old(self)@.handle_request_vote(
                    now,
                    final(self)@.election_timeout,
                    term,
                    from,
                    last_log_index,
                    last_log_term,
                ),
            ),
    {
        let log_ok = self.log_ok(last_log_index, last_log_term);
        let free = match self.voted_for {
            None => true,
            Some(voted_for) => voted_for == from,
        };
        let grant = term >= self.current_term && free && log_ok;
        if grant {
            self.voted_for = Some(from);
            self.reset_election_timer(now);
        }
        self.rpc.send(
            from,
            Message::VoteResponse { term: self.current_term, from: self.id, vote_granted: grant },
        );
        assert(self.requests() =~= old(self).requests() + old(self)@.handle_request_vote(
            now,
            self@.election_timeout,
            term,
            from,
            last_log_index,
            last_log_term,
        ).sent);
    }

    /// Takes entries of a leader over, or refuses.
    fn handle_append_entries(
        &mut self,
        now: u64,
        term: Term,
        from: NodeId,
        prev_log_index: u64,
        prev_log_term: Term,
        entries: Vec<LogEntry>,
        leader_commit: u64,
    )
        requires
            old(self)@.wf(),
            old(self)@.log.len() + entries@.len() < usize::MAX,
        ensures
            final(self)@.wf(),
            final(self).follows(
                old(self),
                old(self)@.handle_append_entries(
                    now,
                    final(self)@.election_timeout,
                    term,
                    from,
                    prev_log_index,
                    prev_log_term,
                    entries_view(entries@),
                    leader_commit,
                ),
            ),
    {
        // Stale leader.
        if term < self.current_term {
            self.answer_append_entries(from, false, 0);
            return;
        }
        // Valid leader for our term: refresh the timer, and stop standing for election.
        self.reset_election_timer(now);
        if self.state == NodeState::Candidate || self.state == NodeState::PreCandidate {
            self.state = NodeState::Follower;
        }
        let ghost node = self@;
        // Log-consistency check at prev_log_index.
        if prev_log_index > 0 {
            let consistent = prev_log_index <= self.log.len() as u64 && self.log[(prev_log_index
                - 1) as usize].term == prev_log_term;
            if !consistent {
                self.answer_append_entries(from, false, 0);
                return;
            }
        }
        // Walk the entries; truncate on conflict, then append the rest.
        let new_match: u64 = prev_log_index + entries.len() as u64;
        proof {
            lemma_matched(node.log, prev_log_index as int, entries_view(entries@));
        }
        merge_entries(&mut self.log, prev_log_index as usize, entries);
        // Advance the commit index with the leader's, capped by what this message covers.
        let cap: u64 = if leader_commit <= new_match {
            leader_commit
        } else {
            new_match
        };
        if cap > self.commit_index {
            self.commit_index = cap;
            self.apply_log();
        }
        self.answer_append_entries(from, true, new_match);
    }

    /// Answers an `AppendEntries`.
    fn answer_append_entries(&mut self, to: NodeId, success: bool, match_index: u64)
        ensures
            final(self).follows(
                old(self),
                Outcome {
                    node: old(self)@,
                    sent: old(self)@.append_answer(to, success, match_index),
                },
            ),
    {
        self.rpc.send(
            to,
            Message::AppendEntriesResponse {
                term: self.current_term,
                from: self.id,
                success,
                match_index,
            },
        );
        assert(self.requests() =~= old(self).requests() + old(self)@.append_answer(
            to,
            success,
            match_index,
        ));
    }

    /// Counts a vote; a majority makes the node leader.
    fn handle_vote_response(&mut self, term: Term, from: NodeId, vote_granted: bool)
        requires
            old(self)@.wf(),
        ensures
            final(self)@.wf(),
            final(self).follows(
                old(self),
                old(self)@.handle_vote_response(term, from, vote_granted),
            ),
    {
        assert(self.requests() =~= old(self).requests() + Seq::<Request>::empty());
        if self.state != NodeState::Candidate || term != self.current_term {
            return;
        }
        if vote_granted {
            self.votes_received.insert(from);
            if self.has_majority() {
                self.become_leader();
            }
        }
    }

    /// Counts the acknowledgement of a follower, or backs off after its refusal.
    fn handle_append_entries_response(
        &mut self,
        term: Term,
        from: NodeId,
        success: bool,
        match_index: u64,
    )
        requires
            old(self)@.wf(),
            old(self)@.state is Leader && term == old(self)@.current_term && success
                ==> match_index < u64::MAX,
        ensures
            final(self)@.wf(),
            final(self)@ == old(self)@.handle_append_entries_response(
                term,
                from,
                success,
                match_index,
            ),
            final(self).transport() == old(self).transport(),
    {
        if self.state != NodeState::Leader || term != self.current_term {
            return;
        }
        if success {
            self.match_index.insert(from, match_index);
            self.next_index.insert(from, match_index + 1);
            self.maybe_advance_commit();
        } else {
            // Back off and retry with the next heartbeat.
            let cur: u64 = self.next_index(from);
            let new: u64 = if cur >= 2 {
                cur - 1
            } else {
                1
            };
            self.next_index.insert(from, new);
        }
    }

    /// Asks all nodes whether they would vote for this one in the next term.
    fn start_pre_election(&mut self, now: u64)
        requires
            old(self)@.wf(),
            old(self)@.current_term < u64::MAX,
        ensures
            final(self)@.wf(),
            final(self).follows(
                old(self),
                old(self)@.start_pre_election(now, final(self)@.election_timeout),
            ),
    {
        self.state = NodeState::PreCandidate;
        self.votes_received.clear();
        self.votes_received.insert(self.id);
        self.reset_election_timer(now);
        let proposed_term: Term = self.current_term + 1;
        let last_log_index: u64 = self.log.len() as u64;
        let last_log_term: Term = term_of_last(&self.log);
        self.rpc.broadcast(
            Message::PreVoteRequest {
                term: proposed_term,
                from: self.id,
                last_log_index,
                last_log_term,
            },
        );
        // Single-node clusters: skip straight to the real election.
        let ghost asked = Request::Broadcast {
            msg: MessageView::PreVoteRequest {
                term: proposed_term,
                from: self@.id,
                last_log_index,
                last_log_term,
            },
        };
        assert(self.requests() =~= old(self).requests() + seq![asked]);
        if self.has_majority() {
            let ghost node = self@;
            self.start_election(now);
            let ghost elected = node.start_election(now, self@.election_timeout);
            assert(self.requests() =~= old(self).requests() + (seq![asked] + elected.sent));
        }
    }

    /// Enters the next term and asks all nodes for their votes.
    fn start_election(&mut self, now: u64)
        requires
            old(self)@.wf(),
            old(self)@.current_term < u64::MAX,
        ensures
            final(self)@.wf(),
            final(self).follows(
                old(self),
                old(self)@.start_election(now, final(self)@.election_timeout),
            ),
    {
        self.state = NodeState::Candidate;
        self.current_term = self.current_term + 1;
        self.voted_for = Some(self.id);
        self.votes_received.clear();
        self.votes_received.insert(self.id);
        self.reset_election_timer(now);
        let last_log_index: u64 = self.log.len() as u64;
        let last_log_term: Term = term_of_last(&self.log);
        self.rpc.broadcast(
            Message::RequestVote {
                term: self.current_term,
                from: self.id,
                last_log_index,
                last_log_term,
            },
        );
        let ghost asked = Request::Broadcast {
            msg: MessageView::RequestVote {
                term: self@.current_term,
                from: self@.id,
                last_log_index,
                last_log_term,
            },
        };
        assert(self.requests() =~= old(self).requests() + seq![asked]);
        if self.has_majority() {
            let ghost led = self@.become_leader();
            self.become_leader();
            assert(self.requests() =~= old(self).requests() + (seq![asked] + led.sent));
        }
    }

    /// Becomes leader and replicates at once.
    fn become_leader(&mut self)
        requires
            old(self)@.wf(),
        ensures
            final(self)@.wf(),
            final(self).follows(old(self), old(self)@.become_leader()),
    {
        self.state = NodeState::Leader;
        let last: u64 = self.log.len() as u64;
        self.next_index.clear();
        self.match_index.clear();
        let mut i: usize = 0;
        while i < self.peers.len()
            invariant
                i <= self.peers@.len(),
                old(self)@.wf(),
                last == old(self)@.log.len(),
                self.transport() == old(self).transport(),
                self@ == (NodeView {
                    state: NodeState::Leader,
                    next_index: self@.next_index,
                    match_index: self@.match_index,
                    ..old(self)@
                }),
                self@.next_index =~= Map::new(
                    |p: NodeId| self@.peers.take(i as int).contains(p) && p != self@.id,
                    |p: NodeId| (last + 1) as u64,
                ),
                self@.match_index =~= Map::new(
                    |p: NodeId| self@.peers.take(i as int).contains(p) && p != self@.id,
                    |p: NodeId| 0u64,
                ),
            decreases self.peers@.len() - i,
        {
            let peer = self.peers[i];
            proof {
                let before = self@.peers.take(i as int);
                let after = self@.peers.take(i + 1);
                assert(after =~= before.push(peer));
                assert forall|p: NodeId| after.contains(p) == (before.contains(p) || p
                    == peer) by {
                    vstd::seq_lib::lemma_seq_contains_after_push(before, peer, p);
                }
            }
            if peer != self.id {
                self.next_index.insert(peer, last + 1);
                self.match_index.insert(peer, 0);
            }
            i = i + 1;
        }
        proof {
            let led = old(self)@.become_leader().node;
            assert(self@.peers.take(i as int) =~= self@.peers);
            assert(self@.next_index =~= led.next_index);
            assert(self@.match_index =~= led.match_index);
            assert forall|k: int|
                0 <= k < self@.peers.len() && self@.peers[k]
                    != self@.id implies 1 <= self@.next_for(#[trigger] self@.peers[k])
                <= self@.log.len() + 1 by {
                assert(self@.peers.contains(self@.peers[k]));
            }
        }
        // Immediate heartbeat to assert authority.
        self.replicate();
    }

    /// Becomes a follower of a higher term.
    fn step_down(&mut self, new_term: Term)
        requires
            old(self)@.wf(),
        ensures
            final(self)@.wf(),
            final(self)@ == old(self)@.step_down(new_term),
            final(self).transport() == old(self).transport(),
    {
        self.current_term = new_term;
        self.voted_for = None;
        self.state = NodeState::Follower;
        self.next_index.clear();
        self.match_index.clear();
    }

    /// Whether more than half of the peers are counted as voters.
    fn has_majority(&self) -> (res: bool)
        ensures
            res == self@.has_majority(),
    {
        self.votes_received.len() > self.peers.len() / 2
    }

    /// Commits what a majority holds, and applies it.
    fn maybe_advance_commit(&mut self)
        requires
            old(self)@.wf(),
        ensures
            final(self)@.wf(),
            final(self)@ == old(self)@.maybe_advance_commit(),
            final(self).transport() == old(self).transport(),
    {
        let last: u64 = self.log.len() as u64;
        let mut new_commit: u64 = self.commit_index;
        let mut n: u64 = self.commit_index;
        while n < last
            invariant
                self@.wf(),
                last == self@.log.len(),
                self@.commit_index <= n,
                n <= last || n == self@.commit_index,
                new_commit == self@.greatest_committable(n),
                new_commit <= n,
            decreases last - n,
        {
            n = n + 1;
            // Only commit entries from the current term.
            if self.log[(n - 1) as usize].term == self.current_term {
                if self.count_holders(n) > self.peers.len() / 2 {
                    new_commit = n;
                }
            }
        }
        if last < n {
            assert(self@.greatest_committable(last) == self@.commit_index);
        }
        if new_commit > self.commit_index {
            self.commit_index = new_commit;
            self.apply_log();
        }
    }

    /// How many nodes hold the log up to index `n`, this one included.
    fn count_holders(&self, n: u64) -> (count: usize)
        requires
            self@.wf(),
        ensures
            count == self@.holders(n),
    {
        let ghost holds = |p: NodeId| p != self@.id && self@.match_for(p) >= n;
        let mut count: usize = 1;
        let mut i: usize = 0;
        assert(self@.peers.take(0).filter(holds).len() == 0) by {
            reveal_with_fuel(Seq::filter, 1);
        }
        while i < self.peers.len()
            invariant
                i <= self.peers@.len(),
                self@.wf(),
                holds == |p: NodeId| p != self@.id && self@.match_for(p) >= n,
                count == 1 + self@.peers.take(i as int).filter(holds).len(),
                count <= i + 1,
            decreases self.peers@.len() - i,
        {
            let peer = self.peers[i];
            proof {
                lemma_filter_take(self@.peers, i as int, holds);
            }
            if peer != self.id {
                let matched: u64 = match self.match_index.get(&peer) {
                    Some(matched) => *matched,
                    None => 0,
                };
                if matched >= n {
                    count = count + 1;
                }
            }
            i = i + 1;
        }
        assert(self@.peers.take(i as int) =~= self@.peers);
        count
    }

    /// Applies the committed entries that are not applied yet.
    fn apply_log(&mut self)
        requires
            old(self)@.wf(),
        ensures
            final(self)@.wf(),
            final(self)@ == old(self)@.apply_log(),
            final(self).transport() == old(self).transport(),
    {
        let ghost was = self@;
        let ghost start = self@.last_applied as int;
        assert(was.last_applied < was.log.len() ==> was.log.subrange(start, start) =~= Seq::<
            LogEntryView,
        >::empty());
        while self.last_applied < self.commit_index && self.last_applied < self.log.len() as u64
            invariant
                was == old(self)@,
                was.wf(),
                start == was.last_applied,
                start <= self@.last_applied,
                self.transport() == old(self).transport(),
                self@ == (NodeView {
                    last_applied: self@.last_applied,
                    state_machine: self@.state_machine,
                    ..was
                }),
                start == self@.last_applied ==> self@.state_machine == was.state_machine,
                start < self@.last_applied ==> {
                    &&& self@.last_applied <= was.commit_index
                    &&& self@.last_applied <= was.log.len()
                    &&& self@.state_machine == apply_entries(
                        was.state_machine,
                        was.log.subrange(start, self@.last_applied as int),
                    )
                },
            decreases was.commit_index - self@.last_applied,
        {
            let idx: usize = self.last_applied as usize;
            proof {
                let done = was.log.subrange(start, idx as int);
                let more = was.log.subrange(start, idx + 1);
                assert(more.drop_last() =~= done);
                assert(more.last() == was.log[idx as int]);
                if start == idx {
                    assert(done =~= Seq::<LogEntryView>::empty());
                }
                assert(self@.state_machine == apply_entries(was.state_machine, done));
            }
            assert(was.log[idx as int].command == self.log@[idx as int].command@);
            self.state_machine.apply_to_state_machine(self.log[idx].command.as_str());
            self.last_applied = self.last_applied + 1;
        }
    }

    /// Starts the election timer at `now`, with a random timeout.
    fn reset_election_timer(&mut self, now: u64)
        ensures
            final(self)@ == old(self)@.armed(now, final(self)@.election_timeout),
            is_election_timeout(final(self)@.election_timeout),
            final(self).transport() == old(self).transport(),
    {
        self.last_heard = now;
        self.election_timeout = random_election_timeout();
    }

    /// The time that is left at `now` until the election timeout, in nanoseconds.
    pub fn election_deadline_remaining(&self, now: u64) -> (res: u64)
        ensures
            res == self@.election_deadline_remaining(now),
    {
        let passed: u64 = elapsed_since(self.last_heard, now);
        if passed <= self.election_timeout {
            self.election_timeout - passed
        } else {
            0
        }
    }

    /// The name of the node.
    pub fn id(&self) -> (res: NodeId)
        ensures
            res == self@.id,
    {
        self.id
    }

    /// What the node is at the moment.
    pub fn state(&self) -> (res: NodeState)
        ensures
            res == self@.state,
    {
        self.state
    }

    /// The term that the node is in.
    pub fn current_term(&self) -> (res: Term)
        ensures
            res == self@.current_term,
    {
        self.current_term
    }

    /// Whom the node has voted for in its term.
    pub fn voted_for(&self) -> (res: Option<NodeId>)
        ensures
            res == self@.voted_for,
    {
        self.voted_for
    }

    /// The number of entries in the log.
    pub fn log_len(&self) -> (res: usize)
        ensures
            res == self@.log.len(),
    {
        self.log.len()
    }

    /// The entry at a position of the log, counted from 0.
    pub fn entry(&self, at: usize) -> (res: Option<&LogEntry>)
        ensures
            match res {
                Some(entry) => at < self@.log.len() && entry@ == self@.log[at as int],
                None => at >= self@.log.len(),
            },
    {
        if at < self.log.len() {
            Some(&self.log[at])
        } else {
            None
        }
    }

    /// The index up to which the log is known to be committed.
    pub fn commit_index(&self) -> (res: u64)
        ensures
            res == self@.commit_index,
    {
        self.commit_index
    }

    /// The index up to which the log is applied.
    pub fn last_applied(&self) -> (res: u64)
        ensures
            res == self@.last_applied,
    {
        self.last_applied
    }

    /// The index of the next entry for `peer`, 1 where nothing is known.
    pub fn next_index(&self, peer: NodeId) -> (res: u64)
        ensures
            res == self@.next_for(peer),
    {
        match self.next_index.get(&peer) {
            Some(next) => *next,
            None => 1,
        }
    }

    /// The state machine.
    pub fn state_machine(&self) -> (res: &StateMachine)
        ensures
            res@ == self@.state_machine,
    {
        &self.state_machine
    }

    /// The transport.
    pub fn rpc_mut(&mut self) -> (res: &mut R)
        ensures
            *res == old(self).transport(),
            final(self).transport() == *final(res),
            final(self)@ == old(self)@,
    {
        &mut self.rpc
    }
}

proof fn lemma_filter_take(s: Seq<NodeId>, i: int, keep: spec_fn(NodeId) -> bool)
    requires
        0 <= i < s.len(),
    ensures
        s.take(i + 1).filter(keep) == if keep(s[i]) {
            s.take(i).filter(keep).push(s[i])
        } else {
            s.take(i).filter(keep)
        },
{
    reveal_with_fuel(Seq::filter, 1);
    assert(s.take(i + 1).drop_last() =~= s.take(i));
}

} // verus!
