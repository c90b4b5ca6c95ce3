//! The mathematical model of a node and of what it does.
use vstd::prelude::*;

use crate::node::{NodeId, NodeState, Term};
use crate::timer::{elapsed, is_election_timeout, ELECTION_TIMEOUT_MIN_MS, NANOS_PER_MS};

verus! {

/// One entry of the replicated log.
pub struct LogEntryView {
    pub term: Term,
    pub command: Seq<char>,
}

/// A message between nodes.
pub enum MessageView {
    RequestVote { term: Term, from: NodeId, last_log_index: u64, last_log_term: Term },
    AppendEntries {
        term: Term,
        from: NodeId,
        prev_log_index: u64,
        prev_log_term: Term,
        entries: Seq<LogEntryView>,
        leader_commit: u64,
    },
    VoteResponse { term: Term, from: NodeId, vote_granted: bool },
    AppendEntriesResponse { term: Term, from: NodeId, success: bool, match_index: u64 },
    PreVoteRequest { term: Term, from: NodeId, last_log_index: u64, last_log_term: Term },
    PreVoteResponse { term: Term, from: NodeId, vote_granted: bool },
}

impl MessageView {
    /// The term that the message carries.
    pub open spec fn term(self) -> Term {
        match self {
            MessageView::RequestVote { term, .. } => term,
            MessageView::AppendEntries { term, .. } => term,
            MessageView::VoteResponse { term, .. } => term,
            MessageView::AppendEntriesResponse { term, .. } => term,
            MessageView::PreVoteRequest { term, .. } => term,
            MessageView::PreVoteResponse { term, .. } => term,
        }
    }

    /// The node that the message comes from.
    pub open spec fn from(self) -> NodeId {
        match self {
            MessageView::RequestVote { from, .. } => from,
            MessageView::AppendEntries { from, .. } => from,
            MessageView::VoteResponse { from, .. } => from,
            MessageView::AppendEntriesResponse { from, .. } => from,
            MessageView::PreVoteRequest { from, .. } => from,
            MessageView::PreVoteResponse { from, .. } => from,
        }
    }

    /// Whether the message belongs to a pre-vote round.
    pub open spec fn is_pre_vote(self) -> bool {
        self is PreVoteRequest || self is PreVoteResponse
    }
}

/// A request to a transport.
pub enum Request {
    Send { to: NodeId, msg: MessageView },
    Broadcast { msg: MessageView },
}

/// A message on its way to a node.
pub struct Envelope {
    pub to: NodeId,
    pub msg: MessageView,
}

/// The envelopes that requests to a transport stand for; a broadcast may reach any node.
pub open spec fn posted(sent: Seq<Request>) -> Set<Envelope> {
    Set::new(
        |e: Envelope|
            sent.contains(Request::Send { to: e.to, msg: e.msg }) || sent.contains(
                Request::Broadcast { msg: e.msg },
            ),
    )
}

/// The term of the last entry, 0 where there is none.
pub open spec fn last_term(log: Seq<LogEntryView>) -> Term {
    if log.len() == 0 {
        0
    } else {
        log.last().term
    }
}

/// How many of the leading `entries` have the term that `log` has at their place, the
/// first of them at `pos`.
pub open spec fn matched(log: Seq<LogEntryView>, pos: int, entries: Seq<LogEntryView>) -> nat
    decreases entries.len(),
{
    if entries.len() > 0 && 0 <= pos < log.len() && log[pos].term == entries[0].term {
        1 + matched(log, pos + 1, entries.drop_first())
    } else {
        0
    }
}

/// `log` with `entries` written behind its first `prev` entries: unchanged where all of
/// them are there already, otherwise cut off at the first conflict or at its end, and
/// followed by what was missing.
pub open spec fn merged(
    log: Seq<LogEntryView>,
    prev: int,
    entries: Seq<LogEntryView>,
) -> Seq<LogEntryView> {
    let m = matched(log, prev, entries) as int;
    if m == entries.len() {
        log
    } else {
        log.take(prev + m) + entries.skip(m)
    }
}

/// The number that [`matched`] gives is the length of the longest agreeing prefix.
pub proof fn lemma_matched(log: Seq<LogEntryView>, pos: int, entries: Seq<LogEntryView>)
    requires
        0 <= pos <= log.len(),
    ensures
        ({
            let m = matched(log, pos, entries) as int;
            &&& 0 <= m <= entries.len()
            &&& pos + m <= log.len()
            &&& forall|j: int| 0 <= j < m ==> log[pos + j].term == (#[trigger] entries[j]).term
            &&& m < entries.len() && pos + m < log.len() ==> log[pos + m].term != entries[m].term
        }),
    decreases entries.len(),
{
    let m = matched(log, pos, entries) as int;
    if entries.len() > 0 && pos < log.len() && log[pos].term == entries[0].term {
        let rest = entries.drop_first();
        lemma_matched(log, pos + 1, rest);
        assert forall|j: int| 0 <= j < m implies log[pos + j].term == (
        #[trigger] entries[j]).term by {
            if j > 0 {
                assert(rest[j - 1] == entries[j]);
            }
        }
        if m < entries.len() {
            assert(rest[m - 1] == entries[m]);
        }
    }
}

/// What one command makes of a state machine: `key=value`, split at the first equals
/// sign, sets `key`; a command without an equals sign changes nothing.
pub open spec fn apply_command(
    kv: Map<Seq<char>, Seq<char>>,
    command: Seq<char>,
) -> Map<Seq<char>, Seq<char>> {
    match command.index_of_first('=') {
        Some(at) => kv.insert(command.take(at), command.skip(at + 1)),
        None => kv,
    }
}

/// A key without an equals sign, an equals sign and a value set the key to the value.
pub proof fn lemma_apply_set(
    kv: Map<Seq<char>, Seq<char>>,
    key: Seq<char>,
    value: Seq<char>,
)
    requires
        !key.contains('='),
    ensures
        apply_command(kv, key.push('=') + value) == kv.insert(key, value),
{
    let command = key.push('=') + value;
    let at = key.len() as int;
    assert(command[at] == '=');
    assert forall|j: int| 0 <= j < at implies command[j] != '=' by {
        assert(command[j] == key[j]);
        assert(key.contains(key[j]));
    }
    command.index_of_first_ensures('=');
    assert(command.contains('='));
    assert(command.index_of_first('=') == Some(at));
    assert(command.take(at) =~= key);
    assert(command.skip(at + 1) =~= value);
}

/// A command without an equals sign changes nothing.
pub proof fn lemma_apply_other(kv: Map<Seq<char>, Seq<char>>, command: Seq<char>)
    requires
        !command.contains('='),
    ensures
        apply_command(kv, command) == kv,
{
    command.index_of_first_ensures('=');
}

/// What a sequence of entries makes of a state machine, applied in order.
pub open spec fn apply_entries(
    kv: Map<Seq<char>, Seq<char>>,
    entries: Seq<LogEntryView>,
) -> Map<Seq<char>, Seq<char>>
    decreases entries.len(),
{
    if entries.len() == 0 {
        kv
    } else {
        apply_command(apply_entries(kv, entries.drop_last()), entries.last().command)
    }
}

/// What came of waiting for a message.
pub enum ReceivedView {
    Message(MessageView),
    Timeout,
    Disconnected,
}

/// The state of a node.
#[verifier::ext_equal]
pub struct NodeView {
    pub id: NodeId,
    pub state: NodeState,
    pub current_term: Term,
    pub voted_for: Option<NodeId>,
    pub log: Seq<LogEntryView>,
    pub last_applied: u64,
    pub commit_index: u64,
    pub state_machine: Map<Seq<char>, Seq<char>>,
    pub peers: Seq<NodeId>,
    pub next_index: Map<NodeId, u64>,
    pub match_index: Map<NodeId, u64>,
    pub last_heard: u64,
    pub election_timeout: u64,
    pub votes_received: Set<NodeId>,
}

/// What one event makes of a node: its next state, and what it hands to the transport.
pub struct Outcome {
    pub node: NodeView,
    pub sent: Seq<Request>,
}

impl NodeView {
    /// What holds of every node: a node that asks for pre-votes can still enter the next
    /// term, indices of entries to send start at 1, the election timeout lies in its range,
    /// and the machine can count entries and peers.
    pub open spec fn wf(self) -> bool {
        &&& self.state is PreCandidate ==> self.current_term < u64::MAX
        &&& forall|p: NodeId| #[trigger]
            self.next_index.contains_key(p) ==> self.next_index[p] >= 1
        &&& is_election_timeout(self.election_timeout)
        &&& self.votes_received.finite()
        &&& self.log.len() < usize::MAX
        &&& self.commit_index < u64::MAX
        &&& self.peers.len() < usize::MAX
    }

    /// A node that has just started.
    pub open spec fn started(id: NodeId, peers: Seq<NodeId>, now: u64, timeout: u64) -> NodeView {
        NodeView {
            id,
            state: NodeState::Follower,
            current_term: 0,
            voted_for: None,
            log: Seq::empty(),
            last_applied: 0,
            commit_index: 0,
            state_machine: Map::empty(),
            peers,
            next_index: Map::empty(),
            match_index: Map::empty(),
            last_heard: now,
            election_timeout: timeout,
            votes_received: Set::empty(),
        }
    }

    /// The index of the last entry of the log, counted from 1.
    pub open spec fn last_log_index(self) -> u64 {
        self.log.len() as u64
    }

    /// Whether a log that ends with an entry of this index and term is at least as
    /// up-to-date as the log of this node.
    pub open spec fn up_to_date(self, last_log_index: u64, last_log_term: Term) -> bool {
        ||| last_log_term > last_term(self.log)
        ||| last_log_term == last_term(self.log) && last_log_index >= self.log.len()
    }

    /// The node with its election timer started at `now`.
    pub open spec fn armed(self, now: u64, timeout: u64) -> NodeView {
        NodeView { last_heard: now, election_timeout: timeout, ..self }
    }

    /// The time that is left at `now` until the election timeout.
    pub open spec fn election_deadline_remaining(self, now: u64) -> int {
        let passed = elapsed(self.last_heard, now);
        if passed <= self.election_timeout {
            self.election_timeout - passed
        } else {
            0
        }
    }

    /// The node after it has seen a higher term.
    pub open spec fn step_down(self, new_term: Term) -> NodeView {
        NodeView {
            current_term: new_term,
            voted_for: None,
            state: NodeState::Follower,
            next_index: Map::empty(),
            match_index: Map::empty(),
            ..self
        }
    }

    /// Whether more than half of the peers have granted their vote.
    pub open spec fn has_majority(self) -> bool {
        self.votes_received.len() > self.peers.len() / 2
    }

    /// The peers without the node itself.
    pub open spec fn others(self) -> Seq<NodeId> {
        self.peers.filter(|p: NodeId| p != self.id)
    }

    /// The index of the next entry that `peer` needs, 1 where nothing is known.
    pub open spec fn next_for(self, peer: NodeId) -> u64 {
        if self.next_index.contains_key(peer) {
            self.next_index[peer]
        } else {
            1
        }
    }

    /// The index up to which `peer` is known to hold the log of this node.
    pub open spec fn match_for(self, peer: NodeId) -> u64 {
        if self.match_index.contains_key(peer) {
            self.match_index[peer]
        } else {
            0
        }
    }

    /// Whether the entry before the next one for `peer` is in the log of this node, or
    /// there is none before it.
    pub open spec fn can_send_to(self, peer: NodeId) -> bool {
        1 <= self.next_for(peer) <= self.log.len() + 1
    }

    /// What replicates the log to `peer`: all entries from the next one on.
    pub open spec fn append_entries_for(self, peer: NodeId) -> MessageView {
        let prev = self.next_for(peer) - 1;
        MessageView::AppendEntries {
            term: self.current_term,
            from: self.id,
            prev_log_index: prev as u64,
            prev_log_term: if prev == 0 {
                0
            } else {
                self.log[prev - 1].term
            },
            entries: self.log.skip(prev),
            leader_commit: self.commit_index,
        }
    }

    /// The messages that replicate the log to `to`, in order.
    pub open spec fn replication(self, to: Seq<NodeId>) -> Seq<Request> {
        to.map_values(|p: NodeId| Request::Send { to: p, msg: self.append_entries_for(p) })
    }

    /// The node becomes leader: it expects every other node to hold its whole log, knows of
    /// none that does, and replicates at once.
    pub open spec fn become_leader(self) -> Outcome {
        let node = NodeView {
            state: NodeState::Leader,
            next_index: Map::new(
                |p: NodeId| self.peers.contains(p) && p != self.id,
                |p: NodeId| (self.log.len() + 1) as u64,
            ),
            match_index: Map::new(
                |p: NodeId| self.peers.contains(p) && p != self.id,
                |p: NodeId| 0u64,
            ),
            ..self
        };
        Outcome { node, sent: node.replication(node.others()) }
    }

    /// The node enters the next term as a candidate, votes for itself and asks all nodes for
    /// their votes; where its own vote is a majority it becomes leader.
    pub open spec fn start_election(self, now: u64, timeout: u64) -> Outcome {
        let node = NodeView {
            state: NodeState::Candidate,
            current_term: (self.current_term + 1) as u64,
            voted_for: Some(self.id),
            votes_received: Set::empty().insert(self.id),
            ..self.armed(now, timeout)
        };
        let asked = seq![
            Request::Broadcast {
                msg: MessageView::RequestVote {
                    term: node.current_term,
                    from: node.id,
                    last_log_index: node.last_log_index(),
                    last_log_term: last_term(node.log),
                },
            },
        ];
        if node.has_majority() {
            let led = node.become_leader();
            Outcome { node: led.node, sent: asked + led.sent }
        } else {
            Outcome { node, sent: asked }
        }
    }

    /// The node asks all nodes whether they would vote for it in the next term, which it does
    /// not enter yet; where its own vote is a majority it starts the election.
    pub open spec fn start_pre_election(self, now: u64, timeout: u64) -> Outcome {
        let node = NodeView {
            state: NodeState::PreCandidate,
            votes_received: Set::empty().insert(self.id),
            ..self.armed(now, timeout)
        };
        let asked = seq![
            Request::Broadcast {
                msg: MessageView::PreVoteRequest {
                    term: (node.current_term + 1) as u64,
                    from: node.id,
                    last_log_index: node.last_log_index(),
                    last_log_term: last_term(node.log),
                },
            },
        ];
        if node.has_majority() {
            let elected = node.start_election(now, timeout);
            Outcome { node: elected.node, sent: asked + elected.sent }
        } else {
            Outcome { node, sent: asked }
        }
    }

    /// Whether a pre-vote is granted: the term asked about is ahead, the log is good enough,
    /// and no leader was heard within the shortest election timeout.
    pub open spec fn grants_pre_vote(
        self,
        now: u64,
        proposed_term: Term,
        last_log_index: u64,
        last_log_term: Term,
    ) -> bool {
        &&& proposed_term > self.current_term
        &&& self.up_to_date(last_log_index, last_log_term)
        &&& elapsed(self.last_heard, now) >= ELECTION_TIMEOUT_MIN_MS * NANOS_PER_MS
    }

    /// The node answers a `PreVoteRequest`; its state stays.
    pub open spec fn handle_pre_vote_request(
        self,
        now: u64,
        proposed_term: Term,
        from: NodeId,
        last_log_index: u64,
        last_log_term: Term,
    ) -> Outcome {
        Outcome {
            node: self,
            sent: seq![
                Request::Send {
                    to: from,
                    msg: MessageView::PreVoteResponse {
                        term: proposed_term,
                        from: self.id,
                        vote_granted: self.grants_pre_vote(
                            now,
                            proposed_term,
                            last_log_index,
                            last_log_term,
                        ),
                    },
                },
            ],
        }
    }

    /// The node counts a `PreVoteResponse`.
    pub open spec fn handle_pre_vote_response(
        self,
        now: u64,
        timeout: u64,
        proposed_term: Term,
        from: NodeId,
        vote_granted: bool,
    ) -> Outcome {
        if self.state is PreCandidate && proposed_term == self.current_term + 1 && vote_granted {
            let node = NodeView { votes_received: self.votes_received.insert(from), ..self };
            if node.has_majority() {
                node.start_election(now, timeout)
            } else {
                Outcome { node, sent: Seq::empty() }
            }
        } else {
            Outcome { node: self, sent: Seq::empty() }
        }
    }

    /// Whether a vote is granted: the term is not behind, no other candidate has the vote
    /// of this node, and the log is good enough.
    pub open spec fn grants_vote(
        self,
        term: Term,
        from: NodeId,
        last_log_index: u64,
        last_log_term: Term,
    ) -> bool {
        &&& term >= self.current_term
        &&& self.voted_for is None || self.voted_for == Some(from)
        &&& self.up_to_date(last_log_index, last_log_term)
    }

    /// The node answers a `RequestVote`.
    pub open spec fn handle_request_vote(
        self,
        now: u64,
        timeout: u64,
        term: Term,
        from: NodeId,
        last_log_index: u64,
        last_log_term: Term,
    ) -> Outcome {
        let grant = self.grants_vote(term, from, last_log_index, last_log_term);
        Outcome {
            node: if grant {
                NodeView { voted_for: Some(from), ..self.armed(now, timeout) }
            } else {
                self
            },
            sent: seq![
                Request::Send {
                    to: from,
                    msg: MessageView::VoteResponse {
                        term: self.current_term,
                        from: self.id,
                        vote_granted: grant,
                    },
                },
            ],
        }
    }

    /// The node counts a `VoteResponse`.
    pub open spec fn handle_vote_response(
        self,
        term: Term,
        from: NodeId,
        vote_granted: bool,
    ) -> Outcome {
        if self.state is Candidate && term == self.current_term && vote_granted {
            let node = NodeView { votes_received: self.votes_received.insert(from), ..self };
            if node.has_majority() {
                node.become_leader()
            } else {
                Outcome { node, sent: Seq::empty() }
            }
        } else {
            Outcome { node: self, sent: Seq::empty() }
        }
    }

    /// Whether the log has an entry of this term at this index, counted from 1; index 0
    /// stands before the first entry.
    pub open spec fn log_matches(self, prev_log_index: u64, prev_log_term: Term) -> bool {
        prev_log_index > 0 ==> prev_log_index <= self.log.len() && self.log[prev_log_index
            - 1].term == prev_log_term
    }

    /// The answer to an `AppendEntries`.
    pub open spec fn append_answer(self, to: NodeId, success: bool, match_index: u64) -> Seq<
        Request,
    > {
        seq![
            Request::Send {
                to,
                msg: MessageView::AppendEntriesResponse {
                    term: self.current_term,
                    from: self.id,
                    success,
                    match_index,
                },
            },
        ]
    }

    /// The node with every committed entry that its log holds applied, in order, each once.
    pub open spec fn apply_log(self) -> NodeView {
        let end = if self.commit_index <= self.log.len() {
            self.commit_index as int
        } else {
            self.log.len() as int
        };
        if self.last_applied < end {
            NodeView {
                state_machine: apply_entries(
                    self.state_machine,
                    self.log.subrange(self.last_applied as int, end),
                ),
                last_applied: end as u64,
                ..self
            }
        } else {
            self
        }
    }

    /// The node with a commit index that its leader reports, capped by the last index that
    /// the leader's message covers, and with what that commits applied. Behind that index the
    /// log may hold a tail that the leader has not confirmed.
    pub open spec fn follow_commit(self, leader_commit: u64, covers: u64) -> NodeView {
        let cap = if leader_commit <= covers {
            leader_commit
        } else {
            covers
        };
        if cap > self.commit_index {
            NodeView { commit_index: cap, ..self }.apply_log()
        } else {
            self
        }
    }

    /// The node answers an `AppendEntries`: a stale leader and a log that does not match are
    /// refused, otherwise the entries are taken over and the commit index follows. The leader
    /// of the term ends a candidacy and a pre-vote round.
    pub open spec fn handle_append_entries(
        self,
        now: u64,
        timeout: u64,
        term: Term,
        from: NodeId,
        prev_log_index: u64,
        prev_log_term: Term,
        entries: Seq<LogEntryView>,
        leader_commit: u64,
    ) -> Outcome {
        if term < self.current_term {
            Outcome { node: self, sent: self.append_answer(from, false, 0) }
        } else {
            let node = NodeView {
                state: if self.state is Candidate || self.state is PreCandidate {
                    NodeState::Follower
                } else {
                    self.state
                },
                ..self.armed(now, timeout)
            };
            if node.log_matches(prev_log_index, prev_log_term) {
                let covers = (prev_log_index + entries.len()) as u64;
                Outcome {
                    node: NodeView {
                        log: merged(node.log, prev_log_index as int, entries),
                        ..node
                    }.follow_commit(leader_commit, covers),
                    sent: node.append_answer(from, true, covers),
                }
            } else {
                Outcome { node, sent: node.append_answer(from, false, 0) }
            }
        }
    }

    /// How many nodes hold the log of this node up to index `n`, the node itself included.
    pub open spec fn holders(self, n: u64) -> nat {
        1 + self.peers.filter(|p: NodeId| p != self.id && self.match_for(p) >= n).len()
    }

    /// Whether the leader may commit up to index `n`: the entry is of its own term, and more
    /// than half of the peers hold it.
    pub open spec fn committable(self, n: u64) -> bool {
        &&& self.commit_index < n <= self.log.len()
        &&& self.log[n - 1].term == self.current_term
        &&& self.holders(n) > self.peers.len() / 2
    }

    /// The greatest index up to `n` that the leader may commit, the commit index where there
    /// is none.
    pub open spec fn greatest_committable(self, n: u64) -> u64
        decreases n,
    {
        if n <= self.commit_index {
            self.commit_index
        } else if self.committable(n) {
            n
        } else {
            self.greatest_committable((n - 1) as u64)
        }
    }

    /// The leader commits what a majority holds, and applies it.
    pub open spec fn maybe_advance_commit(self) -> NodeView {
        let n = self.greatest_committable(self.last_log_index());
        if n > self.commit_index {
            NodeView { commit_index: n, ..self }.apply_log()
        } else {
            self
        }
    }

    /// The node counts an `AppendEntriesResponse`: a success moves the indices of the
    /// follower, a refusal backs off by one entry.
    pub open spec fn handle_append_entries_response(
        self,
        term: Term,
        from: NodeId,
        success: bool,
        match_index: u64,
    ) -> NodeView {
        if self.state is Leader && term == self.current_term {
            if success {
                NodeView {
                    match_index: self.match_index.insert(from, match_index),
                    next_index: self.next_index.insert(from, (match_index + 1) as u64),
                    ..self
                }.maybe_advance_commit()
            } else {
                let next = self.next_for(from);
                NodeView {
                    next_index: self.next_index.insert(
                        from,
                        if next >= 2 {
                            (next - 1) as u64
                        } else {
                            1
                        },
                    ),
                    ..self
                }
            }
        } else {
            self
        }
    }

    /// The messages that a node of this state can take: the log must have room for the
    /// entries, and the index after an acknowledged one must exist.
    pub open spec fn accepts(self, msg: MessageView) -> bool {
        match msg {
            MessageView::AppendEntries { entries, .. } => self.log.len() + entries.len()
                < usize::MAX,
            MessageView::AppendEntriesResponse { term, success, match_index, .. } => (
            self.state is Leader && term == self.current_term && success) ==> match_index
                < u64::MAX,
            _ => true,
        }
    }

    /// The node as it looks at a message: a higher term makes it step down first, except in
    /// a pre-vote round.
    pub open spec fn notice_term(self, msg: MessageView) -> NodeView {
        if !msg.is_pre_vote() && msg.term() > self.current_term {
            self.step_down(msg.term())
        } else {
            self
        }
    }

    /// The node takes a message.
    pub open spec fn handle_message(self, now: u64, timeout: u64, msg: MessageView) -> Outcome {
        let node = self.notice_term(msg);
        match msg {
            MessageView::RequestVote { term, from, last_log_index, last_log_term } =>
                node.handle_request_vote(now, timeout, term, from, last_log_index, last_log_term),
            MessageView::AppendEntries {
                term,
                from,
                prev_log_index,
                prev_log_term,
                entries,
                leader_commit,
            } => node.handle_append_entries(
                now,
                timeout,
                term,
                from,
                prev_log_index,
                prev_log_term,
                entries,
                leader_commit,
            ),
            MessageView::VoteResponse { term, from, vote_granted } =>
                node.handle_vote_response(term, from, vote_granted),
            MessageView::AppendEntriesResponse { term, from, success, match_index } => Outcome {
                node: node.handle_append_entries_response(term, from, success, match_index),
                sent: Seq::empty(),
            },
            MessageView::PreVoteRequest { term, from, last_log_index, last_log_term } =>
                node.handle_pre_vote_request(now, term, from, last_log_index, last_log_term),
            MessageView::PreVoteResponse { term, from, vote_granted } =>
                node.handle_pre_vote_response(now, timeout, term, from, vote_granted),
        }
    }

    /// What a node of this state can take: see [`NodeView::accepts`] for messages; after a
    /// timeout the node must be able to enter the next term.
    pub open spec fn can_take(self, received: ReceivedView) -> bool {
        match received {
            ReceivedView::Message(msg) => self.accepts(msg),
            ReceivedView::Timeout => self.current_term < u64::MAX,
            ReceivedView::Disconnected => true,
        }
    }

    /// A node that does not lead takes what came of waiting for a message.
    pub open spec fn tick(self, now: u64, timeout: u64, received: ReceivedView) -> Outcome {
        match received {
            ReceivedView::Message(msg) => self.handle_message(now, timeout, msg),
            ReceivedView::Timeout => self.start_pre_election(now, timeout),
            ReceivedView::Disconnected => Outcome { node: self, sent: Seq::empty() },
        }
    }

    /// The node with commands of clients appended to its log, in order.
    pub open spec fn take_commands(self, commands: Seq<Seq<char>>) -> NodeView {
        NodeView {
            log: self.log + commands.map_values(
                |c: Seq<char>| LogEntryView { term: self.current_term, command: c },
            ),
            ..self
        }
    }

    /// Whether the log, once it has `more` entries, can be replicated to every other node.
    pub open spec fn can_replicate(self, more: nat) -> bool {
        forall|i: int|
            0 <= i < self.peers.len() && self.peers[i] != self.id ==> 1 <= self.next_for(
                #[trigger] self.peers[i],
            ) <= self.log.len() + more + 1
    }

    /// Whether a leader can start a round with this many commands: its log has room for them,
    /// and can be replicated.
    pub open spec fn can_lead(self, commands: nat) -> bool {
        &&& self.log.len() + commands < usize::MAX
        &&& self.can_replicate(commands)
    }

    /// A leader starts a round: it takes the commands of clients in and replicates.
    pub open spec fn tick_leader(self, commands: Seq<Seq<char>>) -> Outcome {
        let node = self.take_commands(commands);
        Outcome { node, sent: node.replication(node.others()) }
    }
}

} // verus!
