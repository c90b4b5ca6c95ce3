use rafty::node::{Action, LogEntry, Node, NodeState, Received};
use rafty::rpc::{FaultyRPC, MemoryRPC, Message, Outbox, Outgoing};

const MS: u64 = 1_000_000;

fn node(id: u64, peers: Vec<u64>) -> Node<Outbox> {
    Node::new(id, peers, Outbox::new(), 0)
}

fn three() -> Node<Outbox> {
    node(1, vec![1, 2, 3])
}

fn entry(term: u64, command: &str) -> LogEntry {
    LogEntry { term, command: command.to_string() }
}

fn append(term: u64, prev: u64, prev_term: u64, entries: Vec<LogEntry>, commit: u64) -> Message {
    Message::AppendEntries {
        term,
        from: 2,
        prev_log_index: prev,
        prev_log_term: prev_term,
        entries,
        leader_commit: commit,
    }
}

fn deliver(n: &mut Node<Outbox>, now: u64, msg: Message) -> Vec<Outgoing> {
    assert!(n.can_take(&Received::Message(msg.clone())));
    n.handle_message(now, msg);
    n.rpc_mut().take()
}

fn timeout(n: &mut Node<Outbox>, now: u64) -> Vec<Outgoing> {
    assert!(n.can_take(&Received::Timeout));
    n.tick_follower(now, Received::Timeout);
    n.rpc_mut().take()
}

fn terms(n: &Node<Outbox>) -> Vec<u64> {
    (0..n.log_len()).map(|i| n.entry(i).unwrap().term).collect()
}

/// The answer to an `AppendEntries`: term, success, match index.
fn answer(sent: Vec<Outgoing>) -> (u64, bool, u64) {
    assert_eq!(sent.len(), 1);
    match &sent[0] {
        Outgoing::Send {
            to: 2,
            msg: Message::AppendEntriesResponse { term, from: 1, success, match_index },
        } => (*term, *success, *match_index),
        other => panic!("unexpected {:?}", other),
    }
}

/// The answer to a `RequestVote` of node `to`: term, granted.
fn vote(sent: Vec<Outgoing>, to: u64) -> (u64, bool) {
    assert_eq!(sent.len(), 1);
    match &sent[0] {
        Outgoing::Send { to: t, msg: Message::VoteResponse { term, from: 1, vote_granted } }
            if *t == to =>
        {
            (*term, *vote_granted)
        }
        other => panic!("unexpected {:?}", other),
    }
}

/// A leader of three in term 1.
fn leader() -> Node<Outbox> {
    let mut n = three();
    timeout(&mut n, MS);
    deliver(&mut n, MS, Message::PreVoteResponse { term: 1, from: 2, vote_granted: true });
    deliver(&mut n, MS, Message::VoteResponse { term: 1, from: 3, vote_granted: true });
    assert_eq!(n.state(), NodeState::Leader);
    n
}

#[test]
fn starts_as_follower_of_term_zero() {
    let n = three();
    assert_eq!(n.id(), 1);
    assert_eq!(n.state(), NodeState::Follower);
    assert_eq!(n.current_term(), 0);
    assert_eq!(n.voted_for(), None);
    assert_eq!(n.log_len(), 0);
    assert_eq!(n.commit_index(), 0);
    assert_eq!(n.last_applied(), 0);
    assert_eq!(n.state_machine().len(), 0);
    assert_eq!(n.next_index(2), 1);
}

#[test]
fn run_follows_the_state() {
    let n = three();
    assert_eq!(n.run(0, true), Action::Stop);
    match n.run(0, false) {
        Action::Follow { timeout } => {
            assert!(timeout >= 150 * MS && timeout < 300 * MS);
            assert_eq!(n.election_deadline_remaining(MS), timeout - MS);
            assert_eq!(n.election_deadline_remaining(timeout), 0);
            assert_eq!(n.election_deadline_remaining(timeout + 1), 0);
        }
        other => panic!("unexpected {:?}", other),
    }
    let mut n = three();
    timeout(&mut n, 5);
    assert!(matches!(n.run(5, false), Action::AwaitPreVotes { .. }));
    deliver(&mut n, 5, Message::PreVoteResponse { term: 1, from: 2, vote_granted: true });
    assert!(matches!(n.run(5, false), Action::AwaitVotes { .. }));
    assert_eq!(leader().run(5, false), Action::Lead);
}

#[test]
fn timeout_asks_for_pre_votes_without_a_new_term() {
    let mut n = three();
    let sent = timeout(&mut n, 7);
    assert_eq!(n.state(), NodeState::PreCandidate);
    assert_eq!(n.current_term(), 0);
    assert_eq!(n.voted_for(), None);
    assert_eq!(sent.len(), 1);
    assert!(matches!(
        &sent[0],
        Outgoing::Broadcast {
            msg: Message::PreVoteRequest { term: 1, from: 1, last_log_index: 0, last_log_term: 0 }
        }
    ));
    // Again and again: still no new term.
    n.tick_pre_candidate(8, Received::Timeout);
    n.tick_pre_candidate(9, Received::Timeout);
    assert_eq!(n.current_term(), 0);
}

#[test]
fn pre_vote_majority_starts_the_election() {
    let mut n = three();
    timeout(&mut n, 0);
    // Refusals and answers about another term do not count.
    deliver(&mut n, 0, Message::PreVoteResponse { term: 1, from: 2, vote_granted: false });
    deliver(&mut n, 0, Message::PreVoteResponse { term: 2, from: 2, vote_granted: true });
    assert_eq!(n.state(), NodeState::PreCandidate);
    // Nor does our own vote a second time.
    deliver(&mut n, 0, Message::PreVoteResponse { term: 1, from: 1, vote_granted: true });
    assert_eq!(n.state(), NodeState::PreCandidate);
    let sent = deliver(&mut n, 0, Message::PreVoteResponse { term: 1, from: 3, vote_granted: true });
    assert_eq!(n.state(), NodeState::Candidate);
    assert_eq!(n.current_term(), 1);
    assert_eq!(n.voted_for(), Some(1));
    assert_eq!(sent.len(), 1);
    assert!(matches!(
        &sent[0],
        Outgoing::Broadcast {
            msg: Message::RequestVote { term: 1, from: 1, last_log_index: 0, last_log_term: 0 }
        }
    ));
}

#[test]
fn vote_majority_makes_a_leader() {
    let mut n = three();
    timeout(&mut n, 0);
    deliver(&mut n, 0, Message::PreVoteResponse { term: 1, from: 2, vote_granted: true });
    deliver(&mut n, 0, Message::VoteResponse { term: 0, from: 2, vote_granted: true });
    deliver(&mut n, 0, Message::VoteResponse { term: 1, from: 2, vote_granted: false });
    assert_eq!(n.state(), NodeState::Candidate);
    let sent = deliver(&mut n, 0, Message::VoteResponse { term: 1, from: 2, vote_granted: true });
    assert_eq!(n.state(), NodeState::Leader);
    assert_eq!(sent.len(), 2);
    for (i, peer) in [2u64, 3].iter().enumerate() {
        match &sent[i] {
            Outgoing::Send {
                to,
                msg:
                    Message::AppendEntries {
                        term: 1,
                        from: 1,
                        prev_log_index: 0,
                        prev_log_term: 0,
                        entries,
                        leader_commit: 0,
                    },
            } => {
                assert_eq!(to, peer);
                assert!(entries.is_empty());
            }
            other => panic!("unexpected {:?}", other),
        }
    }
}

#[test]
fn single_node_elects_itself_and_commits_alone() {
    let mut n = node(7, vec![7]);
    n.tick_follower(0, Received::Timeout);
    let sent = n.rpc_mut().take();
    assert_eq!(n.state(), NodeState::Leader);
    assert_eq!(n.current_term(), 1);
    assert_eq!(sent.len(), 2);
    assert!(matches!(&sent[0], Outgoing::Broadcast { msg: Message::PreVoteRequest { term: 1, .. } }));
    assert!(matches!(&sent[1], Outgoing::Broadcast { msg: Message::RequestVote { term: 1, .. } }));
    assert!(n.can_lead(1));
    n.tick_leader(vec!["k=v".to_string()]);
    assert!(n.rpc_mut().take().is_empty());
    assert_eq!(terms(&n), vec![1]);
}

#[test]
fn pre_vote_needs_silence_term_and_log() {
    let mut n = three();
    deliver(&mut n, 1000 * MS, append(2, 0, 0, vec![entry(2, "a=1")], 0));
    let ask = |n: &mut Node<Outbox>, now: u64, term: u64, idx: u64, log_term: u64| {
        let sent = deliver(
            n,
            now,
            Message::PreVoteRequest { term, from: 3, last_log_index: idx, last_log_term: log_term },
        );
        assert_eq!(sent.len(), 1);
        match &sent[0] {
            Outgoing::Send {
                to: 3,
                msg: Message::PreVoteResponse { term: echoed, from: 1, vote_granted },
            } => {
                assert_eq!(*echoed, term);
                *vote_granted
            }
            other => panic!("unexpected {:?}", other),
        }
    };
    // A leader was heard a moment ago.
    assert!(!ask(&mut n, 1149 * MS, 3, 1, 2));
    assert!(ask(&mut n, 1150 * MS, 3, 1, 2));
    assert!(ask(&mut n, 1150 * MS, 9, 1, 2));
    // The term is not ahead.
    assert!(!ask(&mut n, 1150 * MS, 2, 1, 2));
    // The log is behind.
    assert!(!ask(&mut n, 1150 * MS, 3, 0, 2));
    assert!(!ask(&mut n, 1150 * MS, 3, 5, 1));
    assert!(ask(&mut n, 1150 * MS, 3, 0, 3));
    // None of this moved our term.
    assert_eq!(n.current_term(), 2);
    assert_eq!(n.voted_for(), None);
}

#[test]
fn granted_pre_vote_is_a_vote() {
    let mut n = three();
    let sent = deliver(
        &mut n,
        200 * MS,
        Message::PreVoteRequest { term: 5, from: 2, last_log_index: 0, last_log_term: 0 },
    );
    assert!(matches!(
        &sent[0],
        Outgoing::Send { msg: Message::PreVoteResponse { vote_granted: true, .. }, .. }
    ));
    let sent = deliver(
        &mut n,
        200 * MS,
        Message::RequestVote { term: 5, from: 2, last_log_index: 0, last_log_term: 0 },
    );
    assert_eq!(vote(sent, 2), (5, true));
}

#[test]
fn one_vote_per_term() {
    let mut n = three();
    let ask = |from: u64, term: u64| Message::RequestVote {
        term,
        from,
        last_log_index: 0,
        last_log_term: 0,
    };
    assert_eq!(vote(deliver(&mut n, 9, ask(2, 1)), 2), (1, true));
    assert_eq!(n.voted_for(), Some(2));
    assert_eq!(vote(deliver(&mut n, 9, ask(3, 1)), 3), (1, false));
    assert_eq!(vote(deliver(&mut n, 9, ask(2, 1)), 2), (1, true));
    // A new term frees the vote; an old one gets none.
    assert_eq!(vote(deliver(&mut n, 9, ask(3, 2)), 3), (2, true));
    assert_eq!(vote(deliver(&mut n, 9, ask(2, 1)), 2), (2, false));
    assert_eq!(n.voted_for(), Some(3));
}

#[test]
fn vote_restarts_the_timer_and_refusal_does_not() {
    let mut n = three();
    deliver(&mut n, 0, append(1, 0, 0, vec![entry(1, "a=1")], 0));
    let before = n.election_deadline_remaining(100 * MS);
    let ask = |idx: u64, log_term: u64| Message::RequestVote {
        term: 2,
        from: 3,
        last_log_index: idx,
        last_log_term: log_term,
    };
    assert_eq!(vote(deliver(&mut n, 100 * MS, ask(0, 0)), 3), (2, false));
    assert_eq!(n.election_deadline_remaining(100 * MS), before);
    assert_eq!(vote(deliver(&mut n, 100 * MS, ask(1, 1)), 3), (2, true));
    assert!(n.election_deadline_remaining(100 * MS) >= 150 * MS);
}

#[test]
fn outdated_candidate_gets_no_vote() {
    let mut n = three();
    deliver(&mut n, 0, append(2, 0, 0, vec![entry(1, "a=1"), entry(2, "b=2")], 0));
    let ask = |term: u64, idx: u64, log_term: u64| Message::RequestVote {
        term,
        from: 3,
        last_log_index: idx,
        last_log_term: log_term,
    };
    assert_eq!(vote(deliver(&mut n, 0, ask(3, 9, 1)), 3), (3, false));
    assert_eq!(vote(deliver(&mut n, 0, ask(3, 1, 2)), 3), (3, false));
    assert_eq!(n.voted_for(), None);
    assert_eq!(vote(deliver(&mut n, 0, ask(3, 2, 2)), 3), (3, true));
}

#[test]
fn higher_term_makes_a_follower() {
    let mut n = leader();
    deliver(
        &mut n,
        0,
        Message::AppendEntriesResponse { term: 4, from: 2, success: false, match_index: 0 },
    );
    assert_eq!(n.state(), NodeState::Follower);
    assert_eq!(n.current_term(), 4);
    assert_eq!(n.voted_for(), None);
    // A pre-vote round carries no such power.
    let mut n = leader();
    deliver(
        &mut n,
        0,
        Message::PreVoteRequest { term: 9, from: 2, last_log_index: 0, last_log_term: 0 },
    );
    deliver(&mut n, 0, Message::PreVoteResponse { term: 9, from: 2, vote_granted: true });
    assert_eq!(n.state(), NodeState::Leader);
    assert_eq!(n.current_term(), 1);
}

#[test]
fn stale_leader_is_refused() {
    let mut n = three();
    deliver(&mut n, 0, append(3, 0, 0, vec![entry(3, "a=1")], 0));
    let sent = deliver(&mut n, 0, append(2, 0, 0, vec![entry(2, "x=9")], 1));
    assert_eq!(answer(sent), (3, false, 0));
    assert_eq!(terms(&n), vec![3]);
    assert_eq!(n.commit_index(), 0);
}

#[test]
fn mismatch_is_refused() {
    let mut n = three();
    deliver(&mut n, 0, append(1, 0, 0, vec![entry(1, "a=1")], 0));
    // Too far ahead, and the wrong term.
    assert_eq!(answer(deliver(&mut n, 0, append(1, 2, 1, vec![], 1))), (1, false, 0));
    assert_eq!(answer(deliver(&mut n, 0, append(2, 1, 2, vec![], 1))), (2, false, 0));
    assert_eq!(n.commit_index(), 0);
    // The start of the log always matches.
    assert_eq!(answer(deliver(&mut n, 0, append(2, 0, 77, vec![], 0))), (2, true, 0));
}

#[test]
fn entries_are_appended_and_merged() {
    let mut n = three();
    let e = |terms: &[u64]| terms.iter().map(|t| entry(*t, "k=v")).collect::<Vec<_>>();
    assert_eq!(answer(deliver(&mut n, 0, append(2, 0, 0, e(&[1, 1, 2]), 0))), (2, true, 3));
    assert_eq!(terms(&n), vec![1, 1, 2]);
    // The same again changes nothing.
    assert_eq!(answer(deliver(&mut n, 0, append(2, 0, 0, e(&[1, 1, 2]), 0))), (2, true, 3));
    assert_eq!(terms(&n), vec![1, 1, 2]);
    // A beginning of what is there keeps the rest.
    assert_eq!(answer(deliver(&mut n, 0, append(2, 1, 1, e(&[1]), 0))), (2, true, 2));
    assert_eq!(terms(&n), vec![1, 1, 2]);
    // A conflict cuts the rest off.
    assert_eq!(answer(deliver(&mut n, 0, append(3, 1, 1, e(&[3, 3]), 0))), (3, true, 3));
    assert_eq!(terms(&n), vec![1, 3, 3]);
    assert_eq!(answer(deliver(&mut n, 0, append(4, 1, 1, e(&[4]), 0))), (4, true, 2));
    assert_eq!(terms(&n), vec![1, 4]);
    // A log that disagrees from its first entry on is replaced.
    assert_eq!(answer(deliver(&mut n, 0, append(5, 0, 0, e(&[5]), 0))), (5, true, 1));
    assert_eq!(terms(&n), vec![5]);
}

#[test]
fn commit_follows_the_leader_and_applies_once() {
    let mut n = three();
    let log = vec![entry(1, "a=1"), entry(1, "b=2"), entry(1, "a=3")];
    deliver(&mut n, 0, append(1, 0, 0, log, 2));
    assert_eq!(n.commit_index(), 2);
    assert_eq!(n.last_applied(), 2);
    assert_eq!(n.state_machine().get("a"), Some(&"1".to_string()));
    assert_eq!(n.state_machine().get("b"), Some(&"2".to_string()));
    // Capped by what the message covers, and never back.
    deliver(&mut n, 0, append(1, 3, 1, vec![], 9));
    assert_eq!(n.commit_index(), 3);
    assert_eq!(n.state_machine().get("a"), Some(&"3".to_string()));
    assert_eq!(n.state_machine().len(), 2);
    deliver(&mut n, 0, append(1, 3, 1, vec![], 1));
    assert_eq!(n.commit_index(), 3);
    assert_eq!(n.last_applied(), 3);
}

#[test]
fn commit_stays_out_of_an_unconfirmed_tail() {
    let mut n = three();
    let log = vec![entry(1, "a=1"), entry(1, "b=2"), entry(1, "c=3")];
    deliver(&mut n, 0, append(1, 0, 0, log, 0));
    assert_eq!(n.commit_index(), 0);
    // The message covers the first entry only, whatever the leader has committed.
    assert_eq!(answer(deliver(&mut n, 0, append(1, 1, 1, vec![], 3))), (1, true, 1));
    assert_eq!(n.commit_index(), 1);
    assert_eq!(n.last_applied(), 1);
    assert_eq!(n.state_machine().len(), 1);
    assert_eq!(n.state_machine().get("a"), Some(&"1".to_string()));
    assert_eq!(n.log_len(), 3);
    // One entry more is covered, and committed.
    deliver(&mut n, 0, append(1, 1, 1, vec![entry(1, "b=2")], 3));
    assert_eq!(n.commit_index(), 2);
    assert_eq!(n.last_applied(), 2);
    // A message that covers less takes nothing back.
    deliver(&mut n, 0, append(1, 1, 1, vec![], 3));
    assert_eq!(n.commit_index(), 2);
    assert_eq!(n.state_machine().len(), 2);
}

#[test]
fn a_leader_of_the_term_ends_a_candidacy_and_a_pre_vote_round() {
    let mut n = three();
    timeout(&mut n, 0);
    assert_eq!(n.state(), NodeState::PreCandidate);
    deliver(&mut n, 0, append(0, 0, 0, vec![], 0));
    assert_eq!(n.state(), NodeState::Follower);
    assert_eq!(n.current_term(), 0);
    // A late pre-vote starts no election.
    let sent =
        deliver(&mut n, 0, Message::PreVoteResponse { term: 1, from: 2, vote_granted: true });
    assert!(sent.is_empty());
    assert_eq!(n.state(), NodeState::Follower);
    assert_eq!(n.current_term(), 0);
    // The same for a candidate, also where the log does not match.
    timeout(&mut n, 0);
    deliver(&mut n, 0, Message::PreVoteResponse { term: 1, from: 2, vote_granted: true });
    assert_eq!(n.state(), NodeState::Candidate);
    assert_eq!(answer(deliver(&mut n, 0, append(1, 4, 1, vec![], 0))), (1, false, 0));
    assert_eq!(n.state(), NodeState::Follower);
    assert_eq!(n.current_term(), 1);
    assert_eq!(n.voted_for(), Some(1));
}

#[test]
fn a_pre_vote_round_in_a_later_term_ends_with_its_leader() {
    let mut n = three();
    deliver(&mut n, 0, append(1, 0, 0, vec![], 0));
    timeout(&mut n, 300 * MS);
    assert_eq!(n.state(), NodeState::PreCandidate);
    // A stale leader does not end it.
    deliver(&mut n, 300 * MS, append(0, 0, 0, vec![], 0));
    assert_eq!(n.state(), NodeState::PreCandidate);
    deliver(&mut n, 300 * MS, append(1, 0, 0, vec![], 0));
    assert_eq!(n.state(), NodeState::Follower);
    assert_eq!(n.current_term(), 1);
    assert!(n.election_deadline_remaining(300 * MS) >= 150 * MS);
}

#[test]
fn candidate_times_out_into_a_pre_vote_round() {
    let mut n = three();
    timeout(&mut n, 0);
    deliver(&mut n, 0, Message::PreVoteResponse { term: 1, from: 2, vote_granted: true });
    n.tick_candidate(0, Received::Timeout);
    assert_eq!(n.state(), NodeState::PreCandidate);
    assert_eq!(n.current_term(), 1);
    // A late vote no longer counts.
    deliver(&mut n, 0, Message::VoteResponse { term: 1, from: 3, vote_granted: true });
    assert_eq!(n.state(), NodeState::PreCandidate);
}

#[test]
fn disconnected_changes_nothing() {
    let mut n = three();
    n.tick_follower(5, Received::Disconnected);
    n.tick_pre_candidate(5, Received::Disconnected);
    n.tick_candidate(5, Received::Disconnected);
    assert_eq!(n.state(), NodeState::Follower);
    assert!(n.rpc_mut().take().is_empty());
    let mut n = leader();
    assert!(!n.tick_leader_receive(5, Received::Disconnected));
    assert!(!n.tick_leader_receive(5, Received::Timeout));
    assert_eq!(n.state(), NodeState::Leader);
}

#[test]
fn leader_takes_commands_replicates_and_commits() {
    let mut n = leader();
    n.tick_leader(vec!["a=1".to_string(), "b=2".to_string()]);
    let sent = n.rpc_mut().take();
    assert_eq!(sent.len(), 2);
    match &sent[1] {
        Outgoing::Send {
            to: 3,
            msg: Message::AppendEntries { prev_log_index: 0, entries, leader_commit: 0, .. },
        } => {
            assert_eq!(entries.len(), 2);
            assert_eq!(entries[0].command, "a=1");
            assert_eq!(entries[1].command, "b=2");
            assert_eq!(entries[1].term, 1);
        }
        other => panic!("unexpected {:?}", other),
    }
    assert_eq!(n.commit_index(), 0);
    let ack = |from: u64, m: u64| Message::AppendEntriesResponse {
        term: 1,
        from,
        success: true,
        match_index: m,
    };
    assert!(n.tick_leader_receive(0, Received::Message(ack(2, 1))));
    assert_eq!(n.commit_index(), 1);
    assert_eq!(n.state_machine().len(), 1);
    deliver(&mut n, 0, ack(3, 2));
    assert_eq!(n.commit_index(), 2);
    assert_eq!(n.last_applied(), 2);
    assert_eq!(n.state_machine().get("b"), Some(&"2".to_string()));
    // Next time each follower gets what it lacks, with the commit index.
    n.tick_leader(vec![]);
    let sent = n.rpc_mut().take();
    match (&sent[0], &sent[1]) {
        (
            Outgoing::Send {
                to: 2,
                msg: Message::AppendEntries { prev_log_index: 1, entries: first, leader_commit: 2, .. },
            },
            Outgoing::Send {
                to: 3,
                msg:
                    Message::AppendEntries {
                        prev_log_index: 2, prev_log_term: 1, entries: second, ..
                    },
            },
        ) => {
            assert_eq!(first.len(), 1);
            assert!(second.is_empty());
        }
        other => panic!("unexpected {:?}", other),
    }
}

#[test]
fn entries_of_an_earlier_term_are_committed_with_one_of_the_own_term() {
    let mut n = three();
    deliver(&mut n, 0, append(1, 0, 0, vec![entry(1, "a=1")], 0));
    timeout(&mut n, 0);
    deliver(&mut n, 0, Message::PreVoteResponse { term: 2, from: 3, vote_granted: true });
    deliver(&mut n, 0, Message::VoteResponse { term: 2, from: 3, vote_granted: true });
    assert_eq!(n.state(), NodeState::Leader);
    let ack = |m: u64| Message::AppendEntriesResponse {
        term: 2,
        from: 3,
        success: true,
        match_index: m,
    };
    // A majority holds the old entry, which is not enough.
    deliver(&mut n, 0, ack(1));
    assert_eq!(n.commit_index(), 0);
    n.tick_leader(vec!["b=2".to_string()]);
    deliver(&mut n, 0, ack(2));
    assert_eq!(n.commit_index(), 2);
    assert_eq!(n.state_machine().len(), 2);
}

#[test]
fn refusal_backs_off_by_one() {
    let mut n = three();
    deliver(&mut n, 0, append(1, 0, 0, vec![entry(1, "a=1"), entry(1, "b=2")], 0));
    timeout(&mut n, 0);
    deliver(&mut n, 0, Message::PreVoteResponse { term: 2, from: 3, vote_granted: true });
    deliver(&mut n, 0, Message::VoteResponse { term: 2, from: 3, vote_granted: true });
    let refuse =
        Message::AppendEntriesResponse { term: 2, from: 2, success: false, match_index: 0 };
    for expected in [2u64, 1, 0, 0] {
        assert_eq!(n.next_index(2), expected + 1);
        n.tick_leader(vec![]);
        let sent = n.rpc_mut().take();
        match &sent[0] {
            Outgoing::Send { to: 2, msg: Message::AppendEntries { prev_log_index, entries, .. } } => {
                assert_eq!(*prev_log_index, expected);
                assert_eq!(entries.len() as u64, 2 - expected);
            }
            other => panic!("unexpected {:?}", other),
        }
        deliver(&mut n, 0, refuse.clone());
    }
}

#[test]
fn late_answers_do_not_count() {
    let mut n = leader();
    n.tick_leader(vec!["a=1".to_string()]);
    n.rpc_mut().take();
    deliver(
        &mut n,
        0,
        Message::AppendEntriesResponse { term: 0, from: 2, success: true, match_index: 1 },
    );
    assert_eq!(n.commit_index(), 0);
    let mut n = three();
    deliver(
        &mut n,
        0,
        Message::AppendEntriesResponse { term: 0, from: 2, success: true, match_index: 1 },
    );
    assert_eq!(n.commit_index(), 0);
}

#[test]
fn what_cannot_be_counted_is_not_taken() {
    let n = leader();
    let ack = |m: u64| {
        Received::Message(Message::AppendEntriesResponse {
            term: 1,
            from: 2,
            success: true,
            match_index: m,
        })
    };
    assert!(n.can_take(&ack(u64::MAX - 1)));
    assert!(!n.can_take(&ack(u64::MAX)));
    assert!(three().can_take(&ack(u64::MAX)));
    let mut n = three();
    deliver(&mut n, 0, append(u64::MAX, 0, 0, vec![], 0));
    assert!(!n.can_take(&Received::Timeout));
    assert!(n.can_take(&Received::Disconnected));
    // A follower that claims more than the log holds leaves nothing to send from.
    let mut n = leader();
    deliver(
        &mut n,
        0,
        Message::AppendEntriesResponse { term: 1, from: 2, success: true, match_index: 5 },
    );
    assert!(!n.can_lead(0));
    assert!(!n.can_lead(4));
    assert!(n.can_lead(5));
    assert!(!n.can_lead(usize::MAX));
}

#[test]
fn leader_only_appends() {
    let mut n = leader();
    n.tick_leader(vec!["a=1".to_string()]);
    n.tick_leader(vec!["b=2".to_string(), "c=3".to_string()]);
    n.rpc_mut().take();
    deliver(
        &mut n,
        0,
        Message::AppendEntriesResponse { term: 1, from: 2, success: false, match_index: 0 },
    );
    deliver(&mut n, 0, Message::VoteResponse { term: 1, from: 2, vote_granted: true });
    let commands: Vec<&str> =
        (0..n.log_len()).map(|i| n.entry(i).unwrap().command.as_str()).collect();
    assert_eq!(commands, vec!["a=1", "b=2", "c=3"]);
    assert_eq!(terms(&n), vec![1, 1, 1]);
    assert_eq!(n.state(), NodeState::Leader);
}

#[test]
fn a_node_fills_the_inboxes_that_its_transport_reaches() {
    let peers: Vec<u64> = vec![1, 2, 3];
    let rpc = FaultyRPC::new(MemoryRPC::new(peers.clone()), peers.clone());
    let mut n = Node::new(1, peers, rpc, 0);
    n.rpc_mut().faults().isolate(3);
    n.tick_follower(0, Received::Timeout);
    n.handle_message(0, Message::PreVoteResponse { term: 1, from: 2, vote_granted: true });
    n.handle_message(0, Message::VoteResponse { term: 1, from: 2, vote_granted: true });
    assert_eq!(n.state(), NodeState::Leader);
    let mail: Vec<(u64, Message)> =
        n.rpc_mut().inner_mut().take().into_iter().map(|d| (d.to, d.msg)).collect();
    let to: Vec<u64> = mail.iter().map(|m| m.0).collect();
    assert_eq!(to, vec![1, 2, 1, 2, 2]);
    assert!(matches!(mail[0].1, Message::PreVoteRequest { term: 1, .. }));
    assert!(matches!(mail[2].1, Message::RequestVote { term: 1, .. }));
    assert!(matches!(mail[4].1, Message::AppendEntries { term: 1, .. }));
    // What was taken does not come again; what is healed hears the next round.
    n.rpc_mut().faults().heal(3);
    n.tick_leader(vec![]);
    let to: Vec<u64> = n.rpc_mut().inner_mut().take().iter().map(|d| d.to).collect();
    assert_eq!(to, vec![2, 3]);
}
