//! Laws of a single node.
use vstd::prelude::*;

use crate::model::{
    apply_command, apply_entries, last_term, lemma_apply_other, lemma_apply_set, lemma_matched,
    matched, merged, LogEntryView, MessageView, NodeView, Outcome, ReceivedView, Request,
};
use crate::node::{NodeId, NodeState, Term};
use crate::timer::is_election_timeout;

verus! {

/// The greatest committable index up to `n` is the commit index or a committable one, and
/// nothing committable up to `n` lies above it.
pub proof fn lemma_greatest_committable(s: NodeView, n: u64)
    ensures
        ({
            let g = s.greatest_committable(n);
            &&& s.commit_index <= g
            &&& g == s.commit_index || s.committable(g)
            &&& g <= n || g == s.commit_index
            &&& forall|k: u64| k <= n && #[trigger] s.committable(k) ==> k <= g
        }),
    decreases n,
{
    if n > s.commit_index && !s.committable(n) {
        lemma_greatest_committable(s, (n - 1) as u64);
    }
}

/// Applying `a` and then `b` is applying `a` followed by `b`.
pub proof fn lemma_apply_entries_concat(
    kv: Map<Seq<char>, Seq<char>>,
    a: Seq<LogEntryView>,
    b: Seq<LogEntryView>,
)
    ensures
        apply_entries(apply_entries(kv, a), b) == apply_entries(kv, a + b),
    decreases b.len(),
{
    if b.len() == 0 {
        assert(a + b =~= a);
    } else {
        lemma_apply_entries_concat(kv, a, b.drop_last());
        assert((a + b).drop_last() =~= a + b.drop_last());
        assert((a + b).last() == b.last());
    }
}

/// Every event that a valid node can take leaves it valid.
pub proof fn law_tick_keeps_node_valid(
    s: NodeView,
    now: u64,
    timeout: u64,
    received: ReceivedView,
)
    requires
        s.wf(),
        s.can_take(received),
        is_election_timeout(timeout),
    ensures
        s.tick(now, timeout, received).node.wf(),
{
    if let ReceivedView::Message(msg) = received {
        let node = s.notice_term(msg);
        match msg {
            MessageView::AppendEntries { prev_log_index, entries, .. } => {
                if 0 <= prev_log_index <= node.log.len() {
                    lemma_matched(node.log, prev_log_index as int, entries);
                }
            },
            MessageView::AppendEntriesResponse { from, match_index, .. } => {
                let acked = NodeView {
                    match_index: node.match_index.insert(from, match_index),
                    next_index: node.next_index.insert(from, (match_index + 1) as u64),
                    ..node
                };
                lemma_greatest_committable(acked, acked.last_log_index());
            },
            _ => {},
        }
    }
}

/// A leader's round leaves a valid node valid.
pub proof fn law_tick_leader_keeps_node_valid(s: NodeView, commands: Seq<Seq<char>>)
    requires
        s.wf(),
        s.log.len() + commands.len() < usize::MAX,
    ensures
        s.tick_leader(commands).node.wf(),
{
}

/// The term of a node never goes back.
pub proof fn law_term_never_goes_back(
    s: NodeView,
    now: u64,
    timeout: u64,
    received: ReceivedView,
)
    requires
        s.wf(),
        s.can_take(received),
    ensures
        s.tick(now, timeout, received).node.current_term >= s.current_term,
{
}

/// A node gives at most one vote in a term: while its term stays, a vote that it has given
/// stays.
pub proof fn law_one_vote_per_term(s: NodeView, now: u64, timeout: u64, received: ReceivedView)
    requires
        s.wf(),
        s.can_take(received),
        s.voted_for is Some,
        s.tick(now, timeout, received).node.current_term == s.current_term,
    ensures
        s.tick(now, timeout, received).node.voted_for == s.voted_for,
{
}

/// A message of a higher term, outside of a pre-vote round, makes the node a follower of
/// that term.
pub proof fn law_higher_term_makes_follower(s: NodeView, now: u64, timeout: u64, msg: MessageView)
    requires
        !msg.is_pre_vote(),
        msg.term() > s.current_term,
    ensures
        ({
            let node = s.handle_message(now, timeout, msg).node;
            &&& node.current_term == msg.term()
            &&& node.state is Follower
        }),
{
}

/// A `PreVoteRequest` leaves the node as it is, whatever term it carries.
pub proof fn law_pre_vote_request_changes_nothing(
    s: NodeView,
    now: u64,
    timeout: u64,
    msg: MessageView,
)
    requires
        msg is PreVoteRequest,
    ensures
        s.handle_message(now, timeout, msg).node == s,
{
}

/// A node enters a new term on its own only once a majority of votes or pre-votes, its own
/// included, is there for it: after a timeout or in a pre-vote round the term changes only
/// where more than half of the peers are counted.
pub proof fn law_no_new_term_without_majority(
    s: NodeView,
    now: u64,
    timeout: u64,
    received: ReceivedView,
)
    requires
        s.wf(),
        s.can_take(received),
        match received {
            ReceivedView::Message(msg) => msg.is_pre_vote(),
            _ => true,
        },
        s.tick(now, timeout, received).node.current_term != s.current_term,
    ensures
        match received {
            ReceivedView::Message(msg) => {
                &&& s.state is PreCandidate
                &&& s.votes_received.insert(msg.from()).len() > s.peers.len() / 2
            },
            _ => s.peers.len() < 2,
        },
        s.tick(now, timeout, received).node.current_term == s.current_term + 1,
{
    assert(Set::<NodeId>::empty().insert(s.id).len() == 1);
}

/// A pre-vote that is granted would be a vote that is granted: the node that grants it would,
/// in the same state, vote for the same candidate in the proposed term.
pub proof fn law_granted_pre_vote_is_a_vote(
    s: NodeView,
    now: u64,
    timeout: u64,
    proposed_term: Term,
    from: NodeId,
    last_log_index: u64,
    last_log_term: Term,
)
    requires
        s.grants_pre_vote(now, proposed_term, last_log_index, last_log_term),
    ensures
        s.handle_message(
            now,
            timeout,
            MessageView::RequestVote { term: proposed_term, from, last_log_index, last_log_term },
        ).sent == seq![
            Request::Send {
                to: from,
                msg: MessageView::VoteResponse {
                    term: proposed_term,
                    from: s.id,
                    vote_granted: true,
                },
            },
        ],
{
}

/// A node that has taken a leader's message, or given a vote, within the shortest election
/// timeout grants no pre-vote.
pub proof fn law_recent_contact_suppresses_pre_votes(
    s: NodeView,
    now: u64,
    proposed_term: Term,
    last_log_index: u64,
    last_log_term: Term,
)
    requires
        s.last_heard <= now,
        now - s.last_heard < 150_000_000,
    ensures
        !s.grants_pre_vote(now, proposed_term, last_log_index, last_log_term),
{
}

/// A candidate whose log is not at least as up-to-date gets no vote.
pub proof fn law_outdated_candidate_gets_no_vote(
    s: NodeView,
    now: u64,
    timeout: u64,
    term: Term,
    from: NodeId,
    last_log_index: u64,
    last_log_term: Term,
)
    requires
        last_log_term < last_term(s.log) || last_log_term == last_term(s.log) && last_log_index
            < s.log.len(),
    ensures
        ({
            let o = s.handle_message(
                now,
                timeout,
                MessageView::RequestVote { term, from, last_log_index, last_log_term },
            );
            &&& o.sent.len() == 1
            &&& o.sent[0] matches Request::Send { to, msg }
            &&& to == from
            &&& msg matches MessageView::VoteResponse { vote_granted, .. }
            &&& !vote_granted
            &&& o.node.voted_for != Some(from) || s.voted_for == Some(from)
        }),
{
}

/// A stale leader is refused, and its message changes nothing.
pub proof fn law_stale_leader_is_refused(s: NodeView, now: u64, timeout: u64, msg: MessageView)
    requires
        msg is AppendEntries,
        msg.term() < s.current_term,
    ensures
        s.handle_message(now, timeout, msg) == (Outcome {
            node: s,
            sent: s.append_answer(msg.from(), false, 0),
        }),
{
}

/// Entries behind a place where the logs differ are refused, and the log stays.
pub proof fn law_mismatch_is_refused(s: NodeView, now: u64, timeout: u64, msg: MessageView)
    requires
        msg matches MessageView::AppendEntries { prev_log_index, prev_log_term, .. }
            && !s.log_matches(prev_log_index, prev_log_term),
    ensures
        ({
            let o = s.handle_message(now, timeout, msg);
            &&& o.node.log == s.log
            &&& o.node.commit_index == s.commit_index
            &&& o.sent == o.node.append_answer(msg.from(), false, 0)
        }),
{
}

/// A leader that backs off to the start of its log is refused by no node of its term or an
/// earlier one: the consistency check holds at index 0.
pub proof fn law_start_of_log_always_matches(s: NodeView, prev_log_term: Term)
    ensures
        s.log_matches(0, prev_log_term),
{
}

/// Every refusal moves the next index of the follower one entry back, until it is 1.
pub proof fn law_refusal_backs_off(s: NodeView, from: NodeId, match_index: u64)
    requires
        s.state is Leader,
        s.next_for(from) >= 1,
    ensures
        ({
            let node = s.handle_append_entries_response(s.current_term, from, false, match_index);
            if s.next_for(from) > 1 {
                node.next_for(from) == s.next_for(from) - 1
            } else {
                node.next_for(from) == 1
            }
        }),
{
}

/// Once entries are taken over, the log holds an entry of the same term at each of their
/// places, and what stood before them still stands there.
pub proof fn law_merged_log_holds_entries(
    log: Seq<LogEntryView>,
    prev: int,
    entries: Seq<LogEntryView>,
)
    requires
        0 <= prev <= log.len(),
    ensures
        ({
            let new = merged(log, prev, entries);
            &&& prev + entries.len() <= new.len()
            &&& new.take(prev) == log.take(prev)
            &&& forall|j: int|
                0 <= j < entries.len() ==> new[prev + j].term == (#[trigger] entries[j]).term
        }),
{
    lemma_matched(log, prev, entries);
    let m = matched(log, prev, entries) as int;
    let new = merged(log, prev, entries);
    assert(new.take(prev) =~= log.take(prev));
    assert forall|j: int| 0 <= j < entries.len() implies new[prev + j].term == (
    #[trigger] entries[j]).term by {
        if m < entries.len() && j >= m {
            assert(new[prev + j] == entries.skip(m)[j - m]);
        }
    }
}

/// Taking the same entries over twice is taking them over once.
pub proof fn law_merge_is_idempotent(
    log: Seq<LogEntryView>,
    prev: int,
    entries: Seq<LogEntryView>,
)
    requires
        0 <= prev <= log.len(),
    ensures
        merged(merged(log, prev, entries), prev, entries) == merged(log, prev, entries),
{
    let new = merged(log, prev, entries);
    law_merged_log_holds_entries(log, prev, entries);
    lemma_matched(new, prev, entries);
    let m = matched(new, prev, entries) as int;
    if m < entries.len() {
        assert(new[prev + m].term == entries[m].term);
    }
}

/// What a follower takes over from nothing in common is the leader's log itself: entries
/// sent from the start replace a log that disagrees from its first entry on.
pub proof fn law_conflicting_log_is_replaced(log: Seq<LogEntryView>, entries: Seq<LogEntryView>)
    requires
        entries.len() > 0,
        log.len() == 0 || log[0].term != entries[0].term,
    ensures
        merged(log, 0, entries) == entries,
{
    assert(log.take(0) + entries.skip(0) =~= entries);
}

/// A leader commits an index only where the entry is of its own term and more than half of
/// the peers hold it, and then the greatest such index.
pub proof fn law_leader_commits_own_term_by_majority(s: NodeView)
    requires
        s.wf(),
    ensures
        ({
            let n = s.maybe_advance_commit().commit_index;
            &&& n == s.commit_index || {
                &&& s.commit_index < n <= s.log.len()
                &&& s.log[n - 1].term == s.current_term
                &&& s.holders(n) > s.peers.len() / 2
            }
            &&& forall|k: u64| #[trigger] s.committable(k) ==> k <= n
        }),
{
    lemma_greatest_committable(s, s.last_log_index());
}

/// Entries are applied once and in order: where the state machine is what the first
/// `last_applied` entries make of an empty one, it is so again after applying what is
/// committed.
pub proof fn law_applied_once_and_in_order(s: NodeView)
    requires
        s.last_applied <= s.log.len(),
        s.log.len() <= u64::MAX,
        s.state_machine == apply_entries(Map::empty(), s.log.take(s.last_applied as int)),
    ensures
        ({
            let node = s.apply_log();
            &&& s.last_applied <= node.last_applied <= node.log.len()
            &&& node.state_machine == apply_entries(
                Map::empty(),
                node.log.take(node.last_applied as int),
            )
            &&& s.commit_index <= s.log.len() && s.last_applied <= s.commit_index
                ==> node.last_applied == s.commit_index
        }),
{
    let end = if s.commit_index <= s.log.len() {
        s.commit_index as int
    } else {
        s.log.len() as int
    };
    if s.last_applied < end {
        lemma_apply_entries_concat(
            Map::empty(),
            s.log.take(s.last_applied as int),
            s.log.subrange(s.last_applied as int, end),
        );
        assert(s.log.take(s.last_applied as int) + s.log.subrange(s.last_applied as int, end)
            =~= s.log.take(end));
    }
}

/// What is applied stays applied: the number of applied entries never goes back.
pub proof fn law_applied_never_goes_back(
    s: NodeView,
    now: u64,
    timeout: u64,
    received: ReceivedView,
)
    ensures
        s.tick(now, timeout, received).node.last_applied >= s.last_applied,
{
}

/// A leader's message carries its log to the end, so the commit index that it reports never
/// exceeds what the message covers.
pub proof fn law_reported_commit_is_covered(s: NodeView, peer: NodeId)
    requires
        s.wf(),
        s.commit_index <= s.log.len(),
        s.can_send_to(peer),
    ensures
        s.append_entries_for(peer) matches MessageView::AppendEntries {
            prev_log_index,
            entries,
            leader_commit,
            ..
        } && prev_log_index + entries.len() == s.log.len() && leader_commit <= prev_log_index
            + entries.len(),
{
}

/// The commit index follows the reported one as far as the message covers the log: it never
/// moves into a tail that the leader has not confirmed, and never goes back.
pub proof fn law_followed_commit_is_covered(
    s: NodeView,
    now: u64,
    timeout: u64,
    term: Term,
    from: NodeId,
    prev_log_index: u64,
    prev_log_term: Term,
    entries: Seq<LogEntryView>,
    leader_commit: u64,
)
    requires
        s.wf(),
        s.log.len() + entries.len() < usize::MAX,
        term >= s.current_term,
        s.log_matches(prev_log_index, prev_log_term),
    ensures
        ({
            let covers = prev_log_index + entries.len();
            let node = s.handle_append_entries(
                now,
                timeout,
                term,
                from,
                prev_log_index,
                prev_log_term,
                entries,
                leader_commit,
            ).node;
            &&& covers <= node.log.len()
            &&& node.commit_index == if leader_commit <= s.commit_index || covers
                <= s.commit_index {
                s.commit_index as int
            } else if leader_commit <= covers {
                leader_commit as int
            } else {
                covers
            }
        }),
{
    law_merged_log_holds_entries(s.log, prev_log_index as int, entries);
}

/// The commit index of a node never goes back.
pub proof fn law_commit_never_goes_back(
    s: NodeView,
    now: u64,
    timeout: u64,
    received: ReceivedView,
)
    ensures
        s.tick(now, timeout, received).node.commit_index >= s.commit_index,
{
    if let ReceivedView::Message(MessageView::AppendEntriesResponse { from, match_index, .. }) =
        received {
        let acked = NodeView {
            match_index: s.match_index.insert(from, match_index),
            next_index: s.next_index.insert(from, (match_index + 1) as u64),
            ..s
        };
        lemma_greatest_committable(acked, acked.last_log_index());
    }
}

/// The leader of the term ends a candidacy and a pre-vote round: a node that takes its message
/// is a follower, unless it leads, and a late pre-vote no longer makes it start an election.
pub proof fn law_leader_ends_election(
    s: NodeView,
    now: u64,
    timeout: u64,
    msg: MessageView,
    later: u64,
    later_timeout: u64,
    proposed_term: Term,
    from: NodeId,
)
    requires
        msg is AppendEntries,
        msg.term() >= s.current_term,
        !(s.state is Leader),
    ensures
        ({
            let node = s.handle_message(now, timeout, msg).node;
            &&& node.state is Follower
            &&& node.handle_message(
                later,
                later_timeout,
                MessageView::PreVoteResponse { term: proposed_term, from, vote_granted: true },
            ) == (Outcome { node, sent: Seq::empty() })
        }),
{
}

/// A leader starts with every other node's next index behind its log, so that it can
/// replicate at once.
pub proof fn law_new_leader_can_replicate(s: NodeView)
    requires
        s.wf(),
    ensures
        s.become_leader().node.can_replicate(0),
        s.become_leader().node.state == NodeState::Leader,
{
    let led = s.become_leader().node;
    assert forall|i: int| 0 <= i < led.peers.len() && led.peers[i] != led.id implies 1
        <= led.next_for(#[trigger] led.peers[i]) <= led.log.len() + 1 by {
        assert(s.peers.contains(led.peers[i]));
    }
}

/// Setting a key gives its value back, and leaves the other keys alone.
pub proof fn law_set_then_get(
    kv: Map<Seq<char>, Seq<char>>,
    key: Seq<char>,
    value: Seq<char>,
    other: Seq<char>,
)
    requires
        !key.contains('='),
        other != key,
    ensures
        ({
            let new = apply_command(kv, key.push('=') + value);
            &&& new.contains_key(key)
            &&& new[key] == value
            &&& new.contains_key(other) == kv.contains_key(other)
            &&& kv.contains_key(other) ==> new[other] == kv[other]
        }),
{
    lemma_apply_set(kv, key, value);
}

/// A command without an equals sign changes nothing.
pub proof fn law_other_commands_are_ignored(kv: Map<Seq<char>, Seq<char>>, command: Seq<char>)
    requires
        !command.contains('='),
    ensures
        apply_command(kv, command) == kv,
{
    lemma_apply_other(kv, command);
}

} // verus!
