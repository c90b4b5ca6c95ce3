//! What a follower makes of the entries of its leader.
use vstd::prelude::*;

use crate::model::{lemma_matched, matched, LogEntryView, MessageView, NodeView, Request};
use crate::node::{NodeId, NodeState, Term};

verus! {

/// Entries are accepted exactly where the leader's term is not an earlier one, and the log has,
/// where they are to follow an entry, an entry of that term at that place. The answer says so, in
/// the later of the two terms, with the index of the last entry that the message covers.
pub proof fn law_entries_are_accepted_where_logs_meet(
    s: NodeView,
    now: u64,
    timeout: u64,
    term: Term,
    from: NodeId,
    prev_log_index: u64,
    prev_log_term: Term,
    entries: Seq<LogEntryView>,
    leader_commit: u64,
)
    requires
        prev_log_index + entries.len() <= u64::MAX,
    ensures
        ({
            let o = s.handle_message(
                now,
                timeout,
                MessageView::AppendEntries {
                    term,
                    from,
                    prev_log_index,
                    prev_log_term,
                    entries,
                    leader_commit,
                },
            );
            let accepted = term >= s.current_term && (prev_log_index == 0 || prev_log_index
                <= s.log.len() && s.log[prev_log_index - 1].term == prev_log_term);
            o.sent == seq![
                Request::Send {
                    to: from,
                    msg: MessageView::AppendEntriesResponse {
                        term: if term > s.current_term {
                            term
                        } else {
                            s.current_term
                        },
                        from: s.id,
                        success: accepted,
                        match_index: if accepted {
                            (prev_log_index + entries.len()) as u64
                        } else {
                            0
                        },
                    },
                },
            ]
        }),
{
}

/// A leader whose term is not an earlier one makes every node that does not lead in that term a
/// follower of it, with its timer started; its vote is free where the term is a later one. The
/// log, the commit index and the state machine aside, nothing else changes.
pub proof fn law_leader_is_followed(
    s: NodeView,
    now: u64,
    timeout: u64,
    term: Term,
    from: NodeId,
    prev_log_index: u64,
    prev_log_term: Term,
    entries: Seq<LogEntryView>,
    leader_commit: u64,
)
    requires
        term >= s.current_term,
    ensures
        ({
            let node = s.handle_message(
                now,
                timeout,
                MessageView::AppendEntries {
                    term,
                    from,
                    prev_log_index,
                    prev_log_term,
                    entries,
                    leader_commit,
                },
            ).node;
            let later = term > s.current_term;
            node == NodeView {
                current_term: term,
                voted_for: if later {
                    None
                } else {
                    s.voted_for
                },
                state: if s.state is Leader && !later {
                    NodeState::Leader
                } else {
                    NodeState::Follower
                },
                next_index: if later {
                    Map::empty()
                } else {
                    s.next_index
                },
                match_index: if later {
                    Map::empty()
                } else {
                    s.match_index
                },
                last_heard: now,
                election_timeout: timeout,
                log: node.log,
                commit_index: node.commit_index,
                last_applied: node.last_applied,
                state_machine: node.state_machine,
                ..s
            }
        }),
{
}

/// Entries that are refused, because the leader is a stale one or the logs do not meet, leave the
/// log, the commit index and the state machine alone; those of a stale leader change nothing.
pub proof fn law_refused_entries_leave_the_log(
    s: NodeView,
    now: u64,
    timeout: u64,
    term: Term,
    from: NodeId,
    prev_log_index: u64,
    prev_log_term: Term,
    entries: Seq<LogEntryView>,
    leader_commit: u64,
)
    requires
        term < s.current_term || prev_log_index > 0 && (prev_log_index > s.log.len()
            || s.log[prev_log_index - 1].term != prev_log_term),
    ensures
        ({
            let node = s.handle_message(
                now,
                timeout,
                MessageView::AppendEntries {
                    term,
                    from,
                    prev_log_index,
                    prev_log_term,
                    entries,
                    leader_commit,
                },
            ).node;
            &&& node.log == s.log
            &&& node.commit_index == s.commit_index
            &&& node.last_applied == s.last_applied
            &&& node.state_machine == s.state_machine
            &&& term < s.current_term ==> node == s
        }),
{
}

/// Accepted entries whose terms are all in the log already, from their first place on, leave it
/// as it is, with what stands behind them.
pub proof fn law_known_entries_leave_the_log(
    s: NodeView,
    now: u64,
    timeout: u64,
    term: Term,
    from: NodeId,
    prev_log_index: u64,
    prev_log_term: Term,
    entries: Seq<LogEntryView>,
    leader_commit: u64,
)
    requires
        term >= s.current_term,
        prev_log_index == 0 || prev_log_index <= s.log.len() && s.log[prev_log_index - 1].term
            == prev_log_term,
        prev_log_index + entries.len() <= s.log.len(),
        forall|j: int|
            0 <= j < entries.len() ==> s.log[prev_log_index + j].term == (
            #[trigger] entries[j]).term,
    ensures
        s.handle_message(
            now,
            timeout,
            MessageView::AppendEntries {
                term,
                from,
                prev_log_index,
                prev_log_term,
                entries,
                leader_commit,
            },
        ).node.log == s.log,
{
    lemma_matched(s.log, prev_log_index as int, entries);
    let m = matched(s.log, prev_log_index as int, entries) as int;
    if m < entries.len() {
        assert(s.log[prev_log_index + m].term == entries[m].term);
    }
}

/// Accepted entries of which the first `known` are in the log already and the next one is not,
/// because the log ends there or has another term there: the log keeps what stands before that
/// place, ends where the entries end, and in between has the entries, each as it was sent.
pub proof fn law_new_entries_replace_the_tail(
    s: NodeView,
    now: u64,
    timeout: u64,
    term: Term,
    from: NodeId,
    prev_log_index: u64,
    prev_log_term: Term,
    entries: Seq<LogEntryView>,
    leader_commit: u64,
    known: int,
)
    requires
        term >= s.current_term,
        prev_log_index == 0 || prev_log_index <= s.log.len() && s.log[prev_log_index - 1].term
            == prev_log_term,
        0 <= known < entries.len(),
        prev_log_index + known <= s.log.len(),
        forall|j: int|
            0 <= j < known ==> s.log[prev_log_index + j].term == (#[trigger] entries[j]).term,
        prev_log_index + known == s.log.len() || s.log[prev_log_index + known].term
            != entries[known].term,
    ensures
        ({
            let log = s.handle_message(
                now,
                timeout,
                MessageView::AppendEntries {
                    term,
                    from,
                    prev_log_index,
                    prev_log_term,
                    entries,
                    leader_commit,
                },
            ).node.log;
            &&& log.len() == prev_log_index + entries.len()
            &&& forall|i: int| 0 <= i < prev_log_index + known ==> #[trigger] log[i] == s.log[i]
            &&& forall|i: int|
                prev_log_index + known <= i < prev_log_index + entries.len() ==> #[trigger] log[i]
                    == entries[i - prev_log_index]
        }),
{
    lemma_matched(s.log, prev_log_index as int, entries);
    let m = matched(s.log, prev_log_index as int, entries) as int;
    if m < known {
        assert(s.log[prev_log_index + m].term == entries[m].term);
    }
    if known < m {
        assert(s.log[prev_log_index + known].term == entries[known].term);
    }
    assert(m == known);
}

/// With accepted entries the commit index follows the leader's as far as the message covers the
/// log, and never goes back; where it moves, everything up to it is applied.
pub proof fn law_commit_index_follows_the_leader(
    s: NodeView,
    now: u64,
    timeout: u64,
    term: Term,
    from: NodeId,
    prev_log_index: u64,
    prev_log_term: Term,
    entries: Seq<LogEntryView>,
    leader_commit: u64,
)
    requires
        term >= s.current_term,
        prev_log_index == 0 || prev_log_index <= s.log.len() && s.log[prev_log_index - 1].term
            == prev_log_term,
        prev_log_index + entries.len() <= u64::MAX,
    ensures
        ({
            let node = s.handle_message(
                now,
                timeout,
                MessageView::AppendEntries {
                    term,
                    from,
                    prev_log_index,
                    prev_log_term,
                    entries,
                    leader_commit,
                },
            ).node;
            let covers = prev_log_index + entries.len();
            let cap = if leader_commit <= covers {
                leader_commit as int
            } else {
                covers
            };
            if cap > s.commit_index {
                &&& node.commit_index == cap
                &&& node.last_applied == if s.last_applied < cap {
                    cap
                } else {
                    s.last_applied as int
                }
            } else {
                &&& node.commit_index == s.commit_index
                &&& node.last_applied == s.last_applied
                &&& node.state_machine == s.state_machine
            }
        }),
{
    lemma_matched(s.log, prev_log_index as int, entries);
}

} // verus!
