//! The replicated log: its entries, and how a follower takes entries over.
use vstd::prelude::*;

use crate::model::{last_term, lemma_matched, matched, merged, LogEntryView};
use crate::node::Term;

verus! {

/// One entry of the replicated log.
#[derive(Debug)]
pub struct LogEntry {
    /// The term of the leader that took the command in.
    pub term: Term,
    /// The command for the state machine.
    pub command: String,
}

impl View for LogEntry {
    type V = LogEntryView;

    open spec fn view(&self) -> LogEntryView {
        LogEntryView { term: self.term, command: self.command@ }
    }
}

impl Clone for LogEntry {
    fn clone(&self) -> (res: Self)
        ensures
            res@ == self@,
    {
        LogEntry { term: self.term, command: self.command.clone() }
    }
}

/// The log that a sequence of entries stands for.
pub open spec fn entries_view(entries: Seq<LogEntry>) -> Seq<LogEntryView> {
    entries.map_values(|e: LogEntry| e@)
}

/// A copy of the entries from position `start` on.
pub fn clone_entries(entries: &Vec<LogEntry>, start: usize) -> (res: Vec<LogEntry>)
    requires
        start <= entries@.len(),
    ensures
        entries_view(res@) == entries_view(entries@).skip(start as int),
{
    let mut res: Vec<LogEntry> = Vec::new();
    let mut i: usize = start;
    while i < entries.len()
        invariant
            start <= i <= entries@.len(),
            entries_view(res@) =~= entries_view(entries@).subrange(start as int, i as int),
        decreases entries@.len() - i,
    {
        let ghost before = entries_view(res@);
        res.push(entries[i].clone());
        assert(entries_view(res@) =~= before.push(entries@[i as int]@));
        i = i + 1;
    }
    res
}

/// The term of the last entry, 0 where there is none.
pub fn term_of_last(log: &Vec<LogEntry>) -> (term: Term)
    ensures
        term == last_term(entries_view(log@)),
{
    if log.len() == 0 {
        0
    } else {
        log[log.len() - 1].term
    }
}

/// Writes `entries` into `log` behind its first `prev` entries: walks both while the
/// terms agree, cuts the log off at the first conflict, and appends the rest.
pub fn merge_entries(log: &mut Vec<LogEntry>, prev: usize, entries: Vec<LogEntry>)
    requires
        prev <= old(log)@.len(),
    ensures
        entries_view(final(log)@) == merged(
            entries_view(old(log)@),
            prev as int,
            entries_view(entries@),
        ),
{
    let ghost was = entries_view(log@);
    let ghost new = entries_view(entries@);
    let ghost m = matched(was, prev as int, new);
    proof {
        lemma_matched(was, prev as int, new);
    }
    let mut pos: usize = prev;
    for entry in it: entries
        invariant
            it.seq() == entries@,
            new == entries_view(entries@),
            m == matched(was, prev as int, new),
            0 <= m <= new.len(),
            prev + m <= was.len(),
            pos == prev + it.index(),
            pos <= log@.len(),
            prev <= was.len(),
            forall|j: int| 0 <= j < m ==> was[prev + j].term == (#[trigger] new[j]).term,
            m < new.len() && prev + m < was.len() ==> was[prev + m].term != new[m as int].term,
            entries_view(log@) =~= if it.index() <= m {
                was
            } else {
                was.take(prev + m) + new.subrange(m as int, it.index() as int)
            },
    {
        let ghost i = it.index() as int;
        assert(entry@ == new[i]);
        let ghost before = entries_view(log@);
        if pos < log.len() {
            if log[pos].term != entry.term {
                log.truncate(pos);
                log.push(entry);
                assert(entries_view(log@) =~= before.take(pos as int).push(new[i]));
            }
        } else {
            log.push(entry);
            assert(entries_view(log@) =~= before.push(new[i]));
        }
        let len: usize = log.len();
        assert(pos < len);
        pos = pos + 1;
    }
}

/// A log stands for as many entries as it has, each with its own term and command.
pub proof fn law_log_stands_for_its_entries(entries: Seq<LogEntry>, i: int)
    requires
        0 <= i < entries.len(),
    ensures
        entries_view(entries).len() == entries.len(),
        entries_view(entries)[i].term == entries[i].term,
        entries_view(entries)[i].command == entries[i].command@,
{
}

/// The last term of a log is that of its last entry, and 0 of an empty one.
pub proof fn law_last_term(log: Seq<LogEntryView>)
    ensures
        log.len() == 0 ==> last_term(log) == 0,
        log.len() > 0 ==> last_term(log) == log[log.len() - 1].term,
{
}

/// Entries written behind the first `prev` entries of a log, where the first `known` of them agree
/// with it in their terms and the next one, if there is one, does not: without a next one the log
/// stays; otherwise it keeps what stands before that one and goes on with the entries, to their
/// end.
pub proof fn law_merged_log(
    log: Seq<LogEntryView>,
    prev: int,
    entries: Seq<LogEntryView>,
    known: int,
)
    requires
        0 <= prev <= log.len(),
        0 <= known <= entries.len(),
        prev + known <= log.len(),
        forall|j: int| 0 <= j < known ==> log[prev + j].term == (#[trigger] entries[j]).term,
        known < entries.len() && prev + known < log.len() ==> log[prev + known].term
            != entries[known].term,
    ensures
        known == entries.len() ==> merged(log, prev, entries) == log,
        known < entries.len() ==> {
            let new = merged(log, prev, entries);
            &&& new.len() == prev + entries.len()
            &&& forall|i: int| 0 <= i < prev + known ==> #[trigger] new[i] == log[i]
            &&& forall|i: int|
                prev + known <= i < prev + entries.len() ==> #[trigger] new[i] == entries[i - prev]
        },
{
    lemma_matched(log, prev, entries);
    let m = matched(log, prev, entries) as int;
    if m < known {
        assert(log[prev + m].term == entries[m].term);
    }
    if known < m {
        assert(log[prev + known].term == entries[known].term);
    }
}

} // verus!
