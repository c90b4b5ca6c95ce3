//! Messages between nodes, and the trait through which they leave a node.
use vstd::prelude::*;

use crate::log::{clone_entries, entries_view, LogEntry};
use crate::model::{MessageView, Request};
use crate::node::{NodeId, Term};

verus! {

/// What nodes say to each other.
#[derive(Debug)]
pub enum Message {
    /// A candidate of `term` asks for a vote.
    RequestVote { term: Term, from: NodeId, last_log_index: u64, last_log_term: Term },
    /// The leader of `term` replicates the entries that follow `prev_log_index`.
    AppendEntries {
        term: Term,
        from: NodeId,
        prev_log_index: u64,
        prev_log_term: Term,
        entries: Vec<LogEntry>,
        leader_commit: u64,
    },
    /// The answer to `RequestVote`.
    VoteResponse { term: Term, from: NodeId, vote_granted: bool },
    /// The answer to `AppendEntries`.
    AppendEntriesResponse { term: Term, from: NodeId, success: bool, match_index: u64 },
    /// A node asks whether it would be voted for in `term`, which it has not entered.
    PreVoteRequest { term: Term, from: NodeId, last_log_index: u64, last_log_term: Term },
    /// The answer to `PreVoteRequest`; `term` is the term that was asked about.
    PreVoteResponse { term: Term, from: NodeId, vote_granted: bool },
}

impl View for Message {
    type V = MessageView;

    open spec fn view(&self) -> MessageView {
        match *self {
            Message::RequestVote { term, from, last_log_index, last_log_term } =>
                MessageView::RequestVote { term, from, last_log_index, last_log_term },
            Message::AppendEntries {
                term,
                from,
                prev_log_index,
                prev_log_term,
                entries,
                leader_commit,
            } => MessageView::AppendEntries {
                term,
                from,
                prev_log_index,
                prev_log_term,
                entries: entries_view(entries@),
                leader_commit,
            },
            Message::VoteResponse { term, from, vote_granted } =>
                MessageView::VoteResponse { term, from, vote_granted },
            Message::AppendEntriesResponse { term, from, success, match_index } =>
                MessageView::AppendEntriesResponse { term, from, success, match_index },
            Message::PreVoteRequest { term, from, last_log_index, last_log_term } =>
                MessageView::PreVoteRequest { term, from, last_log_index, last_log_term },
            Message::PreVoteResponse { term, from, vote_granted } =>
                MessageView::PreVoteResponse { term, from, vote_granted },
        }
    }
}

impl Message {
    /// The term that the message carries.
    pub fn term(&self) -> (term: Term)
        ensures
            term == self@.term(),
    {
        match self {
            Message::RequestVote { term, .. }
            | Message::AppendEntries { term, .. }
            | Message::VoteResponse { term, .. }
            | Message::AppendEntriesResponse { term, .. }
            | Message::PreVoteRequest { term, .. }
            | Message::PreVoteResponse { term, .. } => *term,
        }
    }

    /// The node that the message comes from.
    pub fn from(&self) -> (from: NodeId)
        ensures
            from == self@.from(),
    {
        match self {
            Message::RequestVote { from, .. }
            | Message::AppendEntries { from, .. }
            | Message::VoteResponse { from, .. }
            | Message::AppendEntriesResponse { from, .. }
            | Message::PreVoteRequest { from, .. }
            | Message::PreVoteResponse { from, .. } => *from,
        }
    }
}

impl Clone for Message {
    fn clone(&self) -> (res: Self)
        ensures
            res@ == self@,
    {
        assert(self is AppendEntries ==> entries_view(self->entries@).skip(0) =~= entries_view(
            self->entries@,
        ));
        match self {
            Message::RequestVote { term, from, last_log_index, last_log_term } =>
                Message::RequestVote {
                    term: *term,
                    from: *from,
                    last_log_index: *last_log_index,
                    last_log_term: *last_log_term,
                },
            Message::AppendEntries {
                term,
                from,
                prev_log_index,
                prev_log_term,
                entries,
                leader_commit,
            } => Message::AppendEntries {
                term: *term,
                from: *from,
                prev_log_index: *prev_log_index,
                prev_log_term: *prev_log_term,
                entries: clone_entries(entries, 0),
                leader_commit: *leader_commit,
            },
            Message::VoteResponse { term, from, vote_granted } =>
                Message::VoteResponse { term: *term, from: *from, vote_granted: *vote_granted },
            Message::AppendEntriesResponse { term, from, success, match_index } =>
                Message::AppendEntriesResponse {
                    term: *term,
                    from: *from,
                    success: *success,
                    match_index: *match_index,
                },
            Message::PreVoteRequest { term, from, last_log_index, last_log_term } =>
                Message::PreVoteRequest {
                    term: *term,
                    from: *from,
                    last_log_index: *last_log_index,
                    last_log_term: *last_log_term,
                },
            Message::PreVoteResponse { term, from, vote_granted } =>
                Message::PreVoteResponse { term: *term, from: *from, vote_granted: *vote_granted },
        }
    }
}

/// Whether a transport that was `before` has only been handed requests since: if it was valid,
/// it still is, and what no request changes is the same.
pub open spec fn carried_on<R: RPC>(after: R, before: R) -> bool {
    before.wf() ==> after.wf() && after.fixed() == before.fixed()
}

/// A transport: takes the messages that a node hands over.
///
/// The methods take `&mut self`, so that their contracts can say what was handed
/// over; a transport that is shared between threads implements this trait for a
/// handle to it.
pub trait RPC: Send + Sync {
    /// What was handed to this transport and not taken out of it again, oldest first. A
    /// transport from which nothing is taken has everything here that it was ever handed.
    spec fn requests(&self) -> Seq<Request>;

    /// What [`RPC::fixed`] holds.
    type Fixed;

    /// The part of the transport that no request changes.
    spec fn fixed(&self) -> Self::Fixed;

    /// Whether the transport is valid: where its state depends on the requests that it was
    /// handed, how it does.
    spec fn wf(&self) -> bool;

    /// Takes a message for one node.
    fn send(&mut self, target: NodeId, msg: Message)
        ensures
            final(self).requests() == old(self).requests().push(
                Request::Send { to: target, msg: msg@ },
            ),
            old(self).wf() ==> final(self).wf() && final(self).fixed() == old(self).fixed(),
    ;

    /// Takes a message for every node.
    fn broadcast(&mut self, msg: Message)
        ensures
            final(self).requests() == old(self).requests().push(Request::Broadcast { msg: msg@ }),
            old(self).wf() ==> final(self).wf() && final(self).fixed() == old(self).fixed(),
    ;
}

/// One request to a transport, as a value.
#[derive(Debug)]
pub enum Outgoing {
    /// A message for one node.
    Send { to: NodeId, msg: Message },
    /// A message for every node.
    Broadcast { msg: Message },
}

impl View for Outgoing {
    type V = Request;

    open spec fn view(&self) -> Request {
        match *self {
            Outgoing::Send { to, msg } => Request::Send { to, msg: msg@ },
            Outgoing::Broadcast { msg } => Request::Broadcast { msg: msg@ },
        }
    }
}

/// A transport that keeps what it is handed.
#[derive(Debug)]
pub struct Outbox {
    queue: Vec<Outgoing>,
}

impl Outbox {
    /// What is kept, oldest first.
    pub closed spec fn kept(&self) -> Seq<Request> {
        self.queue@.map_values(|o: Outgoing| o@)
    }

    /// An outbox that keeps nothing yet.
    pub fn new() -> (res: Outbox)
        ensures
            res.requests() == Seq::<Request>::empty(),
    {
        let res = Outbox { queue: Vec::new() };
        assert(res.kept() =~= Seq::<Request>::empty());
        res
    }

    /// Hands out what is kept, oldest first, and keeps nothing of it.
    pub fn take(&mut self) -> (res: Vec<Outgoing>)
        ensures
            res@.map_values(|o: Outgoing| o@) == old(self).requests(),
            final(self).requests() == Seq::<Request>::empty(),
    {
        let mut res: Vec<Outgoing> = Vec::new();
        std::mem::swap(&mut res, &mut self.queue);
        assert(self.kept() =~= Seq::<Request>::empty());
        res
    }
}

impl RPC for Outbox {
    open spec fn requests(&self) -> Seq<Request> {
        self.kept()
    }

    type Fixed = ();

    open spec fn fixed(&self) -> () {
        ()
    }

    open spec fn wf(&self) -> bool {
        true
    }

    fn send(&mut self, target: NodeId, msg: Message) {
        self.queue.push(Outgoing::Send { to: target, msg });
        assert(self.kept() =~= old(self).kept().push(Request::Send { to: target, msg: msg@ }));
    }

    fn broadcast(&mut self, msg: Message) {
        self.queue.push(Outgoing::Broadcast { msg });
        assert(self.kept() =~= old(self).kept().push(Request::Broadcast { msg: msg@ }));
    }
}

/// A message stands for itself: the same kind, with the same fields, and of its entries each with
/// its term and command.
pub proof fn law_message_stands_for_itself(m: Message)
    ensures
        match m {
            Message::RequestVote { term, from, last_log_index, last_log_term } => m@
                == (MessageView::RequestVote { term, from, last_log_index, last_log_term }),
            Message::AppendEntries {
                term,
                from,
                prev_log_index,
                prev_log_term,
                entries,
                leader_commit,
            } => {
                &&& m@ matches MessageView::AppendEntries { entries: seen, .. }
                &&& m@ == (MessageView::AppendEntries {
                    term,
                    from,
                    prev_log_index,
                    prev_log_term,
                    entries: seen,
                    leader_commit,
                })
                &&& seen.len() == entries@.len()
                &&& forall|i: int|
                    0 <= i < seen.len() ==> (#[trigger] seen[i]).term == entries@[i].term
                        && seen[i].command == entries@[i].command@
            },
            Message::VoteResponse { term, from, vote_granted } => m@
                == (MessageView::VoteResponse { term, from, vote_granted }),
            Message::AppendEntriesResponse { term, from, success, match_index } => m@
                == (MessageView::AppendEntriesResponse { term, from, success, match_index }),
            Message::PreVoteRequest { term, from, last_log_index, last_log_term } => m@
                == (MessageView::PreVoteRequest { term, from, last_log_index, last_log_term }),
            Message::PreVoteResponse { term, from, vote_granted } => m@
                == (MessageView::PreVoteResponse { term, from, vote_granted }),
        },
{
}

/// A message names its term and its sender.
pub proof fn law_message_names_term_and_sender(m: MessageView)
    ensures
        match m {
            MessageView::RequestVote { term, from, .. } => m.term() == term && m.from() == from,
            MessageView::AppendEntries { term, from, .. } => m.term() == term && m.from() == from,
            MessageView::VoteResponse { term, from, .. } => m.term() == term && m.from() == from,
            MessageView::AppendEntriesResponse { term, from, .. } => m.term() == term && m.from()
                == from,
            MessageView::PreVoteRequest { term, from, .. } => m.term() == term && m.from() == from,
            MessageView::PreVoteResponse { term, from, .. } => m.term() == term && m.from() == from,
        },
        m.is_pre_vote() <==> m is PreVoteRequest || m is PreVoteResponse,
{
}

/// A request as a value stands for itself.
pub proof fn law_request_stands_for_itself(o: Outgoing)
    ensures
        match o {
            Outgoing::Send { to, msg } => o@ == (Request::Send { to, msg: msg@ }),
            Outgoing::Broadcast { msg } => o@ == (Request::Broadcast { msg: msg@ }),
        },
{
}

} // verus!
