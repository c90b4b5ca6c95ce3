//! A transport within one process.
use vstd::prelude::*;

use crate::model::{Envelope, MessageView, Request};
use crate::node::NodeId;
use crate::rpc::rpc::{carried_on, Message, RPC};

verus! {

/// A message for the inbox of a node.
#[derive(Debug)]
pub struct Delivery {
    /// Whose inbox.
    pub to: NodeId,
    /// The message.
    pub msg: Message,
}

impl View for Delivery {
    type V = Envelope;

    open spec fn view(&self) -> Envelope {
        Envelope { to: self.to, msg: self.msg@ }
    }
}

/// What a send becomes where the inboxes of `peers` are known: one delivery, or none for an
/// unknown node.
pub open spec fn delivered(peers: Seq<NodeId>, to: NodeId, msg: MessageView) -> Seq<Envelope> {
    if peers.contains(to) {
        seq![Envelope { to, msg }]
    } else {
        Seq::empty()
    }
}

/// One delivery of `msg` for each of the nodes, in order.
pub open spec fn to_each(peers: Seq<NodeId>, msg: MessageView) -> Seq<Envelope> {
    peers.map_values(|p: NodeId| Envelope { to: p, msg })
}

/// What one request becomes where the inboxes of `peers` are known.
pub open spec fn route(peers: Seq<NodeId>, request: Request) -> Seq<Envelope> {
    match request {
        Request::Send { to, msg } => delivered(peers, to, msg),
        Request::Broadcast { msg } => to_each(peers, msg),
    }
}

/// What a sequence of requests becomes, in order.
pub open spec fn routed(peers: Seq<NodeId>, requests: Seq<Request>) -> Seq<Envelope>
    decreases requests.len(),
{
    if requests.len() == 0 {
        Seq::empty()
    } else {
        routed(peers, requests.drop_last()) + route(peers, requests.last())
    }
}

/// A transport that knows the inboxes of the nodes: a message for one of them is to be put
/// into its inbox, a message for all of them into each, and a message for an unknown node is
/// dropped. What is to be put where waits until it is taken.
pub struct MemoryRPC {
    peers: Vec<NodeId>,
    waiting: Vec<Delivery>,
    gone: Ghost<Seq<Envelope>>,
    asked: Ghost<Seq<Request>>,
}

impl MemoryRPC {
    /// The nodes whose inboxes are known.
    pub closed spec fn peers(&self) -> Seq<NodeId> {
        self.peers@
    }

    /// What waits to be put into inboxes, oldest first.
    pub closed spec fn deliveries(&self) -> Seq<Envelope> {
        self.waiting@.map_values(|d: Delivery| d@)
    }

    /// What was taken so far, oldest first.
    pub closed spec fn taken(&self) -> Seq<Envelope> {
        self.gone@
    }

    /// Everything that was handed to this transport so far, oldest first.
    pub closed spec fn handed_in(&self) -> Seq<Request> {
        self.asked@
    }

    /// A transport for the given nodes, each known once, with nothing waiting.
    pub fn new(peers: Vec<NodeId>) -> (res: MemoryRPC)
        ensures
            res.wf(),
            forall|id: NodeId| #[trigger] res.peers().contains(id) == peers@.contains(id),
            res.taken() == Seq::<Envelope>::empty(),
            res.deliveries() == Seq::<Envelope>::empty(),
            res.requests() == Seq::<Request>::empty(),
    {
        let mut known: Vec<NodeId> = Vec::new();
        let mut i: usize = 0;
        while i < peers.len()
            invariant
                i <= peers@.len(),
                known@.no_duplicates(),
                forall|id: NodeId| #[trigger]
                    known@.contains(id) == peers@.take(i as int).contains(id),
            decreases peers@.len() - i,
        {
            let peer = peers[i];
            let ghost before = known@;
            if !is_known(&known, peer) {
                known.push(peer);
                assert(known@[before.len() as int] == peer);
            }
            proof {
                let seen = peers@.take(i as int);
                let now = peers@.take(i + 1);
                assert(now =~= seen.push(peer));
                assert forall|id: NodeId| #[trigger] known@.contains(id) == now.contains(id) by {
                    assert(before.contains(id) == seen.contains(id));
                    vstd::seq_lib::lemma_seq_contains_after_push(seen, peer, id);
                    vstd::seq_lib::lemma_seq_contains_after_push(before, peer, id);
                }
            }
            i = i + 1;
        }
        assert(peers@.take(i as int) =~= peers@);
        let res = MemoryRPC {
            peers: known,
            waiting: Vec::new(),
            gone: Ghost(Seq::empty()),
            asked: Ghost(Seq::empty()),
        };
        assert(res.deliveries() =~= Seq::<Envelope>::empty());
        assert(res.taken() + res.deliveries() =~= Seq::<Envelope>::empty());
        res
    }

    /// Hands out what waits, oldest first.
    pub fn take(&mut self) -> (res: Vec<Delivery>)
        ensures
            res@.map_values(|d: Delivery| d@) == old(self).deliveries(),
            final(self).deliveries() == Seq::<Envelope>::empty(),
            final(self).taken() == old(self).taken() + old(self).deliveries(),
            final(self).peers() == old(self).peers(),
            final(self).requests() == old(self).requests(),
            old(self).wf() ==> final(self).wf(),
    {
        let mut res: Vec<Delivery> = Vec::new();
        self.gone = Ghost(self.taken() + self.deliveries());
        std::mem::swap(&mut res, &mut self.waiting);
        assert(self.deliveries() =~= Seq::<Envelope>::empty());
        assert(self.taken() + self.deliveries() =~= old(self).taken() + old(self).deliveries());
        res
    }
}

fn is_known(known: &Vec<NodeId>, id: NodeId) -> (res: bool)
    ensures
        res == known@.contains(id),
{
    let mut i: usize = 0;
    while i < known.len()
        invariant
            i <= known@.len(),
            forall|k: int| 0 <= k < i ==> known@[k] != id,
        decreases known@.len() - i,
    {
        if known[i] == id {
            return true;
        }
        i = i + 1;
    }
    false
}

impl RPC for MemoryRPC {
    open spec fn requests(&self) -> Seq<Request> {
        self.handed_in()
    }

    type Fixed = (Seq<NodeId>, Seq<Envelope>);

    /// The nodes whose inboxes are known, and what was taken so far.
    open spec fn fixed(&self) -> (Seq<NodeId>, Seq<Envelope>) {
        (self.peers(), self.taken())
    }

    /// Every node is known once, and what was taken, followed by what waits, is what the
    /// requests become.
    open spec fn wf(&self) -> bool {
        &&& self.peers().no_duplicates()
        &&& self.taken() + self.deliveries() == routed(self.peers(), self.requests())
    }

    fn send(&mut self, target: NodeId, msg: Message)
        ensures
            final(self).fixed() == old(self).fixed(),
            final(self).deliveries() == old(self).deliveries() + delivered(
                old(self).peers(),
                target,
                msg@,
            ),
    {
        let ghost request = Request::Send { to: target, msg: msg@ };
        self.asked = Ghost(self.asked@.push(request));
        let ghost due = delivered(self.peers(), target, msg@);
        if is_known(&self.peers, target) {
            self.waiting.push(Delivery { to: target, msg });
        }
        assert(self.deliveries() =~= old(self).deliveries() + due);
        proof {
            lemma_routed_push(self.peers(), old(self).requests(), request);
            assert(self.taken() + self.deliveries() =~= old(self).taken() + old(self).deliveries()
                + due);
        }
    }

    fn broadcast(&mut self, msg: Message)
        ensures
            final(self).fixed() == old(self).fixed(),
            final(self).deliveries() == old(self).deliveries() + to_each(old(self).peers(), msg@),
    {
        let ghost request = Request::Broadcast { msg: msg@ };
        self.asked = Ghost(self.asked@.push(request));
        let mut i: usize = 0;
        while i < self.peers.len()
            invariant
                i <= self.peers@.len(),
                self.peers() == old(self).peers(),
                self.taken() == old(self).taken(),
                self.handed_in() == old(self).handed_in().push(request),
                self.deliveries() =~= old(self).deliveries() + to_each(
                    self.peers().take(i as int),
                    msg@,
                ),
            decreases self.peers@.len() - i,
        {
            let to = self.peers[i];
            let ghost before = self.deliveries();
            self.waiting.push(Delivery { to, msg: msg.clone() });
            assert(self.deliveries() =~= before.push(Envelope { to, msg: msg@ }));
            i = i + 1;
        }
        assert(self.peers().take(i as int) =~= self.peers());
        proof {
            lemma_routed_push(self.peers(), old(self).requests(), request);
            assert(self.taken() + self.deliveries() =~= old(self).taken() + old(self).deliveries()
                + to_each(self.peers(), msg@));
        }
    }
}

proof fn lemma_routed_push(peers: Seq<NodeId>, requests: Seq<Request>, request: Request)
    ensures
        routed(peers, requests.push(request)) == routed(peers, requests) + route(peers, request),
{
    assert(requests.push(request).drop_last() =~= requests);
}

/// What requests after requests become.
pub proof fn lemma_routed_concat(peers: Seq<NodeId>, a: Seq<Request>, b: Seq<Request>)
    ensures
        routed(peers, a + b) == routed(peers, a) + routed(peers, b),
    decreases b.len(),
{
    if b.len() == 0 {
        assert(a + b =~= a);
        assert(routed(peers, a) + routed(peers, b) =~= routed(peers, a));
    } else {
        lemma_routed_concat(peers, a, b.drop_last());
        assert((a + b).drop_last() =~= a + b.drop_last());
        assert((a + b).last() == b.last());
        assert(routed(peers, a + b) =~= routed(peers, a) + routed(peers, b));
    }
}

/// What waits grows by exactly what further requests become: whoever hands them over, and in
/// however many calls.
pub proof fn law_deliveries_follow_requests(
    before: MemoryRPC,
    after: MemoryRPC,
    more: Seq<Request>,
)
    requires
        before.wf(),
        carried_on(after, before),
        after.requests() == before.requests() + more,
    ensures
        after.deliveries() == before.deliveries() + routed(before.peers(), more),
{
    let peers = before.peers();
    lemma_routed_concat(peers, before.requests(), more);
    let start = before.taken();
    let all = start + before.deliveries() + routed(peers, more);
    assert(start + after.deliveries() == all);
    assert(after.deliveries() =~= all.skip(start.len() as int)) by {
        assert((start + after.deliveries()).skip(start.len() as int) =~= after.deliveries());
    }
    assert(all.skip(start.len() as int) =~= before.deliveries() + routed(peers, more));
}

/// A broadcast puts the message into each known inbox exactly once, that of the sender included,
/// and into no other.
pub proof fn law_broadcast_fills_each_inbox_once(peers: Seq<NodeId>, msg: MessageView, id: NodeId)
    requires
        peers.no_duplicates(),
    ensures
        to_each(peers, msg).no_duplicates(),
        to_each(peers, msg).len() == peers.len(),
        to_each(peers, msg).contains(Envelope { to: id, msg }) == peers.contains(id),
        forall|e: Envelope| #[trigger] to_each(peers, msg).contains(e) ==> e.msg == msg,
{
    let all = to_each(peers, msg);
    if peers.contains(id) {
        let k = choose|k: int| 0 <= k < peers.len() && peers[k] == id;
        assert(all[k] == Envelope { to: id, msg });
    }
    if all.contains(Envelope { to: id, msg }) {
        let k = choose|k: int| 0 <= k < all.len() && all[k] == (Envelope { to: id, msg });
        assert(peers[k] == id);
    }
}

/// A broadcast is one send to each known node: what it becomes is what those sends become, one
/// after the other.
pub proof fn law_broadcast_is_a_send_to_each_node(peers: Seq<NodeId>, msg: MessageView)
    ensures
        to_each(peers, msg) == peers.fold_left(
            Seq::<Envelope>::empty(),
            |done: Seq<Envelope>, p: NodeId| done + delivered(peers, p, msg),
        ),
{
    lemma_send_to_each(peers, peers.len() as int, msg);
    assert(peers.take(peers.len() as int) =~= peers);
}

proof fn lemma_send_to_each(peers: Seq<NodeId>, n: int, msg: MessageView)
    requires
        0 <= n <= peers.len(),
    ensures
        to_each(peers.take(n), msg) == peers.take(n).fold_left(
            Seq::<Envelope>::empty(),
            |done: Seq<Envelope>, p: NodeId| done + delivered(peers, p, msg),
        ),
    decreases n,
{
    let one_more = |done: Seq<Envelope>, p: NodeId| done + delivered(peers, p, msg);
    let some = peers.take(n);
    if n > 0 {
        let fewer = peers.take(n - 1);
        lemma_send_to_each(peers, n - 1, msg);
        assert(some.drop_last() =~= fewer);
        assert(peers.contains(peers[n - 1]));
        assert(to_each(some, msg) =~= one_more(to_each(fewer, msg), peers[n - 1]));
    } else {
        assert(to_each(some, msg) =~= Seq::<Envelope>::empty());
    }
}

/// A send becomes one delivery of the message for its target where that is known, and none
/// otherwise.
pub proof fn law_send_fills_one_known_inbox(peers: Seq<NodeId>, to: NodeId, msg: MessageView)
    ensures
        delivered(peers, to, msg).len() == if peers.contains(to) {
            1int
        } else {
            0
        },
        peers.contains(to) ==> delivered(peers, to, msg)[0] == (Envelope { to, msg }),
{
}

/// What requests become, one after the other: nothing of no requests, of one more send what it
/// becomes in addition, and of one more broadcast a delivery for each known node in turn.
pub proof fn law_requests_are_routed_one_by_one(
    peers: Seq<NodeId>,
    requests: Seq<Request>,
    to: NodeId,
    msg: MessageView,
)
    ensures
        routed(peers, Seq::empty()) == Seq::<Envelope>::empty(),
        routed(peers, requests.push(Request::Send { to, msg })) == routed(peers, requests)
            + delivered(peers, to, msg),
        ({
            let before = routed(peers, requests);
            let after = routed(peers, requests.push(Request::Broadcast { msg }));
            &&& after.len() == before.len() + peers.len()
            &&& after.take(before.len() as int) == before
            &&& forall|i: int|
                0 <= i < peers.len() ==> after[before.len() + i] == (Envelope {
                    to: #[trigger] peers[i],
                    msg,
                })
        }),
{
    lemma_routed_push(peers, requests, Request::Send { to, msg });
    lemma_routed_push(peers, requests, Request::Broadcast { msg });
    let before = routed(peers, requests);
    assert((before + to_each(peers, msg)).take(before.len() as int) =~= before);
}

/// A delivery stands for its message and its target.
pub proof fn law_delivery_stands_for_itself(d: Delivery)
    ensures
        d@.to == d.to,
        d@.msg == d.msg@,
{
}

} // verus!
