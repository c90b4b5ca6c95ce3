//! A fault injector that wraps a transport, for partitions and unresponsive nodes.
use std::collections::HashSet;

use vstd::prelude::*;

use crate::model::{posted, Envelope, MessageView, Request};
use crate::node::NodeId;
use crate::rpc::memory::{law_deliveries_follow_requests, routed, MemoryRPC};
use crate::rpc::rpc::{carried_on, Message, RPC};

verus! {

broadcast use vstd::std_specs::hash::group_hash_axioms;

/// What a send becomes when only the nodes outside `isolated` can be reached: itself, or
/// nothing where the sender or the target is isolated.
pub open spec fn let_through(isolated: Set<NodeId>, to: NodeId, msg: MessageView) -> Seq<Request> {
    if isolated.contains(msg.from()) || isolated.contains(to) {
        Seq::empty()
    } else {
        seq![Request::Send { to, msg }]
    }
}

/// What a broadcast becomes when only the nodes outside `isolated` can be reached:
/// one send per reachable peer, in the order of `peers`, and none at all when the
/// sender itself is isolated.
pub open spec fn reachable(
    peers: Seq<NodeId>,
    isolated: Set<NodeId>,
    msg: MessageView,
) -> Seq<Request> {
    peers.filter(|p: NodeId| !isolated.contains(msg.from()) && !isolated.contains(p)).map_values(
        |p: NodeId| Request::Send { to: p, msg },
    )
}

/// What one request becomes when only the nodes outside `isolated` can be reached.
pub open spec fn pass(peers: Seq<NodeId>, isolated: Set<NodeId>, request: Request) -> Seq<Request> {
    match request {
        Request::Send { to, msg } => let_through(isolated, to, msg),
        Request::Broadcast { msg } => reachable(peers, isolated, msg),
    }
}

/// What a sequence of requests becomes, in order.
pub open spec fn passed(
    peers: Seq<NodeId>,
    isolated: Set<NodeId>,
    requests: Seq<Request>,
) -> Seq<Request>
    decreases requests.len(),
{
    if requests.len() == 0 {
        Seq::empty()
    } else {
        passed(peers, isolated, requests.drop_last()) + pass(peers, isolated, requests.last())
    }
}

/// Flips nodes in and out of the cluster at runtime.
#[derive(Debug)]
pub struct FaultController {
    isolated: HashSet<NodeId>,
}

impl View for FaultController {
    type V = Set<NodeId>;

    closed spec fn view(&self) -> Set<NodeId> {
        self.isolated@
    }
}

impl FaultController {
    /// A controller that isolates no node.
    pub fn new() -> (res: FaultController)
        ensures
            res@ == Set::<NodeId>::empty(),
    {
        FaultController { isolated: HashSet::new() }
    }

    /// Cuts node `id` off.
    pub fn isolate(&mut self, id: NodeId)
        ensures
            final(self)@ == old(self)@.insert(id),
    {
        self.isolated.insert(id);
    }

    /// Lets node `id` take part again.
    pub fn heal(&mut self, id: NodeId)
        ensures
            final(self)@ == old(self)@.remove(id),
    {
        self.isolated.remove(&id);
        assert(self@ =~= old(self)@.remove(id));
    }

    /// Whether a message between the two nodes is dropped.
    pub fn blocked(&self, from: NodeId, to: NodeId) -> (res: bool)
        ensures
            res == (self@.contains(from) || self@.contains(to)),
    {
        self.isolated.contains(&from) || self.isolated.contains(&to)
    }
}

/// The part of a [`FaultyRPC`] that no request changes.
pub struct FaultyFixed<F> {
    /// The nodes that a broadcast is meant for.
    pub peers: Seq<NodeId>,
    /// The nodes that are cut off.
    pub isolated: Set<NodeId>,
    /// The part of the wrapped transport that no request changes.
    pub inner: F,
    /// How many requests were handed in before the last access to the faults or to the
    /// wrapped transport.
    pub settled: int,
    /// What the wrapped transport held from before that access.
    pub earlier: Seq<Request>,
}

/// Wraps another transport and silently drops any message whose source or target is
/// currently isolated.
pub struct FaultyRPC<R: RPC> {
    inner: R,
    peers: Vec<NodeId>,
    faults: FaultController,
    asked: Ghost<Seq<Request>>,
    settled: Ghost<int>,
}

impl<R: RPC> FaultyRPC<R> {
    /// The wrapped transport.
    pub closed spec fn inner(&self) -> R {
        self.inner
    }

    /// How many requests were handed in before the last access to the faults or to the
    /// wrapped transport.
    pub closed spec fn settled(&self) -> int {
        self.settled@
    }

    /// What the requests since that access became.
    pub open spec fn recent(&self) -> Seq<Request> {
        passed(self.peers(), self.isolated(), self.handed_in().skip(self.settled()))
    }

    /// What the wrapped transport holds from before that access.
    pub open spec fn earlier(&self) -> Seq<Request> {
        self.inner().requests().take(self.inner().requests().len() - self.recent().len())
    }

    /// The nodes that a broadcast is meant for.
    pub closed spec fn peers(&self) -> Seq<NodeId> {
        self.peers@
    }

    /// The nodes that are cut off.
    pub closed spec fn isolated(&self) -> Set<NodeId> {
        self.faults@
    }

    /// Everything that was handed to this transport so far, oldest first.
    pub closed spec fn handed_in(&self) -> Seq<Request> {
        self.asked@
    }

    /// Wraps `inner`, with no node isolated.
    pub fn new(inner: R, peers: Vec<NodeId>) -> (res: FaultyRPC<R>)
        ensures
            res.inner() == inner,
            res.peers() == peers@,
            res.isolated() == Set::<NodeId>::empty(),
            res.requests() == Seq::<Request>::empty(),
            inner.wf() ==> res.wf(),
    {
        let res = FaultyRPC {
            inner,
            peers,
            faults: FaultController::new(),
            asked: Ghost(Seq::empty()),
            settled: Ghost(0),
        };
        proof {
            Self::lemma_settled();
        }
        res
    }

    /// Where nothing was handed in since the last access, the transport is valid if the wrapped
    /// one is.
    proof fn lemma_settled()
        ensures
            forall|f: Self| f.settled() == f.handed_in().len() ==> #[trigger] f.wf() == f.inner().wf(),
    {
        assert forall|f: Self| f.settled() == f.handed_in().len() implies #[trigger] f.wf()
            == f.inner().wf() by {
            assert(f.handed_in().skip(f.settled()) =~= Seq::<Request>::empty());
            assert(f.earlier() + f.recent() =~= f.inner().requests());
        }
    }

    /// A request of which what becomes of it was handed on keeps what no request changes, and
    /// keeps the transport valid.
    proof fn lemma_carried_on(self, before: Self, request: Request)
        requires
            carried_on(self.inner(), before.inner()),
            self.peers() == before.peers(),
            self.isolated() == before.isolated(),
            self.settled() == before.settled(),
            self.handed_in() == before.handed_in().push(request),
            self.inner().requests() == before.inner().requests() + pass(
                before.peers(),
                before.isolated(),
                request,
            ),
            before.wf(),
        ensures
            self.fixed() == before.fixed(),
            self.wf(),
    {
        let more = pass(before.peers(), before.isolated(), request);
        let since = before.handed_in().skip(before.settled());
        assert(self.handed_in().skip(self.settled()) =~= since.push(request));
        assert(since.push(request).drop_last() =~= since);
        assert(self.recent() =~= before.recent() + more);
        assert(self.earlier() =~= before.earlier());
        assert(self.earlier() + self.recent() =~= before.earlier() + before.recent() + more);
    }

    /// Whether a message between the two nodes is dropped.
    pub fn blocked(&self, from: NodeId, to: NodeId) -> (res: bool)
        ensures
            res == (self.isolated().contains(from) || self.isolated().contains(to)),
    {
        self.faults.blocked(from, to)
    }

    /// The handle that isolates and heals nodes.
    pub fn faults(&mut self) -> (res: &mut FaultController)
        ensures
            res@ == old(self).isolated(),
            final(self).isolated() == final(res)@,
            final(self).peers() == old(self).peers(),
            final(self).inner() == old(self).inner(),
            final(self).requests() == old(self).requests(),
            old(self).wf() ==> final(self).wf(),
    {
        self.settled = Ghost(self.asked@.len() as int);
        proof {
            Self::lemma_settled();
        }
        &mut self.faults
    }

    /// The wrapped transport.
    pub fn inner_mut(&mut self) -> (res: &mut R)
        ensures
            *res == old(self).inner(),
            final(self).inner() == *final(res),
            final(self).isolated() == old(self).isolated(),
            final(self).peers() == old(self).peers(),
            final(self).requests() == old(self).requests(),
            final(res).wf() ==> final(self).wf(),
    {
        self.settled = Ghost(self.asked@.len() as int);
        proof {
            Self::lemma_settled();
        }
        &mut self.inner
    }
}

impl<R: RPC> RPC for FaultyRPC<R> {
    open spec fn requests(&self) -> Seq<Request> {
        self.handed_in()
    }

    type Fixed = FaultyFixed<R::Fixed>;

    open spec fn fixed(&self) -> FaultyFixed<R::Fixed> {
        FaultyFixed {
            peers: self.peers(),
            isolated: self.isolated(),
            inner: self.inner().fixed(),
            settled: self.settled(),
            earlier: self.earlier(),
        }
    }

    /// The wrapped transport is valid, and what it was handed last is what the requests since
    /// the last access became.
    open spec fn wf(&self) -> bool {
        &&& self.inner().wf()
        &&& 0 <= self.settled() <= self.requests().len()
        &&& self.recent().len() <= self.inner().requests().len()
        &&& self.inner().requests() == self.earlier() + self.recent()
    }

    fn send(&mut self, target: NodeId, msg: Message)
        ensures
            final(self).peers() == old(self).peers(),
            final(self).isolated() == old(self).isolated(),
            carried_on(final(self).inner(), old(self).inner()),
            final(self).inner().requests() == old(self).inner().requests() + let_through(
                old(self).isolated(),
                target,
                msg@,
            ),
    {
        let ghost request = Request::Send { to: target, msg: msg@ };
        self.asked = Ghost(self.asked@.push(request));
        let ghost more = let_through(self.isolated(), target, msg@);
        if !self.blocked(msg.from(), target) {
            self.inner.send(target, msg);
        }
        assert(self.inner().requests() =~= old(self).inner().requests() + more);
        proof {
            if old(self).wf() {
                self.lemma_carried_on(*old(self), request);
            }
        }
    }

    fn broadcast(&mut self, msg: Message)
        ensures
            final(self).peers() == old(self).peers(),
            final(self).isolated() == old(self).isolated(),
            carried_on(final(self).inner(), old(self).inner()),
            final(self).inner().requests() == old(self).inner().requests() + reachable(
                old(self).peers(),
                old(self).isolated(),
                msg@,
            ),
    {
        let ghost request = Request::Broadcast { msg: msg@ };
        self.asked = Ghost(self.asked@.push(request));
        let ghost start = self.inner().requests();
        let mut i: usize = 0;
        assert(start + reachable(self.peers().take(0), self.isolated(), msg@) =~= start) by {
            reveal_with_fuel(Seq::filter, 1);
        }
        while i < self.peers.len()
            invariant
                i <= self.peers@.len(),
                self.peers() == old(self).peers(),
                self.isolated() == old(self).isolated(),
                self.handed_in() == old(self).handed_in().push(request),
                self.settled() == old(self).settled(),
                carried_on(self.inner(), old(self).inner()),
                start == old(self).inner().requests(),
                self.inner().requests() == start + reachable(
                    self.peers().take(i as int),
                    self.isolated(),
                    msg@,
                ),
            decreases self.peers@.len() - i,
        {
            let peer = self.peers[i];
            proof {
                lemma_reachable_push(self.peers().take(i as int), peer, self.isolated(), msg@);
                assert(self.peers().take(i as int).push(peer) =~= self.peers().take(i + 1));
            }
            let ghost before = reachable(self.peers().take(i as int), self.isolated(), msg@);
            if !self.blocked(msg.from(), peer) {
                self.inner.send(peer, msg.clone());
                assert(self.inner().requests() =~= start + before.push(
                    Request::Send { to: peer, msg: msg@ },
                ));
            }
            i = i + 1;
        }
        assert(self.peers().take(i as int) =~= self.peers());
        proof {
            if old(self).wf() {
                self.lemma_carried_on(*old(self), request);
            }
        }
    }
}

proof fn lemma_reachable_push(
    peers: Seq<NodeId>,
    peer: NodeId,
    isolated: Set<NodeId>,
    msg: MessageView,
)
    ensures
        reachable(peers.push(peer), isolated, msg) == if isolated.contains(msg.from())
            || isolated.contains(peer) {
            reachable(peers, isolated, msg)
        } else {
            reachable(peers, isolated, msg).push(Request::Send { to: peer, msg })
        },
{
    reveal_with_fuel(Seq::filter, 1);
    assert(peers.push(peer).drop_last() =~= peers);
    let ok = |p: NodeId| !isolated.contains(msg.from()) && !isolated.contains(p);
    assert(reachable(peers.push(peer), isolated, msg) =~= if ok(peer) {
        reachable(peers, isolated, msg).push(Request::Send { to: peer, msg })
    } else {
        reachable(peers, isolated, msg)
    });
}

/// A broadcast is one send to each peer, in order: what it becomes is what those sends become,
/// one after the other.
pub proof fn law_broadcast_is_a_send_to_each_peer(
    peers: Seq<NodeId>,
    isolated: Set<NodeId>,
    msg: MessageView,
)
    ensures
        reachable(peers, isolated, msg) == peers.fold_left(
            Seq::<Request>::empty(),
            |done: Seq<Request>, p: NodeId| done + let_through(isolated, p, msg),
        ),
    decreases peers.len(),
{
    reveal_with_fuel(Seq::filter, 1);
    let one_more = |done: Seq<Request>, p: NodeId| done + let_through(isolated, p, msg);
    if peers.len() > 0 {
        let init = peers.drop_last();
        law_broadcast_is_a_send_to_each_peer(init, isolated, msg);
        lemma_reachable_push(init, peers.last(), isolated, msg);
        assert(init.push(peers.last()) =~= peers);
        assert(reachable(peers, isolated, msg) =~= one_more(
            reachable(init, isolated, msg),
            peers.last(),
        ));
    } else {
        assert(reachable(peers, isolated, msg) =~= Seq::<Request>::empty());
    }
}

/// A broadcast reaches each peer exactly once that is listed once and can be reached, where the
/// sender can be, and no other node.
pub proof fn law_broadcast_reaches_each_reachable_peer_once(
    peers: Seq<NodeId>,
    isolated: Set<NodeId>,
    msg: MessageView,
    id: NodeId,
)
    requires
        peers.no_duplicates(),
    ensures
        reachable(peers, isolated, msg).no_duplicates(),
        forall|i: int|
            0 <= i < reachable(peers, isolated, msg).len() ==> (#[trigger] reachable(
                peers,
                isolated,
                msg,
            )[i]) is Send,
        reachable(peers, isolated, msg).contains(Request::Send { to: id, msg }) <==> {
            &&& peers.contains(id)
            &&& !isolated.contains(id)
            &&& !isolated.contains(msg.from())
        },
    decreases peers.len(),
{
    reveal_with_fuel(Seq::filter, 1);
    let sends = reachable(peers, isolated, msg);
    if peers.len() > 0 {
        let init = peers.drop_last();
        let last = peers.last();
        let before = reachable(init, isolated, msg);
        law_broadcast_reaches_each_reachable_peer_once(init, isolated, msg, id);
        law_broadcast_reaches_each_reachable_peer_once(init, isolated, msg, last);
        lemma_reachable_push(init, last, isolated, msg);
        assert(init.push(last) =~= peers);
        let send = Request::Send { to: id, msg };
        vstd::seq_lib::lemma_seq_contains_after_push(init, last, id);
        assert(!init.contains(last));
        if sends != before {
            let added = Request::Send { to: last, msg };
            assert(sends == before.push(added));
            vstd::seq_lib::lemma_seq_contains_after_push(before, added, send);
            assert(!before.contains(added));
        }
    }
}

/// With no node isolated a broadcast reaches every peer, each once per entry in the
/// list of peers.
pub proof fn law_healthy_broadcast_reaches_every_peer(peers: Seq<NodeId>, msg: MessageView)
    ensures
        reachable(peers, Set::empty(), msg) == peers.map_values(
            |p: NodeId| Request::Send { to: p, msg },
        ),
    decreases peers.len(),
{
    reveal_with_fuel(Seq::filter, 1);
    if peers.len() > 0 {
        let init = peers.drop_last();
        law_healthy_broadcast_reaches_every_peer(init, msg);
        lemma_reachable_push(init, peers.last(), Set::empty(), msg);
        assert(init.push(peers.last()) =~= peers);
    }
    assert(reachable(peers, Set::empty(), msg) =~= peers.map_values(
        |p: NodeId| Request::Send { to: p, msg },
    ));
}

/// A broadcast never reaches an isolated node.
pub proof fn law_isolated_node_hears_nothing(
    peers: Seq<NodeId>,
    isolated: Set<NodeId>,
    msg: MessageView,
    id: NodeId,
)
    requires
        isolated.contains(id),
    ensures
        !reachable(peers, isolated, msg).contains(Request::Send { to: id, msg }),
{
    let ok = |p: NodeId| !isolated.contains(msg.from()) && !isolated.contains(p);
    broadcast use vstd::seq_lib::group_filter_ensures;

    let sends = reachable(peers, isolated, msg);
    assert forall|i: int| 0 <= i < sends.len() implies sends[i] != (Request::Send {
        to: id,
        msg,
    }) by {
        assert(ok(peers.filter(ok)[i]));
    }
}

/// A broadcast by an isolated node reaches nobody.
pub proof fn law_isolated_node_is_not_heard(
    peers: Seq<NodeId>,
    isolated: Set<NodeId>,
    msg: MessageView,
)
    requires
        isolated.contains(msg.from()),
    ensures
        reachable(peers, isolated, msg) == Seq::<Request>::empty(),
{
    let ok = |p: NodeId| !isolated.contains(msg.from()) && !isolated.contains(p);
    broadcast use vstd::seq_lib::group_filter_ensures;

    let sends = reachable(peers, isolated, msg);
    if sends.len() > 0 {
        assert(ok(peers.filter(ok)[0]));
    }
    assert(sends =~= Seq::<Request>::empty());
}

/// Healing a node undoes its isolation.
pub proof fn law_heal_undoes_isolate(isolated: Set<NodeId>, id: NodeId)
    requires
        !isolated.contains(id),
    ensures
        isolated.insert(id).remove(id) == isolated,
{
    assert(isolated.insert(id).remove(id) =~= isolated);
}

/// The fault injector invents nothing: what a broadcast becomes stays within what the
/// broadcast stands for.
pub proof fn law_faults_invent_nothing(
    peers: Seq<NodeId>,
    isolated: Set<NodeId>,
    msg: MessageView,
)
    ensures
        posted(reachable(peers, isolated, msg)).subset_of(
            posted(seq![Request::Broadcast { msg }]),
        ),
{
    let sends = reachable(peers, isolated, msg);
    assert forall|e: Envelope| posted(sends).contains(e) implies posted(
        seq![Request::Broadcast { msg }],
    ).contains(e) by {
        let broadcast = seq![Request::Broadcast { msg }];
        assert(broadcast[0] == Request::Broadcast { msg });
        if sends.contains(Request::Send { to: e.to, msg: e.msg }) {
            let k = choose|k: int|
                0 <= k < sends.len() && sends[k] == (Request::Send { to: e.to, msg: e.msg });
            assert(e.msg == msg);
        }
    }
}

/// What requests after requests become.
pub proof fn lemma_passed_concat(
    peers: Seq<NodeId>,
    isolated: Set<NodeId>,
    a: Seq<Request>,
    b: Seq<Request>,
)
    ensures
        passed(peers, isolated, a + b) == passed(peers, isolated, a) + passed(peers, isolated, b),
    decreases b.len(),
{
    if b.len() == 0 {
        assert(a + b =~= a);
        assert(passed(peers, isolated, a) + passed(peers, isolated, b) =~= passed(
            peers,
            isolated,
            a,
        ));
    } else {
        lemma_passed_concat(peers, isolated, a, b.drop_last());
        assert((a + b).drop_last() =~= a + b.drop_last());
        assert((a + b).last() == b.last());
        assert(passed(peers, isolated, a + b) =~= passed(peers, isolated, a) + passed(
            peers,
            isolated,
            b,
        ));
    }
}

/// The wrapped transport is handed exactly what further requests become, as long as the faults
/// stay: whoever hands them over, and in however many calls.
pub proof fn law_passed_on_follows_requests<R: RPC>(
    before: FaultyRPC<R>,
    after: FaultyRPC<R>,
    more: Seq<Request>,
)
    requires
        before.wf(),
        carried_on(after, before),
        after.requests() == before.requests() + more,
    ensures
        after.inner().requests() == before.inner().requests() + passed(
            before.peers(),
            before.isolated(),
            more,
        ),
        carried_on(after.inner(), before.inner()),
{
    assert(after.fixed() == before.fixed());
    let since = before.handed_in().skip(before.settled());
    assert(after.handed_in().skip(after.settled()) =~= since + more);
    lemma_passed_concat(before.peers(), before.isolated(), since, more);
    assert(after.inner().requests() =~= before.inner().requests() + passed(
        before.peers(),
        before.isolated(),
        more,
    ));
}

/// Behind a fault injector the in-memory transport has exactly those deliveries waiting in
/// addition that the faults let through.
pub proof fn law_deliveries_follow_requests_through_faults(
    before: FaultyRPC<MemoryRPC>,
    after: FaultyRPC<MemoryRPC>,
    more: Seq<Request>,
)
    requires
        before.wf(),
        carried_on(after, before),
        after.requests() == before.requests() + more,
    ensures
        after.inner().deliveries() == before.inner().deliveries() + routed(
            before.inner().peers(),
            passed(before.peers(), before.isolated(), more),
        ),
{
    law_passed_on_follows_requests(before, after, more);
    law_deliveries_follow_requests(
        before.inner(),
        after.inner(),
        passed(before.peers(), before.isolated(), more),
    );
}

/// A send goes through, once and as it is, exactly where neither its sender nor its target is
/// isolated.
pub proof fn law_send_passes_between_reachable_nodes(
    isolated: Set<NodeId>,
    to: NodeId,
    msg: MessageView,
)
    ensures
        let_through(isolated, to, msg).len() == if isolated.contains(msg.from())
            || isolated.contains(to) {
            0int
        } else {
            1
        },
        !isolated.contains(msg.from()) && !isolated.contains(to) ==> let_through(
            isolated,
            to,
            msg,
        )[0] == (Request::Send { to, msg }),
{
}

/// What requests become, one after the other: nothing of no requests, of one more request what it
/// becomes in addition, a send as a send and a broadcast as a send to each peer in turn.
pub proof fn law_requests_pass_one_by_one(
    peers: Seq<NodeId>,
    isolated: Set<NodeId>,
    requests: Seq<Request>,
    to: NodeId,
    msg: MessageView,
)
    ensures
        passed(peers, isolated, Seq::empty()) == Seq::<Request>::empty(),
        passed(peers, isolated, requests.push(Request::Send { to, msg })) == passed(
            peers,
            isolated,
            requests,
        ) + let_through(isolated, to, msg),
        passed(peers, isolated, requests.push(Request::Broadcast { msg })) == peers.fold_left(
            passed(peers, isolated, requests),
            |done: Seq<Request>, p: NodeId| done + let_through(isolated, p, msg),
        ),
{
    let send = Request::Send { to, msg };
    let all = Request::Broadcast { msg };
    assert(requests.push(send).drop_last() =~= requests);
    assert(requests.push(all).drop_last() =~= requests);
    lemma_sends_behind(passed(peers, isolated, requests), peers, isolated, msg);
}

proof fn lemma_sends_behind(
    start: Seq<Request>,
    peers: Seq<NodeId>,
    isolated: Set<NodeId>,
    msg: MessageView,
)
    ensures
        start + reachable(peers, isolated, msg) == peers.fold_left(
            start,
            |done: Seq<Request>, p: NodeId| done + let_through(isolated, p, msg),
        ),
    decreases peers.len(),
{
    reveal_with_fuel(Seq::filter, 1);
    let one_more = |done: Seq<Request>, p: NodeId| done + let_through(isolated, p, msg);
    if peers.len() > 0 {
        let init = peers.drop_last();
        lemma_sends_behind(start, init, isolated, msg);
        lemma_reachable_push(init, peers.last(), isolated, msg);
        assert(init.push(peers.last()) =~= peers);
        assert(start + reachable(peers, isolated, msg) =~= one_more(
            start + reachable(init, isolated, msg),
            peers.last(),
        ));
    } else {
        assert(start + reachable(peers, isolated, msg) =~= start);
    }
}

} // verus!
