use rafty::node::LogEntry;
use rafty::rpc::{FaultController, FaultyRPC, MemoryRPC, Message, Outbox, Outgoing, RPC};

fn ask(from: u64) -> Message {
    Message::RequestVote { term: 4, from, last_log_index: 2, last_log_term: 3 }
}

fn targets(sent: Vec<Outgoing>) -> Vec<u64> {
    sent.into_iter()
        .map(|o| match o {
            Outgoing::Send { to, .. } => to,
            Outgoing::Broadcast { .. } => panic!("a broadcast was passed on"),
        })
        .collect()
}

#[test]
fn term_and_sender_of_each_message() {
    let entries = vec![LogEntry { term: 1, command: "a=b".to_string() }];
    let all = vec![
        ask(9),
        Message::AppendEntries {
            term: 4,
            from: 9,
            prev_log_index: 0,
            prev_log_term: 0,
            entries,
            leader_commit: 0,
        },
        Message::VoteResponse { term: 4, from: 9, vote_granted: true },
        Message::AppendEntriesResponse { term: 4, from: 9, success: true, match_index: 1 },
        Message::PreVoteRequest { term: 4, from: 9, last_log_index: 0, last_log_term: 0 },
        Message::PreVoteResponse { term: 4, from: 9, vote_granted: false },
    ];
    for msg in &all {
        assert_eq!(msg.term(), 4);
        assert_eq!(msg.from(), 9);
        assert_eq!(format!("{:?}", msg.clone()), format!("{:?}", msg));
    }
}

#[test]
fn outbox_keeps_requests_in_order() {
    let mut outbox = Outbox::new();
    outbox.send(2, ask(1));
    outbox.broadcast(ask(3));
    let sent = outbox.take();
    assert_eq!(sent.len(), 2);
    assert!(matches!(&sent[0], Outgoing::Send { to: 2, msg } if msg.from() == 1));
    assert!(matches!(&sent[1], Outgoing::Broadcast { msg } if msg.from() == 3));
    assert!(outbox.take().is_empty());
}

#[test]
fn controller_isolates_and_heals() {
    let mut faults = FaultController::new();
    assert!(!faults.blocked(1, 2));
    faults.isolate(2);
    assert!(faults.blocked(1, 2));
    assert!(faults.blocked(2, 1));
    assert!(!faults.blocked(1, 3));
    faults.heal(2);
    assert!(!faults.blocked(1, 2));
}

#[test]
fn healthy_broadcast_reaches_every_peer() {
    let mut rpc = FaultyRPC::new(Outbox::new(), vec![1, 2, 3]);
    rpc.broadcast(ask(1));
    assert_eq!(targets(rpc.inner_mut().take()), vec![1, 2, 3]);
}

#[test]
fn isolated_node_hears_nothing() {
    let mut rpc = FaultyRPC::new(Outbox::new(), vec![1, 2, 3]);
    rpc.faults().isolate(2);
    assert!(rpc.blocked(1, 2));
    rpc.send(2, ask(1));
    rpc.send(3, ask(1));
    rpc.broadcast(ask(1));
    assert_eq!(targets(rpc.inner_mut().take()), vec![3, 1, 3]);
}

#[test]
fn isolated_node_is_not_heard() {
    let mut rpc = FaultyRPC::new(Outbox::new(), vec![1, 2, 3]);
    rpc.faults().isolate(1);
    rpc.send(2, ask(1));
    rpc.broadcast(ask(1));
    assert!(rpc.inner_mut().take().is_empty());
}

#[test]
fn heal_undoes_isolate() {
    let mut rpc = FaultyRPC::new(Outbox::new(), vec![1, 2]);
    rpc.faults().isolate(2);
    rpc.send(2, ask(1));
    rpc.faults().heal(2);
    rpc.send(2, ask(1));
    assert_eq!(targets(rpc.inner_mut().take()), vec![2]);
}

#[test]
fn memory_transport_knows_each_node_once() {
    let mut rpc = MemoryRPC::new(vec![1, 2, 1, 3, 2]);
    rpc.broadcast(ask(1));
    let to: Vec<u64> = rpc.take().iter().map(|d| d.to).collect();
    assert_eq!(to, vec![1, 2, 3]);
    assert!(rpc.take().is_empty());
}

#[test]
fn memory_transport_drops_messages_for_unknown_nodes() {
    let mut rpc = MemoryRPC::new(vec![1, 2]);
    rpc.send(9, ask(1));
    rpc.send(2, ask(1));
    let waiting = rpc.take();
    assert_eq!(waiting.len(), 1);
    assert_eq!(waiting[0].to, 2);
    assert_eq!(waiting[0].msg.from(), 1);
}

#[test]
fn faults_wrap_the_memory_transport() {
    let mut rpc = FaultyRPC::new(MemoryRPC::new(vec![1, 2, 3]), vec![1, 2, 3]);
    rpc.faults().isolate(3);
    rpc.broadcast(ask(2));
    let to: Vec<u64> = rpc.inner_mut().take().iter().map(|d| d.to).collect();
    assert_eq!(to, vec![1, 2]);
}

#[test]
fn broadcast_is_a_send_to_each_peer() {
    let mut rpc = FaultyRPC::new(Outbox::new(), vec![3, 1, 2]);
    rpc.faults().isolate(1);
    rpc.broadcast(ask(2));
    let at_once = targets(rpc.inner_mut().take());
    for to in [3u64, 1, 2] {
        rpc.send(to, ask(2));
    }
    assert_eq!(at_once, targets(rpc.inner_mut().take()));
    assert_eq!(at_once, vec![3, 2]);
}

#[test]
fn memory_broadcast_is_a_send_to_each_node() {
    let mut rpc = MemoryRPC::new(vec![3, 1, 2]);
    rpc.broadcast(ask(2));
    let mut at_once: Vec<u64> = rpc.take().iter().map(|d| d.to).collect();
    for to in [3u64, 1, 2] {
        rpc.send(to, ask(2));
    }
    let mut one_by_one: Vec<u64> = rpc.take().iter().map(|d| d.to).collect();
    at_once.sort();
    one_by_one.sort();
    assert_eq!(at_once, one_by_one);
    assert_eq!(at_once, vec![1, 2, 3]);
}
