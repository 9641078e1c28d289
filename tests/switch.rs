use ratman_core::collector::join_frames;
use ratman_core::envelope::InMemoryEnvelope;
use ratman_core::header::CarrierFrameHeader;
use ratman_core::journal::Journal;
use ratman_core::routes::{RouteTable, RouteType};
use ratman_core::session::{
    connect_start, on_connect_failure, on_read, ConnectStep, PeerType, ReadOutcome, ReaderStep,
    INITIAL_HOLDOFF,
};
use ratman_core::switch::{drain_pending, reflood_targets, switch_frame, Edge, SwitchAction};
use ratman_core::types::{Address, Ident32, Recipient, SequenceIdV1};

/// A router as the tests drive it: a journal, a route table and the frames
/// handed to its collector.
struct Node {
    journal: Journal,
    routes: RouteTable,
    collected: Vec<InMemoryEnvelope>,
    sent: usize,
}

impl Node {
    fn new(local: Address) -> Node {
        let mut routes = RouteTable::new();
        routes.add_local(local);
        Node { journal: Journal::new(), routes, collected: vec![], sent: 0 }
    }
}

fn frame_id(e: &InMemoryEnvelope) -> Ident32 {
    let mut id = [0u8; 32];
    for (i, b) in e.buffer.iter().enumerate() {
        id[i % 32] = id[i % 32].wrapping_mul(31).wrapping_add(*b);
    }
    Ident32(id)
}

fn data(sender: Address, recipient: Recipient, hash: u8, payload: Vec<u8>) -> InMemoryEnvelope {
    let h = CarrierFrameHeader::new_blockdata_frame(
        sender,
        recipient,
        SequenceIdV1 { hash: Ident32([hash; 32]), num: 0, max: 0 },
        payload.len() as u16,
    );
    InMemoryEnvelope::from_header_and_payload(h, payload).unwrap()
}

fn announce(sender: Address) -> InMemoryEnvelope {
    InMemoryEnvelope::from_header_and_payload(CarrierFrameHeader::new_announce_frame(sender, 0), vec![]).unwrap()
}

fn deliver(node: &mut Node, env: InMemoryEnvelope, endpoint: usize, neighbour: u16, now: u64) -> SwitchAction {
    let fid = frame_id(&env);
    let action = switch_frame(&mut node.journal, &mut node.routes, env.copy(), fid, endpoint, neighbour, now, 100);
    match action {
        SwitchAction::Collect | SwitchAction::CollectAndReflood(_, _) => node.collected.push(env),
        _ => {}
    }
    action
}

#[test]
fn second_copy_is_dropped() {
    let mut n = Node::new(Address([9; 32]));
    let f = data(Address([1; 32]), Recipient::Broadcast, 1, vec![1]);
    assert!(matches!(deliver(&mut n, f.copy(), 0, 1, 10), SwitchAction::CollectAndReflood(0, 1)));
    assert!(matches!(deliver(&mut n, f.copy(), 0, 2, 11), SwitchAction::Drop));
    assert_eq!(n.collected.len(), 1);
    assert!(!n.journal.is_unknown(&frame_id(&f)));
}

#[test]
fn announcement_updates_routes_only() {
    let mut n = Node::new(Address([9; 32]));
    let a = Address([1; 32]);
    n.routes.add_session(0, 4);
    assert!(matches!(deliver(&mut n, announce(a), 0, 4, 10), SwitchAction::RouteUpdated));
    assert!(n.collected.is_empty());
    assert_eq!(n.routes.reachable(&a), Some(RouteType::Remote(0, 4)));
}

#[test]
fn targeted_frames() {
    let me = Address([9; 32]);
    let far = Address([7; 32]);
    let mut n = Node::new(me);
    assert!(matches!(deliver(&mut n, data(far, Recipient::Target(me), 1, vec![1]), 0, 1, 1), SwitchAction::Collect));
    n.routes.add_session(1, 3);
    deliver(&mut n, announce(far), 1, 3, 2);
    assert!(matches!(deliver(&mut n, data(me, Recipient::Target(far), 2, vec![2]), 0, 1, 3), SwitchAction::Dispatch(1, 3)));
    let unknown = Address([6; 32]);
    match deliver(&mut n, data(me, Recipient::Target(unknown), 3, vec![3]), 0, 1, 4) {
        SwitchAction::Held(a) => assert!(a == unknown),
        other => panic!("unexpected {:?}", other),
    }
    assert_eq!(n.journal.load_pending_for(&Ident32([3; 32])).len(), 1);
}

#[test]
fn frame_without_sequence_is_unroutable() {
    let mut n = Node::new(Address([9; 32]));
    let h = CarrierFrameHeader::new_anycast_probe_frame(Address([1; 32]), Recipient::Target(Address([5; 32])));
    let env = InMemoryEnvelope::from_header_and_payload(h, vec![]).unwrap();
    assert!(matches!(deliver(&mut n, env, 0, 0, 0), SwitchAction::Unroutable(_)));
}

/// Two routers over one link: each learns the other's address from its
/// announcement.
fn two_nodes() -> (Node, Node, Address, Address) {
    let a1 = Address([0xA1; 32]);
    let a2 = Address([0xA2; 32]);
    let mut r1 = Node::new(a1);
    let mut r2 = Node::new(a2);
    r1.routes.add_session(0, 1);
    r2.routes.add_session(0, 1);
    deliver(&mut r2, announce(a1), 0, 1, 5);
    deliver(&mut r1, announce(a2), 0, 1, 5);
    (r1, r2, a1, a2)
}

#[test]
fn two_node_loopback() {
    let (r1, r2, a1, a2) = two_nodes();
    assert_eq!(r1.routes.reachable(&a2), Some(RouteType::Remote(0, 1)));
    assert_eq!(r2.routes.reachable(&a1), Some(RouteType::Remote(0, 1)));
}

#[test]
fn matching_payloads() {
    let (mut r1, mut r2, a1, a2) = two_nodes();
    let msg = data(a1, Recipient::Target(a2), 0xAA, vec![1, 3, 1, 2]);
    assert!(matches!(deliver(&mut r1, msg.copy(), 9, 0, 10), SwitchAction::Dispatch(0, 1)));
    assert!(matches!(deliver(&mut r2, msg.copy(), 0, 1, 11), SwitchAction::Collect));
    let mut buf = vec![];
    let got = join_frames(&mut buf, r2.collected.pop().unwrap(), 11).unwrap();
    assert!(got.received >= 10);
    assert!(got.id == Ident32([0xAA; 32]));
    assert!(got.sender == a1);
    assert!(got.recipient == Some(Recipient::Target(a2)));
    assert_eq!(got.payload, vec![1, 3, 1, 2]);
}

#[test]
fn reflood_suppression_in_triangle() {
    // Endpoint i of each router leads to router i; neighbour 0 throughout.
    let mut nodes = vec![
        Node::new(Address([1; 32])),
        Node::new(Address([2; 32])),
        Node::new(Address([3; 32])),
    ];
    let f = data(Address([1; 32]), Recipient::Broadcast, 0x33, vec![5]);
    nodes[0].journal.save_as_known(&frame_id(&f));
    // (to, from) pairs still to be delivered
    let mut wire: Vec<(usize, usize)> = vec![(1, 0), (2, 0)];
    nodes[0].sent = 2;
    let mut forwards = [0usize; 3];
    while let Some((to, from)) = wire.pop() {
        match deliver(&mut nodes[to], f.copy(), from, 0, 1) {
            SwitchAction::CollectAndReflood(except, _) => {
                forwards[to] += 1;
                for next in 0..3 {
                    if next != to && next != except {
                        wire.push((next, to));
                        nodes[to].sent += 1;
                    }
                }
            }
            SwitchAction::Drop => {}
            other => panic!("unexpected {:?}", other),
        }
    }
    assert_eq!(forwards, [0, 1, 1]);
    assert_eq!(nodes[1].collected.len(), 1);
    assert_eq!(nodes[2].collected.len(), 1);
    assert_eq!(nodes[1].sent, 1);
    assert_eq!(nodes[2].sent, 1);
}

#[test]
fn delay_tolerance() {
    let a3 = Address([3; 32]);
    let mut r1 = Node::new(Address([1; 32]));
    let f = data(Address([1; 32]), Recipient::Target(a3), 0x44, vec![4, 4]);
    assert!(matches!(deliver(&mut r1, f.copy(), 9, 0, 1), SwitchAction::Held(_)));
    let held = r1.journal.load_pending_for(&Ident32([0x44; 32]));
    assert_eq!(held.len(), 1);
    // Without a route nothing leaves the journal.
    assert!(drain_pending(&mut r1.journal, &r1.routes, &a3).is_empty());
    assert_eq!(r1.journal.load_pending_for(&Ident32([0x44; 32])).len(), 1);
    // R3 connects and announces A3.
    r1.routes.add_session(2, 0);
    deliver(&mut r1, announce(a3), 2, 0, 2);
    assert_eq!(r1.routes.reachable(&a3), Some(RouteType::Remote(2, 0)));
    assert_eq!(held[0].buffer, f.buffer);
    let out = drain_pending(&mut r1.journal, &r1.routes, &a3);
    assert_eq!(out.len(), 1);
    assert_eq!(out[0].0.buffer, f.buffer);
    assert_eq!((out[0].1, out[0].2), (2, 0));
    assert!(r1.journal.load_pending_for(&Ident32([0x44; 32])).is_empty());
    assert!(r1.journal.take_pending_to(&a3).is_empty());
}

#[test]
fn take_pending_keeps_insertion_order() {
    let a = Address([3; 32]);
    let b = Address([4; 32]);
    let mut n = Node::new(Address([1; 32]));
    deliver(&mut n, data(Address([1; 32]), Recipient::Target(a), 0x50, vec![0]), 9, 0, 1);
    deliver(&mut n, data(Address([1; 32]), Recipient::Target(b), 0x51, vec![1]), 9, 0, 1);
    deliver(&mut n, data(Address([1; 32]), Recipient::Target(a), 0x49, vec![2]), 9, 0, 1);
    let out = n.journal.take_pending_to(&a);
    let payloads: Vec<Vec<u8>> = out.iter().map(|e| e.get_payload_slice().to_vec()).collect();
    assert_eq!(payloads, vec![vec![0], vec![2]]);
    assert_eq!(n.journal.take_pending_to(&b).len(), 1);
}

#[test]
fn peer_restart() {
    let (mut r1, mut r2, a1, a2) = two_nodes();
    let f = data(a1, Recipient::Target(a2), 0x60, vec![6]);
    assert!(matches!(deliver(&mut r1, f.copy(), 9, 0, 10), SwitchAction::Dispatch(0, 1)));
    assert!(matches!(deliver(&mut r2, f.copy(), 0, 1, 10), SwitchAction::Collect));
    // The connection drops: the reader stops and asks for a restart.
    let mut empty: u16 = 0;
    assert_eq!(on_read(&mut empty, ReadOutcome::IoError, true), ReaderStep::Stop(true));
    r1.routes.remove_session(0, 1);
    assert_eq!(r1.routes.reachable(&a2), None);
    // One failed attempt, then the session is back.
    let mut state = connect_start(PeerType::Standard).unwrap();
    let mut waited = 0;
    if let ConnectStep::Retry(w) = on_connect_failure(PeerType::Standard, &mut state) {
        waited += w;
    }
    assert!(waited <= 6 * INITIAL_HOLDOFF);
    r1.routes.add_session(0, 1);
    deliver(&mut r1, announce(a2), 0, 1, 20);
    assert_eq!(r1.routes.reachable(&a2), Some(RouteType::Remote(0, 1)));
    // A frame already handled before the drop is not delivered again.
    assert!(matches!(deliver(&mut r2, f.copy(), 0, 1, 21), SwitchAction::Drop));
    assert_eq!(r2.collected.len(), 1);
}

#[test]
fn reflood_skips_incoming_and_full_edges() {
    let edges = vec![
        Edge { endpoint: 0, neighbour: 1, buffer_full: false },
        Edge { endpoint: 0, neighbour: 2, buffer_full: true },
        Edge { endpoint: 1, neighbour: 1, buffer_full: false },
        Edge { endpoint: 0, neighbour: 3, buffer_full: false },
    ];
    let out = reflood_targets(&edges, 0, 1);
    assert_eq!(out, vec![edges[2], edges[3]]);
    assert_eq!(reflood_targets(&vec![], 0, 0), vec![]);
}
