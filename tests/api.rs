use ratman_core::api::{
    Provided, check_client_version, flood_copy_targets, AddrCreate, AddrDestroy, AddrDown, AddrList, AddrUp, ClientRegistry, Handshake, ServerPing,
    VERSION,
};
use ratman_core::error::ClientError;
use ratman_core::routes::RouteTable;
use ratman_core::micro::{
    make, MicroframeHeader, ADD, ADDR, CONTACT, CREATE, DELETE, DESTROY, DOWN, FETCH, LIST, ONE, PEER, QUERY,
    RECV, SEND, STATUS, SUB, SYSTEM, UP,
};
use ratman_core::types::{Address, ClientAuth, Ident32};

#[test]
fn handshake_round_trip() {
    let h = Handshake::new();
    let mut buf = vec![];
    h.generate(&mut buf);
    assert_eq!(buf, vec![1, VERSION[0], VERSION[1]]);
    assert_eq!(Handshake::parse(&buf).unwrap().client_version, VERSION);
    assert_eq!(Handshake::parse(&[2, 0, 1]).unwrap_err(), ClientError::MissingField);
    assert_eq!(Handshake::parse(&[1, 0]).unwrap_err(), ClientError::MissingField);
}

#[test]
fn version_check() {
    assert!(check_client_version(Handshake::new()).is_none());
    match check_client_version(Handshake { client_version: [9, 9] }) {
        Some(ServerPing::IncompatibleVersion { router, client }) => {
            assert_eq!(router, VERSION);
            assert_eq!(client, [9, 9]);
        }
        other => panic!("unexpected {:?}", other),
    }
}

#[test]
fn addr_requests_round_trip() {
    let a = Address([0x11; 32]);
    let mut buf = vec![];
    AddrDestroy { addr: a, force: true }.generate(&mut buf);
    assert_eq!(buf.len(), 33);
    let d = AddrDestroy::parse(&buf).unwrap();
    assert!(d.addr == a && d.force);
    let mut buf = vec![];
    AddrUp { addr: a }.generate(&mut buf);
    assert!(AddrUp::parse(&buf).unwrap().addr == a);
    assert!(AddrDown::parse(&buf).unwrap().addr == a);
    assert_eq!(AddrUp::parse(&buf[..31]).unwrap_err(), ClientError::MissingField);
    assert_eq!(AddrDestroy::parse(&[]).unwrap_err(), ClientError::MissingField);
}

#[test]
fn addr_list_round_trip() {
    let l = AddrList { list: vec![Address([1; 32]), Address([2; 32])] };
    let mut buf = vec![];
    l.generate(&mut buf);
    assert_eq!(buf.len(), 68);
    assert_eq!(&buf[0..4], &[0, 0, 0, 2]);
    let back = AddrList::parse(&buf).unwrap();
    assert_eq!(back.list.len(), 2);
    assert!(back.list[1] == Address([2; 32]));
    assert_eq!(AddrList::parse(&buf[..40]).unwrap_err(), ClientError::MissingField);
}

fn given(new_addr: Address) -> Provided {
    Provided { new_addr, sub_id: Ident32([0x5B; 32]), bind: b"127.0.0.1:9021".to_vec() }
}

fn request(modes: u16, auth: Option<ClientAuth>) -> MicroframeHeader {
    MicroframeHeader { modes, auth, payload_size: 0 }
}

#[test]
fn client_round_trip() {
    let mut reg = ClientRegistry::new();
    let auth = reg.register().unwrap();
    assert!(reg.is_authorized(&Some(auth)));
    let mut body = vec![];
    AddrCreate { name: Some(b"alice".to_vec()) }.generate(&mut body);
    assert_eq!(AddrCreate::parse(&body).name, Some(b"alice".to_vec()));
    let alice = Address([0xA1; 32]);
    match reg.handle(&RouteTable::new(), &request(make(ADDR, CREATE), Some(auth)), &[], &given(alice)) {
        ServerPing::AddrList(l) => assert!(l == vec![alice]),
        other => panic!("unexpected {:?}", other),
    }
    match reg.handle(&RouteTable::new(), &request(make(ADDR, LIST), Some(auth)), &[], &given(Address([0; 32]))) {
        ServerPing::AddrList(l) => assert!(l == vec![alice]),
        other => panic!("unexpected {:?}", other),
    }
    let mut alice_bytes = vec![];
    AddrUp { addr: alice }.generate(&mut alice_bytes);
    assert!(matches!(
        reg.handle(&RouteTable::new(), &request(make(ADDR, UP), Some(auth)), &alice_bytes, &given(alice)),
        ServerPing::Acknowledged
    ));
    let mut other = vec![];
    AddrUp { addr: Address([0x77; 32]) }.generate(&mut other);
    assert!(matches!(
        reg.handle(&RouteTable::new(), &request(make(ADDR, DOWN), Some(auth)), &other, &given(alice)),
        ServerPing::Error(ClientError::InvalidAuth)
    ));
    assert!(matches!(reg.handle(&RouteTable::new(), &request(0, Some(auth)), &[], &given(alice)), ServerPing::Acknowledged));
    // Destroying the address removes it from the list.
    let mut body = vec![];
    AddrDestroy { addr: alice, force: false }.generate(&mut body);
    assert!(matches!(reg.handle(&RouteTable::new(), &request(make(ADDR, DESTROY), Some(auth)), &body, &given(alice)), ServerPing::Acknowledged));
    match reg.handle(&RouteTable::new(), &request(make(ADDR, LIST), Some(auth)), &[], &given(Address([0; 32]))) {
        ServerPing::AddrList(l) => assert!(l.is_empty()),
        other => panic!("unexpected {:?}", other),
    }
    assert!(matches!(
        reg.handle(&RouteTable::new(), &request(make(ADDR, DESTROY), Some(auth)), &body[..10], &given(alice)),
        ServerPing::Error(ClientError::MissingField)
    ));
}

#[test]
fn client_errors() {
    let mut reg = ClientRegistry::new();
    let auth = reg.register().unwrap();
    let stranger = ClientAuth { client_id: Ident32([1; 32]), token: Ident32([2; 32]) };
    let wrong_token = ClientAuth { client_id: auth.client_id, token: Ident32([2; 32]) };
    for bad in [None, Some(stranger), Some(wrong_token)] {
        assert!(matches!(
            reg.handle(&RouteTable::new(), &request(make(ADDR, LIST), bad), &[], &given(Address([0; 32]))),
            ServerPing::Error(ClientError::InvalidAuth)
        ));
    }
    assert!(matches!(
        reg.handle(&RouteTable::new(), &request(make(CONTACT, CREATE), Some(auth)), &[], &given(Address([0; 32]))),
        ServerPing::Error(ClientError::InvalidMode)
    ));
    match reg.handle(&RouteTable::new(), &request(make(ADDR, LIST), Some(auth)), &[], &given(Address([0; 32]))) {
        ServerPing::AddrList(l) => assert!(l.is_empty()),
        other => panic!("unexpected {:?}", other),
    }
}

#[test]
fn authenticate_cases() {
    let mut reg = ClientRegistry::new();
    let fresh = ClientAuth { client_id: Ident32([1; 32]), token: Ident32([2; 32]) };
    assert!(reg.authenticate(true, None, None, fresh) == Ok(None));
    assert!(!reg.is_authorized(&Some(fresh)));
    assert!(reg.authenticate(false, None, None, fresh) == Ok(Some(fresh)));
    assert!(reg.is_authorized(&Some(fresh)));
    assert!(reg.authenticate(false, Some(fresh.client_id), Some(fresh.token), fresh) == Ok(Some(fresh)));
    assert!(reg.authenticate(false, Some(fresh.client_id), Some(Ident32([3; 32])), fresh) == Err(ClientError::InvalidAuth));
    assert!(reg.authenticate(false, Some(fresh.client_id), None, fresh) == Err(ClientError::InvalidAuth));
    assert!(reg.authenticate(false, None, Some(fresh.token), fresh) == Err(ClientError::InvalidAuth));
}

fn ping_round_trip(p: ServerPing) -> ServerPing {
    let mut buf = vec![];
    p.generate(&mut buf);
    let len = buf.len();
    buf.push(0xEE);
    let (back, n) = ServerPing::parse(&buf).unwrap();
    assert_eq!(n, len);
    let mut again = vec![];
    back.generate(&mut again);
    assert_eq!(again, buf[..len].to_vec());
    back
}

#[test]
fn server_ping_round_trips() {
    assert!(matches!(ping_round_trip(ServerPing::Acknowledged), ServerPing::Acknowledged));
    assert!(matches!(ping_round_trip(ServerPing::Timeout), ServerPing::Timeout));
    assert!(matches!(
        ping_round_trip(ServerPing::Error(ClientError::InvalidAuth)),
        ServerPing::Error(ClientError::InvalidAuth)
    ));
    match ping_round_trip(ServerPing::AddrList(vec![Address([1; 32]), Address([2; 32])])) {
        ServerPing::AddrList(l) => assert!(l == vec![Address([1; 32]), Address([2; 32])]),
        other => panic!("unexpected {:?}", other),
    }
    match ping_round_trip(ServerPing::Update { available_subscriptions: vec![Ident32([4; 32])] }) {
        ServerPing::Update { available_subscriptions } => assert!(available_subscriptions == vec![Ident32([4; 32])]),
        other => panic!("unexpected {:?}", other),
    }
    match ping_round_trip(ServerPing::Subscription { sub_id: Ident32([5; 32]), sub_bind: b"127.0.0.1:9021".to_vec() }) {
        ServerPing::Subscription { sub_id, sub_bind } => {
            assert!(sub_id == Ident32([5; 32]));
            assert_eq!(sub_bind, b"127.0.0.1:9021".to_vec());
        }
        other => panic!("unexpected {:?}", other),
    }
    match ping_round_trip(ServerPing::SendSocket { socket_bind: b"[::1]:9022".to_vec() }) {
        ServerPing::SendSocket { socket_bind } => assert_eq!(socket_bind, b"[::1]:9022".to_vec()),
        other => panic!("unexpected {:?}", other),
    }
    match ping_round_trip(ServerPing::IncompatibleVersion { router: [0, 1], client: [0, 2] }) {
        ServerPing::IncompatibleVersion { router, client } => assert_eq!((router, client), ([0, 1], [0, 2])),
        other => panic!("unexpected {:?}", other),
    }
}

#[test]
fn server_ping_layout() {
    let mut buf = vec![];
    ServerPing::Error(ClientError::InvalidMode).generate(&mut buf);
    assert_eq!(buf, vec![3, 0, 0, 0, 1, 1]);
    let mut buf = vec![];
    ServerPing::SendSocket { socket_bind: b"ab".to_vec() }.generate(&mut buf);
    assert_eq!(buf, vec![8, b'a', b'b', 0]);
}

#[test]
fn server_ping_refused() {
    assert!(ServerPing::parse(&[]).is_err());
    assert!(ServerPing::parse(&[9]).is_err());
    assert!(ServerPing::parse(&[3, 0, 0, 0, 1, 7]).is_err());
    assert!(ServerPing::parse(&[8, b'a']).is_err());
    assert!(ServerPing::parse(&[7, 0, 0, 0, 2, 1]).is_err());
}

#[test]
fn addr_create_names() {
    let mut buf = vec![];
    AddrCreate { name: None }.generate(&mut buf);
    assert_eq!(buf, vec![0]);
    assert_eq!(AddrCreate::parse(&buf).name, None);
    let mut buf = vec![];
    AddrCreate { name: Some(b"bob".to_vec()) }.generate(&mut buf);
    assert_eq!(buf, vec![b'b', b'o', b'b', 0]);
    assert_eq!(AddrCreate::parse(b"bob\0rest").name, Some(b"bob".to_vec()));
    assert_eq!(AddrCreate::parse(b"unterminated").name, None);
}

#[test]
fn authenticate_refuses_taken_id() {
    let mut reg = ClientRegistry::new();
    let first = ClientAuth { client_id: Ident32([1; 32]), token: Ident32([2; 32]) };
    let clash = ClientAuth { client_id: Ident32([1; 32]), token: Ident32([3; 32]) };
    assert!(reg.authenticate(false, None, None, first) == Ok(Some(first)));
    assert!(reg.authenticate(false, None, None, clash) == Err(ClientError::InvalidAuth));
    assert!(!reg.is_authorized(&Some(clash)));
    assert!(reg.is_id_taken(&Ident32([1; 32])));
}

#[test]
fn send_peer_and_subscription_requests() {
    let mut reg = ClientRegistry::new();
    let auth = reg.register().unwrap();
    let none = Address([0; 32]);
    match reg.handle(&RouteTable::new(), &request(make(SEND, ONE), Some(auth)), &[], &given(none)) {
        ServerPing::SendSocket { socket_bind } => assert_eq!(socket_bind, b"127.0.0.1:9021".to_vec()),
        other => panic!("unexpected {:?}", other),
    }
    let mut routes = RouteTable::new();
    let far = Address([9; 32]);
    routes.update(far, 0, 1, 0, 1, 1);
    routes.update(far, 0, 2, 0, 1, 1);
    routes.update(Address([8; 32]), 0, 1, 0, 1, 1);
    match reg.handle(&routes, &request(make(PEER, LIST), Some(auth)), &[], &given(none)) {
        ServerPing::AddrList(l) => assert!(l == vec![far, Address([8; 32])]),
        other => panic!("unexpected {:?}", other),
    }
    let mut q = vec![];
    AddrUp { addr: far }.generate(&mut q);
    match reg.handle(&routes, &request(make(PEER, QUERY), Some(auth)), &q, &given(none)) {
        ServerPing::AddrList(l) => assert!(l == vec![far]),
        other => panic!("unexpected {:?}", other),
    }
    match reg.handle(&routes, &request(make(SUB, ADD), Some(auth)), &[], &given(none)) {
        ServerPing::Subscription { sub_id, sub_bind } => {
            assert!(sub_id == Ident32([0x5B; 32]));
            assert_eq!(sub_bind, b"127.0.0.1:9021".to_vec());
        }
        other => panic!("unexpected {:?}", other),
    }
    match reg.handle(&routes, &request(make(RECV, FETCH), Some(auth)), &[], &given(none)) {
        ServerPing::Update { available_subscriptions } => assert!(available_subscriptions == vec![Ident32([0x5B; 32])]),
        other => panic!("unexpected {:?}", other),
    }
    let id = [0x5B; 32].to_vec();
    assert!(matches!(reg.handle(&routes, &request(make(SUB, DELETE), Some(auth)), &id, &given(none)), ServerPing::Acknowledged));
    match reg.handle(&routes, &request(make(RECV, FETCH), Some(auth)), &[], &given(none)) {
        ServerPing::Update { available_subscriptions } => assert!(available_subscriptions.is_empty()),
        other => panic!("unexpected {:?}", other),
    }
    assert!(matches!(
        reg.handle(&routes, &request(make(STATUS, SYSTEM), Some(auth)), &[], &given(none)),
        ServerPing::Error(ClientError::Unsupported)
    ));
    let mut buf = vec![];
    ServerPing::Error(ClientError::Unsupported).generate(&mut buf);
    assert_eq!(buf, vec![3, 0, 0, 0, 1, 4]);
}

#[test]
fn flood_copies() {
    let me = Address([1; 32]);
    let online = vec![(Ident32([1; 32]), me), (Ident32([2; 32]), Address([2; 32])), (Ident32([3; 32]), me)];
    assert!(flood_copy_targets(&online, &me, false) == vec![Ident32([2; 32])]);
    assert!(flood_copy_targets(&online, &me, true) == vec![Ident32([1; 32]), Ident32([2; 32]), Ident32([3; 32])]);
}
