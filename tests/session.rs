use ratman_core::error::SessionError;
use ratman_core::session::{
    peer_target, ack_for, hello_for, SessionData, PEERING_HANDSHAKE,
    check_ack, connect_start, on_connect_failure, on_read, on_write_error, ConnectState,
    ConnectStep, Handshake, PeerType, ReadOutcome, ReaderStep, MAX_NO_DATA,
};
use ratman_core::types::Ident32;

#[test]
fn standard_backoff_doubles_up_to_limit() {
    let mut s = connect_start(PeerType::Standard).unwrap();
    assert_eq!(s, ConnectState { attempts: 0, holdoff: 2 });
    let mut waits = vec![];
    for _ in 0..14 {
        match on_connect_failure(PeerType::Standard, &mut s) {
            ConnectStep::Retry(w) => waits.push(w),
            ConnectStep::GiveUp(_) => panic!("standard peers never give up"),
        }
    }
    assert_eq!(waits, vec![2, 4, 8, 16, 32, 64, 128, 256, 512, 1024, 2048, 4096, 4096, 4096]);
}

#[test]
fn cross_gives_up_after_six_attempts() {
    let mut s = connect_start(PeerType::Cross).unwrap();
    for _ in 0..5 {
        assert!(matches!(on_connect_failure(PeerType::Cross, &mut s), ConnectStep::Retry(_)));
    }
    assert_eq!(on_connect_failure(PeerType::Cross, &mut s), ConnectStep::GiveUp(SessionError::Refused(6)));
}

#[test]
fn limited_is_refused() {
    assert_eq!(connect_start(PeerType::Limited(3)), Err(SessionError::Unsupported));
    let mut s = ConnectState { attempts: 0, holdoff: 2 };
    assert_eq!(on_connect_failure(PeerType::Limited(3), &mut s), ConnectStep::GiveUp(SessionError::Unsupported));
}

#[test]
fn handshake_ack() {
    let key = Ident32([7; 32]);
    assert!(check_ack(PeerType::Standard, Handshake::Ack { tt: PeerType::Standard, r_key_id: key }) == Ok(key));
    assert!(check_ack(PeerType::Standard, Handshake::Ack { tt: PeerType::Cross, r_key_id: key }) == Err(SessionError::Handshake));
    assert!(check_ack(PeerType::Cross, Handshake::Hello { tt: PeerType::Cross, self_port: 9000, r_key_id: key }) == Err(SessionError::Dropped));
}

#[test]
fn reader_tolerates_empty_reads() {
    let mut ctr: u16 = 0;
    for _ in 0..MAX_NO_DATA {
        assert_eq!(on_read(&mut ctr, ReadOutcome::NoData, true), ReaderStep::Retry);
    }
    assert_eq!(ctr, 128);
    assert_eq!(on_read(&mut ctr, ReadOutcome::NoData, true), ReaderStep::Stop(false));
}

#[test]
fn frame_resets_empty_reads() {
    let mut ctr: u16 = 5;
    assert_eq!(on_read(&mut ctr, ReadOutcome::Frame(40), false), ReaderStep::Deliver(40));
    assert_eq!(ctr, 0);
    assert_eq!(on_read(&mut ctr, ReadOutcome::IoError, true), ReaderStep::Stop(true));
    assert_eq!(on_read(&mut ctr, ReadOutcome::IoError, false), ReaderStep::Stop(false));
}

#[test]
fn write_errors() {
    assert_eq!(on_write_error(true), Ok(0));
    assert_eq!(on_write_error(false), Err(SessionError::Dropped));
}

#[test]
fn hello_round_trip_through_carrier() {
    let data = SessionData {
        id: 3,
        self_router_key_id: Ident32([0x11; 32]),
        peer_router_key_id: Ident32([0; 32]),
        tt: PeerType::Cross,
        self_port: 9000,
    };
    let hello = hello_for(&data);
    let env = hello.to_carrier(ratman_core::types::Address([0x11; 32]));
    assert_eq!(env.header.get_modes(), PEERING_HANDSHAKE);
    assert_eq!(env.get_payload_slice().len(), 38);
    match Handshake::from_carrier(&env).unwrap() {
        Handshake::Hello { tt, self_port, r_key_id } => {
            assert_eq!(tt, PeerType::Cross);
            assert_eq!(self_port, 9000);
            assert!(r_key_id == Ident32([0x11; 32]));
        }
        other => panic!("unexpected {:?}", other),
    }
    // The reply decides the session.
    let ack = ack_for(PeerType::Cross, Ident32([0x22; 32]));
    let wire = ack.to_carrier(ratman_core::types::Address([0x22; 32]));
    let back = Handshake::from_carrier(&wire).unwrap();
    assert!(check_ack(data.tt, back) == Ok(Ident32([0x22; 32])));
    assert!(check_ack(PeerType::Standard, back) == Err(SessionError::Handshake));
}

#[test]
fn handshake_layout() {
    let mut buf = vec![];
    Handshake::Ack { tt: PeerType::Limited(0x0102), r_key_id: Ident32([5; 32]) }.generate(&mut buf);
    assert_eq!(&buf[0..4], &[2, 2, 1, 2]);
    assert_eq!(buf.len(), 36);
    assert!(Handshake::parse(&buf).is_some());
    buf[1] = 0;
    assert!(Handshake::parse(&buf).is_none());
    assert!(Handshake::parse(&buf[..35]).is_none());
}

#[test]
fn peer_entries() {
    assert_eq!(peer_target(b"inet#10.0.0.1:9000"), Some(b"10.0.0.1:9000".to_vec()));
    assert_eq!(peer_target(b"inet#a#b"), Some(b"a".to_vec()));
    assert_eq!(peer_target(b"inet#"), Some(vec![]));
    assert_eq!(peer_target(b""), None);
    assert_eq!(peer_target(b"lora#x"), None);
    assert_eq!(peer_target(b"10.0.0.1:9000"), None);
}
