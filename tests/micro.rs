use ratman_core::error::{ClientError, EncodingError};
use ratman_core::micro::{
    encode_micro_frame, frame_microframe, make, parse_framed_header, split_mode, MicroframeHeader,
    ADDR, CREATE, INTRINSIC, LIST, SEND, ONE, STATUS, SYSTEM, CONTACT,
};
use ratman_core::types::{ClientAuth, Ident32};

#[test]
fn test_addr_create() {
    let mode = make(ADDR, CREATE);
    println!("{:#018b}", mode);
    assert_eq!(mode, 257);
}

#[test]
fn make_puts_namespace_in_high_byte() {
    assert_eq!(make(SEND, ONE), 0x0612);
    assert_eq!(make(INTRINSIC, INTRINSIC), 0);
}

#[test]
fn split_mode_accepts_known_pairs() {
    assert_eq!(split_mode(make(ADDR, LIST)), Ok((ADDR, LIST)));
    assert_eq!(split_mode(make(STATUS, SYSTEM)), Ok((STATUS, SYSTEM)));
}

#[test]
fn split_mode_refuses_unknown_pairs() {
    assert_eq!(split_mode(make(CONTACT, CREATE)), Err(ClientError::InvalidMode));
    assert_eq!(split_mode(make(ADDR, SYSTEM)), Err(ClientError::InvalidMode));
    assert_eq!(split_mode(0xffff), Err(ClientError::InvalidMode));
}

fn auth() -> ClientAuth {
    ClientAuth { client_id: Ident32([3; 32]), token: Ident32([9; 32]) }
}

#[test]
fn intrinsic_headers() {
    let h = MicroframeHeader::intrinsic_noauth();
    assert_eq!(h.modes, 0);
    assert!(h.auth.is_none());
    assert_eq!(h.payload_size, 0);
    let h = MicroframeHeader::intrinsic_auth(auth());
    assert!(h.auth == Some(auth()));
}

#[test]
fn micro_header_layout() {
    let h = MicroframeHeader { modes: 0x0102, auth: None, payload_size: 0x0a0b0c0d };
    let mut buf = vec![];
    h.generate(&mut buf);
    assert_eq!(buf, vec![1, 2, 0, 0x0a, 0x0b, 0x0c, 0x0d]);
}

#[test]
fn micro_header_round_trip() {
    for h in [
        MicroframeHeader { modes: make(ADDR, CREATE), auth: Some(auth()), payload_size: 77 },
        MicroframeHeader { modes: 0xfffe, auth: None, payload_size: u32::MAX },
    ] {
        let mut buf = vec![];
        h.generate(&mut buf);
        let len = buf.len();
        buf.extend_from_slice(&[5, 5, 5]);
        let (back, n) = MicroframeHeader::parse(&buf).unwrap();
        assert_eq!(n, len);
        assert_eq!(back.modes, h.modes);
        assert!(back.auth == h.auth);
        assert_eq!(back.payload_size, h.payload_size);
    }
}

#[test]
fn micro_header_truncated() {
    let h = MicroframeHeader { modes: 1, auth: Some(auth()), payload_size: 3 };
    let mut buf = vec![];
    h.generate(&mut buf);
    buf.pop();
    assert_eq!(MicroframeHeader::parse(&buf).unwrap_err(), EncodingError::Parsing);
    assert_eq!(MicroframeHeader::parse(&[0, 1, 7]).unwrap_err(), EncodingError::Parsing);
}

#[test]
fn encode_micro_frame_sets_payload_size() {
    let out = encode_micro_frame(make(ADDR, LIST), None, Some(vec![1, 2, 3])).unwrap();
    assert_eq!(out, vec![0, 0, 0, 7, 1, 0x10, 0, 0, 0, 0, 3, 1, 2, 3]);
    let out = encode_micro_frame(0, None, None).unwrap();
    assert_eq!(out, vec![0, 0, 0, 7, 0, 0, 0, 0, 0, 0, 0]);
    let (h, start) = parse_framed_header(&out).unwrap();
    assert_eq!((h.modes, h.payload_size, start), (0, 0, 11));
}

#[test]
fn framed_microframe_round_trip() {
    let h = MicroframeHeader { modes: make(SEND, ONE), auth: Some(auth()), payload_size: 999 };
    let wire = frame_microframe(h, &[4, 5]);
    assert_eq!(&wire[0..4], &[0, 0, 0, 71]);
    let (back, start) = parse_framed_header(&wire).unwrap();
    assert_eq!(start, 75);
    assert_eq!(back.payload_size, 2);
    assert!(back.auth == Some(auth()));
    assert_eq!(&wire[start..], &[4, 5]);
}

#[test]
fn framed_header_with_wrong_length_prefix() {
    let h = MicroframeHeader { modes: 1, auth: None, payload_size: 0 };
    let mut wire = frame_microframe(h, &[]);
    wire[3] = 8;
    assert_eq!(parse_framed_header(&wire).unwrap_err(), EncodingError::Parsing);
}
