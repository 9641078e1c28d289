use ratman_core::envelope::InMemoryEnvelope;
use ratman_core::error::EncodingError;
use ratman_core::header::CarrierFrameHeader;
use ratman_core::session::encode_peer_frame;
use ratman_core::types::{Address, Ident32, Recipient, SequenceIdV1};

fn header(len: u16) -> CarrierFrameHeader {
    CarrierFrameHeader::new_blockdata_frame(
        Address([1; 32]),
        Recipient::Target(Address([2; 32])),
        SequenceIdV1 { hash: Ident32([5; 32]), num: 0, max: 0 },
        len,
    )
}

#[test]
fn test_envelope_has_no_payload() {
    let e = InMemoryEnvelope::test_envelope();
    assert_eq!(e.header.get_modes(), ratman_core::header::ANNOUNCE);
    assert_eq!(e.buffer.len(), e.header.get_size());
    assert!(e.get_payload_slice().is_empty());
}

#[test]
fn from_header_and_payload_appends() {
    let e = InMemoryEnvelope::from_header_and_payload(header(4), vec![1, 3, 1, 2]).unwrap();
    assert_eq!(e.buffer.len(), header(4).get_size() + 4);
    assert_eq!(e.get_payload_slice(), &[1, 3, 1, 2]);
}

#[test]
fn from_header_and_payload_length_mismatch() {
    let r = InMemoryEnvelope::from_header_and_payload(header(3), vec![1, 3, 1, 2]);
    assert_eq!(r.unwrap_err(), EncodingError::PayloadLength);
}

#[test]
fn parse_from_buffer_drops_trailing_bytes() {
    let e = InMemoryEnvelope::from_header_and_payload(header(2), vec![9, 8]).unwrap();
    let mut bytes = e.buffer.clone();
    bytes.extend_from_slice(&[7, 7, 7]);
    let back = InMemoryEnvelope::parse_from_buffer(bytes).unwrap();
    assert_eq!(back.buffer, e.buffer);
    assert_eq!(back.get_payload_slice(), &[9, 8]);
}

#[test]
fn parse_from_buffer_short_payload() {
    let e = InMemoryEnvelope::from_header_and_payload(header(2), vec![9, 8]).unwrap();
    let mut bytes = e.buffer.clone();
    bytes.pop();
    assert_eq!(InMemoryEnvelope::parse_from_buffer(bytes).unwrap_err(), EncodingError::PayloadLength);
}

#[test]
fn parse_from_buffer_bad_version() {
    let e = InMemoryEnvelope::from_header_and_payload(header(0), vec![]).unwrap();
    let mut bytes = e.buffer.clone();
    bytes[0] = 7;
    assert_eq!(InMemoryEnvelope::parse_from_buffer(bytes).unwrap_err(), EncodingError::InvalidVersion(7));
}

#[test]
fn mut_payload_slice_changes_payload_only() {
    let mut e = InMemoryEnvelope::from_header_and_payload(header(3), vec![1, 2, 3]).unwrap();
    let head: Vec<u8> = e.buffer[..e.header.get_size()].to_vec();
    e.mut_payload_slice()[1] = 42;
    assert_eq!(e.get_payload_slice(), &[1, 42, 3]);
    assert_eq!(&e.buffer[..e.header.get_size()], head.as_slice());
}

#[test]
fn peer_frame_is_length_prefixed() {
    let e = InMemoryEnvelope::from_header_and_payload(header(1), vec![6]).unwrap();
    let wire = encode_peer_frame(&e);
    let n = e.buffer.len() as u32;
    assert_eq!(&wire[0..4], &n.to_be_bytes());
    assert_eq!(&wire[4..], e.buffer.as_slice());
}
