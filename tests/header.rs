use ratman_core::error::EncodingError;
use ratman_core::header::{
    CarrierFrameHeader, CarrierFrameHeaderV1, ANNOUNCE, DATA, MANIFEST, NAMESPACE_ANYCAST,
};
use ratman_core::types::{Address, Ident32, Recipient, SequenceIdV1};

fn seq(num: u32, max: u32) -> SequenceIdV1 {
    SequenceIdV1 { hash: Ident32([0xAA; 32]), num, max }
}

fn round_trip(h: CarrierFrameHeader) {
    let mut buf = vec![];
    h.generate(&mut buf);
    assert_eq!(buf.len(), h.get_size());
    buf.extend_from_slice(&[1, 2, 3]);
    let (back, n) = CarrierFrameHeader::parse(&buf).unwrap();
    assert_eq!(n, h.get_size());
    assert_eq!(back.get_modes(), h.get_modes());
    assert!(back.get_sender() == h.get_sender());
    assert!(back.get_recipient() == h.get_recipient());
    assert!(back.get_seq_id() == h.get_seq_id());
    assert_eq!(back.get_auxiliary_data(), h.get_auxiliary_data());
    assert_eq!(back.get_signature_data(), h.get_signature_data());
    assert_eq!(back.get_payload_length(), h.get_payload_length());
}

#[test]
fn header_round_trip_all_shapes() {
    let a = Address([1; 32]);
    let b = Address([2; 32]);
    round_trip(CarrierFrameHeader::new_blockdata_frame(a, Recipient::Target(b), seq(3, 9), 1200));
    round_trip(CarrierFrameHeader::new_blockmanifest_frame(a, Recipient::Namespace(b), seq(0, 0), 5));
    round_trip(CarrierFrameHeader::new_anycast_probe_frame(a, Recipient::Broadcast));
    round_trip(CarrierFrameHeader::new_netmodproto_frame(0x4321, a, 65535));
    round_trip(CarrierFrameHeader::new_announce_frame(a, 0));
    round_trip(CarrierFrameHeader::V1(CarrierFrameHeaderV1::new(
        0xbeef,
        b,
        Some(Recipient::Target(a)),
        Some(seq(u32::MAX, u32::MAX)),
        Some([7; 64]),
        Some([8; 64]),
        17,
    )));
}

#[test]
fn header_layout_is_big_endian() {
    let h = CarrierFrameHeader::new_netmodproto_frame(0x0102, Address([0; 32]), 0x0304);
    let mut buf = vec![];
    h.generate(&mut buf);
    assert_eq!(buf.len(), 41);
    assert_eq!(&buf[0..3], &[1, 1, 2]);
    assert_eq!(&buf[35..], &[0, 0, 0, 0, 3, 4]);
}

#[test]
fn unknown_mode_bits_are_kept() {
    round_trip(CarrierFrameHeader::new_netmodproto_frame(0xf0f0, Address([4; 32]), 0));
}

#[test]
fn invalid_version() {
    let h = CarrierFrameHeader::new_announce_frame(Address([1; 32]), 0);
    let mut buf = vec![];
    h.generate(&mut buf);
    buf[0] = 2;
    assert_eq!(CarrierFrameHeader::parse(&buf).unwrap_err(), EncodingError::InvalidVersion(2));
}

#[test]
fn truncated_or_bad_tag() {
    assert_eq!(CarrierFrameHeader::parse(&[]).unwrap_err(), EncodingError::Parsing);
    let h = CarrierFrameHeader::new_blockdata_frame(Address([1; 32]), Recipient::Broadcast, seq(1, 2), 3);
    let mut buf = vec![];
    h.generate(&mut buf);
    assert_eq!(CarrierFrameHeader::parse(&buf[..buf.len() - 1]).unwrap_err(), EncodingError::Parsing);
    buf[35] = 9;
    assert_eq!(CarrierFrameHeader::parse(&buf).unwrap_err(), EncodingError::Parsing);
}

#[test]
fn sizes() {
    let a = Address([1; 32]);
    assert_eq!(CarrierFrameHeader::get_blockdata_size(a, Recipient::Target(a)), 113);
    assert_eq!(CarrierFrameHeader::get_blockdata_size(a, Recipient::Broadcast), 81);
    assert_eq!(CarrierFrameHeader::new_announce_frame(a, 0).get_size(), 81);
}

#[test]
fn constructors_set_modes() {
    let a = Address([1; 32]);
    assert_eq!(CarrierFrameHeader::new_blockdata_frame(a, Recipient::Broadcast, seq(0, 0), 1).get_modes(), DATA);
    assert_eq!(CarrierFrameHeader::new_blockmanifest_frame(a, Recipient::Broadcast, seq(0, 0), 1).get_modes(), MANIFEST);
    assert_eq!(CarrierFrameHeader::new_anycast_probe_frame(a, Recipient::Broadcast).get_modes(), NAMESPACE_ANYCAST);
    let ann = CarrierFrameHeader::new_announce_frame(a, 12);
    assert_eq!(ann.get_modes(), ANNOUNCE);
    assert!(ann.get_recipient().is_none());
    let q = ann.get_seq_id().unwrap();
    assert_eq!((q.num, q.max), (0, 0));
    assert_eq!(ann.get_payload_length(), 12);
}
