use ratman_core::error::ClientError;
use ratman_core::send::{frames_for_send, Letterhead};
use ratman_core::collector::{join_frames, slice_message, Collector};
use ratman_core::envelope::InMemoryEnvelope;
use ratman_core::header::CarrierFrameHeader;
use ratman_core::types::{Address, Ident32, Recipient, SequenceIdV1};

fn frame(num: u32, max: u32, payload: Vec<u8>) -> InMemoryEnvelope {
    let h = CarrierFrameHeader::new_blockdata_frame(
        Address([1; 32]),
        Recipient::Target(Address([2; 32])),
        SequenceIdV1 { hash: Ident32([0xAA; 32]), num, max },
        payload.len() as u16,
    );
    InMemoryEnvelope::from_header_and_payload(h, payload).unwrap()
}

#[test]
fn join_frame_simple() {
    let mut buf = vec![];
    assert!(join_frames(&mut buf, frame(0, 2, (0..10).collect()), 0).is_none());
    assert!(join_frames(&mut buf, frame(2, 2, (20..30).collect()), 0).is_none());
    let msg = join_frames(&mut buf, frame(1, 2, (10..20).collect()), 0).unwrap();
    assert_eq!(msg.payload, (0..30).collect::<Vec<u8>>());
    assert!(msg.id == Ident32([0xAA; 32]));
    assert!(msg.sender == Address([1; 32]));
    assert!(msg.recipient == Some(Recipient::Target(Address([2; 32]))));
}

#[test]
fn single_frame_message() {
    let mut buf = vec![];
    let msg = join_frames(&mut buf, frame(0, 0, vec![1, 3, 1, 2]), 0).unwrap();
    assert_eq!(msg.payload, vec![1, 3, 1, 2]);
}

#[test]
fn duplicates_are_discarded() {
    let mut buf = vec![];
    assert!(join_frames(&mut buf, frame(1, 1, vec![1]), 0).is_none());
    assert!(join_frames(&mut buf, frame(1, 1, vec![9]), 0).is_none());
    assert_eq!(buf.len(), 1);
    let msg = join_frames(&mut buf, frame(0, 1, vec![0]), 0).unwrap();
    assert_eq!(msg.payload, vec![0, 1]);
}

#[test]
fn gap_keeps_waiting() {
    let mut buf = vec![];
    assert!(join_frames(&mut buf, frame(0, 3, vec![0]), 0).is_none());
    assert!(join_frames(&mut buf, frame(3, 3, vec![3]), 0).is_none());
    assert!(join_frames(&mut buf, frame(1, 3, vec![1]), 0).is_none());
    assert_eq!(join_frames(&mut buf, frame(2, 3, vec![2]), 0).unwrap().payload, vec![0, 1, 2, 3]);
}

fn frame_of_seq(hash: u8, num: u32, max: u32, payload: Vec<u8>) -> InMemoryEnvelope {
    let h = CarrierFrameHeader::new_blockdata_frame(
        Address([1; 32]),
        Recipient::Broadcast,
        SequenceIdV1 { hash: Ident32([hash; 32]), num, max },
        payload.len() as u16,
    );
    InMemoryEnvelope::from_header_and_payload(h, payload).unwrap()
}

#[test]
fn collector_keeps_sequences_apart() {
    let mut c = Collector::new();
    assert!(c.queue(frame_of_seq(1, 1, 1, vec![11]), 0).is_none());
    assert!(c.queue(frame_of_seq(2, 1, 1, vec![21]), 0).is_none());
    assert!(c.queue(frame_of_seq(1, 1, 1, vec![99]), 0).is_none());
    let m = c.queue(frame_of_seq(2, 0, 1, vec![20]), 0).unwrap();
    assert!(m.id == Ident32([2; 32]));
    assert_eq!(m.payload, vec![20, 21]);
    let m = c.queue(frame_of_seq(1, 0, 1, vec![10]), 0).unwrap();
    assert_eq!(m.payload, vec![10, 11]);
    // A finished sequence starts over.
    assert!(c.queue(frame_of_seq(1, 1, 1, vec![11]), 0).is_none());
}

#[test]
fn slice_then_join_any_order() {
    let payload: Vec<u8> = (0..=250).collect();
    let mut frames = slice_message(Address([1; 32]), Recipient::Broadcast, Ident32([3; 32]), &payload, 60);
    assert_eq!(frames.len(), 5);
    for (i, f) in frames.iter().enumerate() {
        let q = f.header.get_seq_id().unwrap();
        assert_eq!((q.num, q.max), (i as u32, 4));
        assert!(f.get_payload_slice().len() <= 60);
    }
    frames.swap(0, 3);
    frames.swap(1, 4);
    let mut c = Collector::new();
    let mut out = None;
    for f in frames {
        assert!(out.is_none());
        out = c.queue(f, 0);
    }
    assert_eq!(out.unwrap().payload, payload);
}

#[test]
fn slice_edge_sizes() {
    let one = slice_message(Address([1; 32]), Recipient::Broadcast, Ident32([3; 32]), &[], 10);
    assert_eq!(one.len(), 1);
    assert!(one[0].get_payload_slice().is_empty());
    let exact = slice_message(Address([1; 32]), Recipient::Broadcast, Ident32([3; 32]), &[7; 20], 10);
    assert_eq!(exact.len(), 2);
    let mut buf = vec![];
    assert!(join_frames(&mut buf, exact[1].copy(), 0).is_none());
    assert_eq!(join_frames(&mut buf, exact[0].copy(), 0).unwrap().payload, vec![7; 20]);
}

#[test]
fn send_path_one_sequence_per_recipient() {
    let lh = Letterhead {
        sender: Address([1; 32]),
        recipients: vec![Recipient::Target(Address([2; 32])), Recipient::Target(Address([3; 32]))],
        payload_length: 25,
    };
    let payload: Vec<u8> = (0..25).collect();
    let hashes = vec![Ident32([0x10; 32]), Ident32([0x11; 32])];
    let out = frames_for_send(&lh, &hashes, &payload, 10).unwrap();
    assert_eq!(out.len(), 2);
    for (i, seq) in out.into_iter().enumerate() {
        assert_eq!(seq.len(), 3);
        assert!(seq[0].header.get_recipient() == Some(lh.recipients[i]));
        let mut c = Collector::new();
        let mut msg = None;
        for f in seq {
            msg = c.queue(f, 0);
        }
        let msg = msg.unwrap();
        assert!(msg.id == hashes[i]);
        assert_eq!(msg.payload, payload);
    }
    assert!(frames_for_send(&lh, &hashes, &payload[..24], 10).unwrap_err() == ClientError::MissingField);
    assert!(frames_for_send(&lh, &hashes[..1].to_vec(), &payload, 10).unwrap_err() == ClientError::MissingField);
}

#[test]
fn idle_buffers_are_evicted() {
    let mut c = Collector::new();
    assert!(c.queue(frame_of_seq(1, 0, 1, vec![10]), 10).is_none());
    assert!(c.queue(frame_of_seq(2, 0, 1, vec![20]), 100).is_none());
    let out = c.evict_idle(100, 60);
    assert_eq!(out.len(), 1);
    assert!(out[0].0 == Ident32([1; 32]));
    assert_eq!(out[0].1.len(), 1);
    assert_eq!(out[0].2, 10);
    // The busy sequence still completes; the evicted one starts over.
    assert_eq!(c.queue(frame_of_seq(2, 1, 1, vec![21]), 101, ).unwrap().payload, vec![20, 21]);
    assert!(c.queue(frame_of_seq(1, 1, 1, vec![11]), 101).is_none());
    assert!(c.evict_idle(101, 60).is_empty());
}
