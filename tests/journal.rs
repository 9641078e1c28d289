use ratman_core::envelope::InMemoryEnvelope;
use ratman_core::header::CarrierFrameHeader;
use ratman_core::journal::Journal;
use ratman_core::types::{Address, Ident32, Recipient, SequenceIdV1};

fn frame(hash: u8, num: u32, payload: Vec<u8>) -> InMemoryEnvelope {
    let h = CarrierFrameHeader::new_blockdata_frame(
        Address([1; 32]),
        Recipient::Target(Address([2; 32])),
        SequenceIdV1 { hash: Ident32([hash; 32]), num, max: 9 },
        payload.len() as u16,
    );
    InMemoryEnvelope::from_header_and_payload(h, payload).unwrap()
}

#[test]
fn unknown_until_saved() {
    let mut j = Journal::new();
    let id = Ident32([1; 32]);
    assert!(j.is_unknown(&id));
    j.save_as_known(&id);
    assert!(!j.is_unknown(&id));
    assert!(j.is_unknown(&Ident32([2; 32])));
}

#[test]
fn save_as_known_twice_is_once() {
    let mut once = Journal::new();
    let mut twice = Journal::new();
    let id = Ident32([4; 32]);
    let other = Ident32([5; 32]);
    once.save_as_known(&id);
    twice.save_as_known(&id);
    twice.save_as_known(&id);
    for probe in [id, other] {
        assert_eq!(once.is_unknown(&probe), twice.is_unknown(&probe));
    }
}

#[test]
fn pending_frames_by_number() {
    let mut j = Journal::new();
    j.queue_frame(frame(7, 2, vec![2]));
    j.queue_frame(frame(8, 0, vec![80]));
    j.queue_frame(frame(7, 0, vec![0]));
    j.queue_frame(frame(7, 1, vec![1]));
    let got = j.load_pending_for(&Ident32([7; 32]));
    let payloads: Vec<Vec<u8>> = got.iter().map(|e| e.get_payload_slice().to_vec()).collect();
    assert_eq!(payloads, vec![vec![0], vec![1], vec![2]]);
}

#[test]
fn queue_frame_overwrites_same_key() {
    let mut j = Journal::new();
    j.queue_frame(frame(7, 1, vec![1]));
    j.queue_frame(frame(7, 1, vec![9]));
    let got = j.load_pending_for(&Ident32([7; 32]));
    assert_eq!(got.len(), 1);
    assert_eq!(got[0].get_payload_slice(), &[9]);
}

#[test]
fn purge_sequence_keeps_others() {
    let mut j = Journal::new();
    j.queue_frame(frame(7, 0, vec![0]));
    j.queue_frame(frame(8, 0, vec![80]));
    j.purge_sequence(&Ident32([7; 32]));
    assert!(j.load_pending_for(&Ident32([7; 32])).is_empty());
    assert_eq!(j.load_pending_for(&Ident32([8; 32])).len(), 1);
}

#[test]
fn garbage_collection_spares_manifested_sequences() {
    let fill = |j: &mut Journal| {
        j.queue_frame(frame(1, 0, vec![1; 10]));
        j.queue_frame(frame(2, 0, vec![2; 10]));
        j.queue_frame(frame(3, 0, vec![3; 10]));
        j.queue_manifest(&frame(2, 1, vec![0xAB; 4]));
    };
    let mut j = Journal::new();
    fill(&mut j);
    let total = j.total_bytes();
    assert_eq!(total, 3 * frame(1, 0, vec![1; 10]).buffer.len() as u128);
    assert!(j.has_manifest(&Ident32([2; 32])));

    // Under the high mark nothing happens.
    j.collect_garbage(total, 0);
    assert_eq!(j.total_bytes(), total);

    // One byte too many: the oldest frame without a manifest goes.
    j.collect_garbage(total - 1, total - 1);
    assert!(j.load_pending_for(&Ident32([1; 32])).is_empty());
    assert_eq!(j.load_pending_for(&Ident32([2; 32])).len(), 1);
    assert_eq!(j.load_pending_for(&Ident32([3; 32])).len(), 1);

    // Down to nothing: only the manifested sequence stays.
    let mut j = Journal::new();
    fill(&mut j);
    j.collect_garbage(0, 0);
    assert!(j.load_pending_for(&Ident32([1; 32])).is_empty());
    assert!(j.load_pending_for(&Ident32([3; 32])).is_empty());
    assert_eq!(j.load_pending_for(&Ident32([2; 32])).len(), 1);
}

#[test]
fn manifest_records() {
    let mut j = Journal::new();
    assert!(!j.has_manifest(&Ident32([6; 32])));
    j.queue_manifest(&frame(6, 0, vec![1, 2]));
    j.queue_manifest(&frame(6, 0, vec![3]));
    assert!(j.has_manifest(&Ident32([6; 32])));
    assert!(!j.has_manifest(&Ident32([7; 32])));
}
