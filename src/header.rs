//! The carrier frame header: the per-hop envelope of every frame that
//! routers exchange, its byte layout and its parser.
use vstd::prelude::*;
use crate::codec::{
    at, lemma_at_concat, lemma_at_same, lemma_fields_injective, take_address, take_block64,
    take_recipient, take_seq_id, take_u16, address_bytes, be16, block64_bytes, put_block64, put_bytes32, put_recipient, put_seq_id,
    put_u16, put_u8, recipient_bytes, seq_id_bytes,
};
use crate::error::EncodingError;
use crate::types::{Address, Ident32, Recipient, SequenceIdV1};

verus! {

/// Frame carries an address announcement.
pub const ANNOUNCE: u16 = 0x1;
/// Frame carries a block of message data.
pub const DATA: u16 = 0x2;
/// Frame carries a stream manifest.
pub const MANIFEST: u16 = 0x4;
/// Frame is a namespace anycast probe or reply.
pub const NAMESPACE_ANYCAST: u16 = 0x8;

/// The version byte of the only known header layout.
pub const VERSION_V1: u8 = 1;

/// Fields of a version 1 header.
#[derive(Clone, Copy, Debug)]
pub struct CarrierFrameHeaderV1 {
    /// Frame type; unknown bits are kept as they are.
    pub modes: u16,
    /// Sender address (for peering frames the router key).
    pub sender: Address,
    /// Recipient; absent for frames addressed to the whole network.
    pub recipient: Option<Recipient>,
    /// Which message this frame belongs to, and where in it.
    pub seq_id: Option<SequenceIdV1>,
    /// Side-channel data (a timestamp, a nonce).
    pub auxiliary_data: Option<[u8; 64]>,
    /// Header signature.
    pub signature_data: Option<[u8; 64]>,
    /// Length of the payload that follows the header.
    pub payload_length: u16,
}

/// A carrier frame header, by layout version.
#[derive(Clone, Copy, Debug)]
pub enum CarrierFrameHeader {
    V1(CarrierFrameHeaderV1),
}

/// The bytes of a header on the wire: the version byte, then each field in
/// order, integers big-endian.
pub open spec fn header_bytes(h: CarrierFrameHeader) -> Seq<u8> {
    match h {
        CarrierFrameHeader::V1(v) => seq![VERSION_V1] + be16(v.modes) + address_bytes(v.sender)
            + recipient_bytes(v.recipient) + seq_id_bytes(v.seq_id) + block64_bytes(
            v.auxiliary_data,
        ) + block64_bytes(v.signature_data) + be16(v.payload_length),
    }
}

/// The fields of a header.
pub open spec fn fields(h: CarrierFrameHeader) -> CarrierFrameHeaderV1 {
    match h {
        CarrierFrameHeader::V1(v) => v,
    }
}

impl CarrierFrameHeaderV1 {
    /// A header with the given fields.
    pub fn new(
        modes: u16,
        sender: Address,
        recipient: Option<Recipient>,
        seq_id: Option<SequenceIdV1>,
        auxiliary_data: Option<[u8; 64]>,
        signature_data: Option<[u8; 64]>,
        payload_length: u16,
    ) -> (r: Self)
        ensures
            r == (CarrierFrameHeaderV1 {
                modes,
                sender,
                recipient,
                seq_id,
                auxiliary_data,
                signature_data,
                payload_length,
            }),
    {
        CarrierFrameHeaderV1 {
            modes,
            sender,
            recipient,
            seq_id,
            auxiliary_data,
            signature_data,
            payload_length,
        }
    }
}

impl CarrierFrameHeader {
    /// Header of a namespace anycast probe.
    pub fn new_anycast_probe_frame(sender: Address, recipient: Recipient) -> (r: Self)
        ensures
            fields(r) == (CarrierFrameHeaderV1 {
                modes: NAMESPACE_ANYCAST,
                sender,
                recipient: Some(recipient),
                seq_id: None,
                auxiliary_data: None,
                signature_data: None,
                payload_length: 0,
            }),
    {
        CarrierFrameHeader::V1(
            CarrierFrameHeaderV1 {
                modes: NAMESPACE_ANYCAST,
                sender,
                recipient: Some(recipient),
                seq_id: None,
                auxiliary_data: None,
                signature_data: None,
                payload_length: 0,
            },
        )
    }

    /// Header of a peering-protocol frame from a router.
    pub fn new_netmodproto_frame(modes: u16, router_addr: Address, payload_length: u16) -> (r:
        Self)
        ensures
            fields(r) == (CarrierFrameHeaderV1 {
                modes,
                sender: router_addr,
                recipient: None,
                seq_id: None,
                auxiliary_data: None,
                signature_data: None,
                payload_length,
            }),
    {
        CarrierFrameHeader::V1(
            CarrierFrameHeaderV1 {
                modes,
                sender: router_addr,
                recipient: None,
                seq_id: None,
                auxiliary_data: None,
                signature_data: None,
                payload_length,
            },
        )
    }

    /// Header of a frame that carries one block of a message.
    pub fn new_blockdata_frame(
        sender: Address,
        recipient: Recipient,
        seq_id: SequenceIdV1,
        payload_length: u16,
    ) -> (r: Self)
        ensures
            fields(r) == (CarrierFrameHeaderV1 {
                modes: DATA,
                sender,
                recipient: Some(recipient),
                seq_id: Some(seq_id),
                auxiliary_data: None,
                signature_data: None,
                payload_length,
            }),
    {
        CarrierFrameHeader::V1(
            CarrierFrameHeaderV1 {
                modes: DATA,
                sender,
                recipient: Some(recipient),
                seq_id: Some(seq_id),
                auxiliary_data: None,
                signature_data: None,
                payload_length,
            },
        )
    }

    /// Header of a frame that carries a stream manifest.
    pub fn new_blockmanifest_frame(
        sender: Address,
        recipient: Recipient,
        seq_id: SequenceIdV1,
        payload_length: u16,
    ) -> (r: Self)
        ensures
            fields(r) == (CarrierFrameHeaderV1 {
                modes: MANIFEST,
                sender,
                recipient: Some(recipient),
                seq_id: Some(seq_id),
                auxiliary_data: None,
                signature_data: None,
                payload_length,
            }),
    {
        CarrierFrameHeader::V1(
            CarrierFrameHeaderV1 {
                modes: MANIFEST,
                sender,
                recipient: Some(recipient),
                seq_id: Some(seq_id),
                auxiliary_data: None,
                signature_data: None,
                payload_length,
            },
        )
    }

    /// Header of an address announcement: flooded to all, a single-frame
    /// sequence under a fresh random hash.
    pub fn new_announce_frame(sender: Address, payload_length: u16) -> (r: Self)
        ensures
            fields(r).modes == ANNOUNCE,
            fields(r).sender == sender,
            fields(r).recipient is None,
            fields(r).seq_id matches Some(q) && q.num == 0 && q.max == 0,
            fields(r).auxiliary_data is None,
            fields(r).signature_data is None,
            fields(r).payload_length == payload_length,
    {
        CarrierFrameHeader::V1(
            CarrierFrameHeaderV1 {
                modes: ANNOUNCE,
                sender,
                recipient: None,
                seq_id: Some(SequenceIdV1 { hash: Ident32::random(), num: 0, max: 0 }),
                auxiliary_data: None,
                signature_data: None,
                payload_length,
            },
        )
    }

    /// Size of the header of a data frame from `sender` to `recipient`.
    pub fn get_blockdata_size(sender: Address, recipient: Recipient) -> (r: usize)
        ensures
            r == 1 + 2 + 32 + recipient_bytes(Some(recipient)).len() + 41 + 1 + 1 + 2,
    {
        CarrierFrameHeader::new_blockdata_frame(
            sender,
            recipient,
            SequenceIdV1 { hash: Ident32::random(), num: 0, max: 0 },
            0,
        ).get_size()
    }

    /// Number of bytes of this header on the wire.
    pub fn get_size(&self) -> (r: usize)
        ensures
            r == header_bytes(*self).len(),
    {
        match self {
            CarrierFrameHeader::V1(h) => {
                let recipient_size: usize = match h.recipient {
                    Some(Recipient::Target(_)) | Some(Recipient::Namespace(_)) => 33,
                    Some(Recipient::Broadcast) | None => 1,
                };
                let seq_id_size: usize = match h.seq_id {
                    Some(_) => 41,
                    None => 1,
                };
                let aux_data_size: usize = match h.auxiliary_data {
                    Some(_) => 65,
                    None => 1,
                };
                let sign_data_size: usize = match h.signature_data {
                    Some(_) => 65,
                    None => 1,
                };
                1 + 2 + 32 + recipient_size + seq_id_size + aux_data_size + sign_data_size + 2
            },
        }
    }

    /// The frame type bits.
    pub fn get_modes(&self) -> (r: u16)
        ensures
            r == fields(*self).modes,
    {
        match self {
            CarrierFrameHeader::V1(h) => h.modes,
        }
    }

    /// The sender address.
    pub fn get_sender(&self) -> (r: Address)
        ensures
            r == fields(*self).sender,
    {
        match self {
            CarrierFrameHeader::V1(h) => h.sender,
        }
    }

    /// The recipient, if any.
    pub fn get_recipient(&self) -> (r: Option<Recipient>)
        ensures
            r == fields(*self).recipient,
    {
        match self {
            CarrierFrameHeader::V1(h) => h.recipient,
        }
    }

    /// The sequence ID, if any.
    pub fn get_seq_id(&self) -> (r: Option<SequenceIdV1>)
        ensures
            r == fields(*self).seq_id,
    {
        match self {
            CarrierFrameHeader::V1(h) => h.seq_id,
        }
    }

    /// The length of the payload after the header.
    pub fn get_payload_length(&self) -> (r: usize)
        ensures
            r == fields(*self).payload_length,
    {
        match self {
            CarrierFrameHeader::V1(h) => h.payload_length as usize,
        }
    }

    /// The auxiliary data block, if any.
    pub fn get_auxiliary_data(&self) -> (r: Option<[u8; 64]>)
        ensures
            r == fields(*self).auxiliary_data,
    {
        match self {
            CarrierFrameHeader::V1(h) => h.auxiliary_data,
        }
    }

    /// The signature block, if any.
    pub fn get_signature_data(&self) -> (r: Option<[u8; 64]>)
        ensures
            r == fields(*self).signature_data,
    {
        match self {
            CarrierFrameHeader::V1(h) => h.signature_data,
        }
    }

    /// Append the header's bytes to `buf`.
    pub fn generate(&self, buf: &mut Vec<u8>)
        ensures
            final(buf)@ == old(buf)@ + header_bytes(*self),
    {
        match self {
            CarrierFrameHeader::V1(h) => {
                put_u8(buf, VERSION_V1);
                put_u16(buf, h.modes);
                put_bytes32(buf, &h.sender.0);
                put_recipient(buf, &h.recipient);
                put_seq_id(buf, &h.seq_id);
                put_block64(buf, &h.auxiliary_data);
                put_block64(buf, &h.signature_data);
                put_u16(buf, h.payload_length);
                assert(final(buf)@ =~= old(buf)@ + header_bytes(*self));
            },
        }
    }
}

/// Each field of `v`, laid out from position 0 of `s`.
pub open spec fn fields_at(s: Seq<u8>, v: CarrierFrameHeaderV1) -> bool {
    let r: int = 35 + recipient_bytes(v.recipient).len() as int;
    let q: int = r + seq_id_bytes(v.seq_id).len();
    let a: int = q + block64_bytes(v.auxiliary_data).len();
    let g: int = a + block64_bytes(v.signature_data).len();
    &&& at(s, 0, seq![VERSION_V1])
    &&& at(s, 1, be16(v.modes))
    &&& at(s, 3, address_bytes(v.sender))
    &&& at(s, 35, recipient_bytes(v.recipient))
    &&& at(s, r, seq_id_bytes(v.seq_id))
    &&& at(s, q, block64_bytes(v.auxiliary_data))
    &&& at(s, a, block64_bytes(v.signature_data))
    &&& at(s, g, be16(v.payload_length))
}

proof fn lemma_header_fields(s: Seq<u8>, v: CarrierFrameHeaderV1)
    ensures
        at(s, 0, header_bytes(CarrierFrameHeader::V1(v))) <==> fields_at(s, v),
{
    let w_version = seq![VERSION_V1];
    let w_modes = w_version + be16(v.modes);
    let w_sender = w_modes + address_bytes(v.sender);
    let w_recipient = w_sender + recipient_bytes(v.recipient);
    let w_seq = w_recipient + seq_id_bytes(v.seq_id);
    let w_aux = w_seq + block64_bytes(v.auxiliary_data);
    let w_sig = w_aux + block64_bytes(v.signature_data);
    lemma_at_concat(s, 0, w_sig, be16(v.payload_length));
    lemma_at_concat(s, 0, w_aux, block64_bytes(v.signature_data));
    lemma_at_concat(s, 0, w_seq, block64_bytes(v.auxiliary_data));
    lemma_at_concat(s, 0, w_recipient, seq_id_bytes(v.seq_id));
    lemma_at_concat(s, 0, w_sender, recipient_bytes(v.recipient));
    lemma_at_concat(s, 0, w_modes, address_bytes(v.sender));
    lemma_at_concat(s, 0, w_version, be16(v.modes));
}

/// A header's bytes can be read back one way only: when the bytes of two
/// headers both start a byte string, the headers are the same.
pub proof fn lemma_header_unambiguous(s: Seq<u8>, h1: CarrierFrameHeader, h2: CarrierFrameHeader)
    requires
        at(s, 0, header_bytes(h1)),
        at(s, 0, header_bytes(h2)),
    ensures
        h1 == h2,
{
    let v = fields(h1);
    let w = fields(h2);
    lemma_header_fields(s, v);
    lemma_header_fields(s, w);
    lemma_fields_injective();
    lemma_at_same(s, 1, be16(v.modes), be16(w.modes));
    lemma_at_same(s, 3, address_bytes(v.sender), address_bytes(w.sender));
    lemma_tag_same(s, 35, recipient_bytes(v.recipient), recipient_bytes(w.recipient));
    lemma_at_same(s, 35, recipient_bytes(v.recipient), recipient_bytes(w.recipient));
    let r: int = 35 + recipient_bytes(v.recipient).len() as int;
    lemma_tag_same(s, r, seq_id_bytes(v.seq_id), seq_id_bytes(w.seq_id));
    lemma_at_same(s, r, seq_id_bytes(v.seq_id), seq_id_bytes(w.seq_id));
    let q: int = r + seq_id_bytes(v.seq_id).len();
    lemma_tag_same(s, q, block64_bytes(v.auxiliary_data), block64_bytes(w.auxiliary_data));
    lemma_at_same(s, q, block64_bytes(v.auxiliary_data), block64_bytes(w.auxiliary_data));
    let a: int = q + block64_bytes(v.auxiliary_data).len();
    lemma_tag_same(s, a, block64_bytes(v.signature_data), block64_bytes(w.signature_data));
    lemma_at_same(s, a, block64_bytes(v.signature_data), block64_bytes(w.signature_data));
    let g: int = a + block64_bytes(v.signature_data).len();
    lemma_at_same(s, g, be16(v.payload_length), be16(w.payload_length));
    assert(v == w);
}

proof fn lemma_tag_same(s: Seq<u8>, p: int, a: Seq<u8>, b: Seq<u8>)
    requires
        at(s, p, a),
        at(s, p, b),
        a.len() > 0,
        b.len() > 0,
    ensures
        a[0] == b[0],
{
    assert(s.subrange(p, p + a.len())[0] == a[0]);
    assert(s.subrange(p, p + b.len())[0] == b[0]);
}

/// A header and the bytes after it read back as that header, consuming
/// exactly its bytes.
pub proof fn lemma_header_round_trip(h: CarrierFrameHeader, rest: Seq<u8>)
    ensures
        at(header_bytes(h) + rest, 0, header_bytes(h)),
        forall|h2: CarrierFrameHeader|
            #![trigger header_bytes(h2)]
            at(header_bytes(h) + rest, 0, header_bytes(h2)) ==> h2 == h,
{
    let s = header_bytes(h) + rest;
    assert(s.subrange(0, header_bytes(h).len() as int) =~= header_bytes(h));
    assert forall|h2: CarrierFrameHeader|
        #![trigger header_bytes(h2)]
        at(s, 0, header_bytes(h2)) implies h2 == h by {
        lemma_header_unambiguous(s, h, h2);
    }
}

impl CarrierFrameHeader {
    /// Read a header from the start of `buf`; gives the header and the
    /// number of bytes it took.
    pub fn parse(buf: &[u8]) -> (r: Result<(CarrierFrameHeader, usize), EncodingError>)
        ensures
            r matches Ok((h, n)) ==> at(buf@, 0, header_bytes(h)) && n == header_bytes(h).len(),
            forall|h: CarrierFrameHeader|
                #![trigger header_bytes(h)]
                at(buf@, 0, header_bytes(h)) ==> r == Ok::<(CarrierFrameHeader, usize), EncodingError>((h, header_bytes(h).len() as usize)),
            r matches Err(e) ==> if buf@.len() > 0 && buf@[0] != VERSION_V1 {
                e == EncodingError::InvalidVersion(buf@[0])
            } else {
                e == EncodingError::Parsing
            },
    {
        proof {
            assert forall|h: CarrierFrameHeader|
                #![trigger header_bytes(h)]
                at(buf@, 0, header_bytes(h)) implies fields_at(buf@, fields(h)) by {
                lemma_header_fields(buf@, fields(h));
                assert(header_bytes(h) == header_bytes(CarrierFrameHeader::V1(fields(h))));
            }
        }
        if buf.len() == 0 {
            return Err(EncodingError::Parsing);
        }
        if buf[0] != VERSION_V1 {
            proof {
                assert forall|h: CarrierFrameHeader|
                    #![trigger header_bytes(h)]
                    !at(buf@, 0, header_bytes(h)) by {
                    if at(buf@, 0, header_bytes(h)) {
                        assert(buf@.subrange(0, 1)[0] == seq![VERSION_V1][0]);
                    }
                }
            }
            return Err(EncodingError::InvalidVersion(buf[0]));
        }
        assert(buf@.subrange(0, 1) =~= seq![VERSION_V1]);
        let modes = match take_u16(buf, 1) {
            Some(m) => m,
            None => return Err(EncodingError::Parsing),
        };
        let sender = match take_address(buf, 3) {
            Some(a) => a,
            None => return Err(EncodingError::Parsing),
        };
        let (recipient, p) = match take_recipient(buf, 35) {
            Some(x) => x,
            None => return Err(EncodingError::Parsing),
        };
        let (seq_id, p) = match take_seq_id(buf, p) {
            Some(x) => x,
            None => return Err(EncodingError::Parsing),
        };
        let (auxiliary_data, p) = match take_block64(buf, p) {
            Some(x) => x,
            None => return Err(EncodingError::Parsing),
        };
        let (signature_data, p) = match take_block64(buf, p) {
            Some(x) => x,
            None => return Err(EncodingError::Parsing),
        };
        let payload_length = match take_u16(buf, p) {
            Some(x) => x,
            None => return Err(EncodingError::Parsing),
        };
        let v = CarrierFrameHeaderV1 {
            modes,
            sender,
            recipient,
            seq_id,
            auxiliary_data,
            signature_data,
            payload_length,
        };
        let h = CarrierFrameHeader::V1(v);
        proof {
            lemma_header_fields(buf@, v);
            assert forall|h2: CarrierFrameHeader|
                #![trigger header_bytes(h2)]
                at(buf@, 0, header_bytes(h2)) implies h2 == h by {
                lemma_header_unambiguous(buf@, h, h2);
            }
        }
        Ok((h, p + 2))
    }
}

} // verus!
