//! Microframes: the length-prefixed request/response units between the
//! router and its local clients, and the namespace/operator mode scheme.
use vstd::prelude::*;
use crate::codec::{
    at, auth_bytes, be16, be32, lemma_at_concat, lemma_at_same, lemma_fields_injective, put_auth,
    put_slice, put_u16, put_u32, take_auth, take_u16, take_u32,
};
use crate::error::{ClientError, EncodingError};
use crate::types::ClientAuth;

verus! {

/// Namespace: handshake and client-router housekeeping.
pub const INTRINSIC: u8 = 0x0;
/// Namespace: local addresses.
pub const ADDR: u8 = 0x1;
/// Namespace: per-address contact book.
pub const CONTACT: u8 = 0x2;
/// Namespace: router-to-router links.
pub const LINK: u8 = 0x3;
/// Namespace: peers on the network.
pub const PEER: u8 = 0x4;
/// Namespace: receiving.
pub const RECV: u8 = 0x5;
/// Namespace: sending.
pub const SEND: u8 = 0x6;
/// Namespace: status queries.
pub const STATUS: u8 = 0x7;
/// Namespace: stream and namespace subscriptions.
pub const SUB: u8 = 0x8;

/// Operator: create permanently.
pub const CREATE: u8 = 0x1;
/// Operator: destroy permanently.
pub const DESTROY: u8 = 0x2;
/// Operator: bring up.
pub const UP: u8 = 0x3;
/// Operator: bring down.
pub const DOWN: u8 = 0x4;
/// Operator: add (reversible).
pub const ADD: u8 = 0x5;
/// Operator: delete (reversible).
pub const DELETE: u8 = 0x6;
/// Operator: modify.
pub const MODIFY: u8 = 0x7;
/// Operator: list.
pub const LIST: u8 = 0x10;
/// Operator: query.
pub const QUERY: u8 = 0x11;
/// Operator: to one recipient.
pub const ONE: u8 = 0x12;
/// Operator: to many recipients.
pub const MANY: u8 = 0x13;
/// Operator: flood.
pub const FLOOD: u8 = 0x14;
/// Operator: fetch.
pub const FETCH: u8 = 0x15;
/// Operator: system-wide.
pub const SYSTEM: u8 = 0x16;

/// The mode word of a namespace and an operator: namespace in the high
/// byte, operator in the low byte.
pub fn make(ns: u8, op: u8) -> (r: u16)
    ensures
        r == ns as int * 256 + op as int,
{
    (ns as u16) * 256 + (op as u16)
}

/// The namespace/operator pairs that the router answers.
pub open spec fn valid_pair(ns: u8, op: u8) -> bool {
    ||| ns == INTRINSIC && op == INTRINSIC
    ||| ns == ADDR && (op == CREATE || op == DESTROY || op == UP || op == DOWN || op == LIST)
    ||| ns == PEER && (op == LIST || op == QUERY)
    ||| ns == LINK && op == LIST
    ||| ns == SEND && (op == ONE || op == MANY || op == FLOOD)
    ||| ns == RECV && op == FETCH
    ||| ns == SUB && (op == ADD || op == DELETE)
    ||| ns == STATUS && op == SYSTEM
}

/// Split a mode word into its namespace and operator, refusing the pairs
/// that the router does not answer.
pub fn split_mode(modes: u16) -> (r: Result<(u8, u8), ClientError>)
    ensures
        match r {
            Ok((ns, op)) => modes == ns as int * 256 + op as int && valid_pair(ns, op),
            Err(e) => e == ClientError::InvalidMode && !valid_pair(
                (modes / 256) as u8,
                (modes % 256) as u8,
            ),
        },
{
    let ns = (modes / 256) as u8;
    let op = (modes % 256) as u8;
    let ok = (ns == INTRINSIC && op == INTRINSIC) || (ns == ADDR && (op == CREATE || op == DESTROY
        || op == UP || op == DOWN || op == LIST)) || (ns == PEER && (op == LIST || op == QUERY)) || (
    ns == LINK && op == LIST) || (ns == SEND && (op == ONE || op == MANY || op == FLOOD)) || (ns
        == RECV && op == FETCH) || (ns == SUB && (op == ADD || op == DELETE)) || (ns == STATUS && op
        == SYSTEM);
    if ok {
        Ok((ns, op))
    } else {
        Err(ClientError::InvalidMode)
    }
}

/// Header of a microframe.
#[derive(Clone, Copy, Debug)]
pub struct MicroframeHeader {
    pub modes: u16,
    pub auth: Option<ClientAuth>,
    pub payload_size: u32,
}

/// The bytes of a microframe header: the mode word, the optional
/// credentials and the payload size.
pub open spec fn micro_header_bytes(h: MicroframeHeader) -> Seq<u8> {
    be16(h.modes) + auth_bytes(h.auth) + be32(h.payload_size)
}

proof fn lemma_micro_fields(s: Seq<u8>, p: int, h: MicroframeHeader)
    ensures
        at(s, p, micro_header_bytes(h)) <==> (at(s, p, be16(h.modes)) && at(s, p + 2, auth_bytes(h.auth))
            && at(s, p + 2 + auth_bytes(h.auth).len(), be32(h.payload_size))),
{
    lemma_at_concat(s, p, be16(h.modes) + auth_bytes(h.auth), be32(h.payload_size));
    lemma_at_concat(s, p, be16(h.modes), auth_bytes(h.auth));
}

/// Microframe header bytes read back one way only.
pub proof fn lemma_micro_unambiguous(s: Seq<u8>, p: int, h1: MicroframeHeader, h2: MicroframeHeader)
    requires
        at(s, p, micro_header_bytes(h1)),
        at(s, p, micro_header_bytes(h2)),
    ensures
        h1 == h2,
{
    lemma_micro_fields(s, p, h1);
    lemma_micro_fields(s, p, h2);
    lemma_fields_injective();
    lemma_at_same(s, p, be16(h1.modes), be16(h2.modes));
    assert(s.subrange(p + 2, p + 2 + auth_bytes(h1.auth).len())[0] == auth_bytes(h1.auth)[0]);
    assert(s.subrange(p + 2, p + 2 + auth_bytes(h2.auth).len())[0] == auth_bytes(h2.auth)[0]);
    lemma_at_same(s, p + 2, auth_bytes(h1.auth), auth_bytes(h2.auth));
    lemma_at_same(
        s,
        p + 2 + auth_bytes(h1.auth).len(),
        be32(h1.payload_size),
        be32(h2.payload_size),
    );
}

/// A microframe header and the bytes after it read back as that header,
/// consuming exactly its bytes.
pub proof fn lemma_micro_round_trip(h: MicroframeHeader, rest: Seq<u8>)
    ensures
        at(micro_header_bytes(h) + rest, 0, micro_header_bytes(h)),
        forall|h2: MicroframeHeader|
            #![trigger micro_header_bytes(h2)]
            at(micro_header_bytes(h) + rest, 0, micro_header_bytes(h2)) ==> h2 == h,
{
    let s = micro_header_bytes(h) + rest;
    assert(s.subrange(0, micro_header_bytes(h).len() as int) =~= micro_header_bytes(h));
    assert forall|h2: MicroframeHeader|
        #![trigger micro_header_bytes(h2)]
        at(s, 0, micro_header_bytes(h2)) implies h2 == h by {
        lemma_micro_unambiguous(s, 0, h, h2);
    }
}

impl MicroframeHeader {
    /// The credential-less header of an intrinsic exchange.
    pub fn intrinsic_noauth() -> (r: Self)
        ensures
            r == (MicroframeHeader { modes: 0, auth: None, payload_size: 0 }),
    {
        MicroframeHeader { modes: make(INTRINSIC, INTRINSIC), auth: None, payload_size: 0 }
    }

    /// The header of an intrinsic exchange that carries credentials.
    pub fn intrinsic_auth(auth: ClientAuth) -> (r: Self)
        ensures
            r == (MicroframeHeader { modes: 0, auth: Some(auth), payload_size: 0 }),
    {
        MicroframeHeader { modes: make(INTRINSIC, INTRINSIC), auth: Some(auth), payload_size: 0 }
    }

    /// Append the header's bytes to `buf`.
    pub fn generate(&self, buf: &mut Vec<u8>)
        ensures
            final(buf)@ == old(buf)@ + micro_header_bytes(*self),
    {
        put_u16(buf, self.modes);
        put_auth(buf, &self.auth);
        put_u32(buf, self.payload_size);
        assert(final(buf)@ =~= old(buf)@ + micro_header_bytes(*self));
    }

    /// Read a header at position `pos` of `buf`; gives the header and the
    /// position after it.
    pub fn parse_at(buf: &[u8], pos: usize) -> (r: Option<(MicroframeHeader, usize)>)
        ensures
            r matches Some((h, n)) ==> at(buf@, pos as int, micro_header_bytes(h)) && n == pos
                + micro_header_bytes(h).len(),
            forall|h: MicroframeHeader|
                #![trigger micro_header_bytes(h)]
                at(buf@, pos as int, micro_header_bytes(h)) ==> r == Some((h, (pos + micro_header_bytes(h).len()) as usize)),
    {
        proof {
            assert forall|h: MicroframeHeader|
                #![trigger micro_header_bytes(h)]
                at(buf@, pos as int, micro_header_bytes(h)) implies at(buf@, pos as int, be16(h.modes))
                    && at(buf@, pos + 2, auth_bytes(h.auth)) && at(buf@, pos + 2 + auth_bytes(h.auth).len(), be32(h.payload_size)) by {
                lemma_micro_fields(buf@, pos as int, h);
            }
        }
        if pos > buf.len() || buf.len() - pos < 2 {
            return None;
        }
        let modes = match take_u16(buf, pos) {
            Some(m) => m,
            None => return None,
        };
        let (auth, p) = match take_auth(buf, pos + 2) {
            Some(x) => x,
            None => return None,
        };
        let payload_size = match take_u32(buf, p) {
            Some(x) => x,
            None => return None,
        };
        let h = MicroframeHeader { modes, auth, payload_size };
        proof {
            lemma_micro_fields(buf@, pos as int, h);
            assert forall|h2: MicroframeHeader|
                #![trigger micro_header_bytes(h2)]
                at(buf@, pos as int, micro_header_bytes(h2)) implies h2 == h by {
                lemma_micro_unambiguous(buf@, pos as int, h, h2);
            }
        }
        Some((h, p + 4))
    }

    /// Read a header from the start of `buf`.
    pub fn parse(buf: &[u8]) -> (r: Result<(MicroframeHeader, usize), EncodingError>)
        ensures
            r matches Ok((h, n)) ==> at(buf@, 0, micro_header_bytes(h)) && n == micro_header_bytes(h).len(),
            forall|h: MicroframeHeader|
                #![trigger micro_header_bytes(h)]
                at(buf@, 0, micro_header_bytes(h)) ==> r == Ok::<(MicroframeHeader, usize), EncodingError>((h, micro_header_bytes(h).len() as usize)),
            r matches Err(e) ==> e == EncodingError::Parsing,
    {
        match MicroframeHeader::parse_at(buf, 0) {
            Some(x) => Ok(x),
            None => Err(EncodingError::Parsing),
        }
    }
}

/// A microframe as it goes on the socket: the length of the header, a
/// header with the given mode and credentials whose payload size is that
/// of `payload`, then the payload itself. A payload whose length does not
/// fit in 32 bits is refused.
pub fn encode_micro_frame(modes: u16, auth: Option<ClientAuth>, payload: Option<Vec<u8>>) -> (r:
    Result<Vec<u8>, EncodingError>)
    ensures
        ({
            let body = match payload {
                Some(p) => p@,
                None => Seq::<u8>::empty(),
            };
            match r {
                Ok(out) => body.len() <= u32::MAX && out@ == wire_bytes(
                    MicroframeHeader { modes, auth, payload_size: 0 },
                    body,
                ),
                Err(e) => body.len() > u32::MAX && e == EncodingError::FrameTooLarge,
            }
        }),
{
    let payload_buf = match payload {
        Some(p) => p,
        None => Vec::new(),
    };
    if payload_buf.len() > 0xffff_ffff {
        return Err(EncodingError::FrameTooLarge);
    }
    let header = MicroframeHeader { modes, auth, payload_size: 0 };
    Ok(frame_microframe(header, payload_buf.as_slice()))
}

/// A microframe as it goes on the socket: the header's length as a
/// big-endian `u32`, the header with its payload size set to that of
/// `payload`, then the payload.
pub open spec fn wire_bytes(h: MicroframeHeader, payload: Seq<u8>) -> Seq<u8> {
    let hd = MicroframeHeader { payload_size: payload.len() as u32, ..h };
    be32(micro_header_bytes(hd).len() as u32) + micro_header_bytes(hd) + payload
}

/// Frame `payload` under `header` for the socket; the header's payload
/// size is replaced by the payload's length.
pub fn frame_microframe(header: MicroframeHeader, payload: &[u8]) -> (r: Vec<u8>)
    requires
        payload@.len() <= u32::MAX,
    ensures
        r@ == wire_bytes(header, payload@),
{
    let hd = MicroframeHeader { payload_size: payload.len() as u32, ..header };
    let mut head: Vec<u8> = Vec::new();
    hd.generate(&mut head);
    let mut out: Vec<u8> = Vec::new();
    put_u32(&mut out, head.len() as u32);
    put_slice(&mut out, head.as_slice());
    put_slice(&mut out, payload);
    out
}

/// Read the length-prefixed header of a microframe from the start of
/// `buf`; gives the header and the position where its payload starts.
/// The prefix must equal the header's length.
pub fn parse_framed_header(buf: &[u8]) -> (r: Result<(MicroframeHeader, usize), EncodingError>)
    ensures
        r matches Ok((h, n)) ==> at(buf@, 0, be32(micro_header_bytes(h).len() as u32)) && at(
            buf@,
            4,
            micro_header_bytes(h),
        ) && n == 4 + micro_header_bytes(h).len(),
        forall|h: MicroframeHeader|
            #![trigger micro_header_bytes(h)]
            at(buf@, 0, be32(micro_header_bytes(h).len() as u32)) && at(buf@, 4, micro_header_bytes(h))
                ==> r == Ok::<(MicroframeHeader, usize), EncodingError>((h, (4 + micro_header_bytes(h).len()) as usize)),
        r matches Err(e) ==> e == EncodingError::Parsing,
{
    let len = match take_u32(buf, 0) {
        Some(l) => l,
        None => return Err(EncodingError::Parsing),
    };
    match MicroframeHeader::parse_at(buf, 4) {
        Some((h, n)) => {
            if n - 4 == len as usize {
                Ok((h, n))
            } else {
                proof {
                    assert forall|h2: MicroframeHeader|
                        #![trigger micro_header_bytes(h2)]
                        !(at(buf@, 0, be32(micro_header_bytes(h2).len() as u32)) && at(buf@, 4, micro_header_bytes(h2))) by {
                        if at(buf@, 4, micro_header_bytes(h2)) {
                            lemma_micro_unambiguous(buf@, 4, h, h2);
                        }
                    }
                }
                Err(EncodingError::Parsing)
            }
        },
        None => Err(EncodingError::Parsing),
    }
}

} // verus!
