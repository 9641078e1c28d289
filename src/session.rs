//! Decisions of a TCP peering session: connection back-off, the handshake
//! check, the reader's tolerance for empty reads, what a failed write
//! leads to, and the length-prefixed framing on the stream.
use vstd::prelude::*;
use crate::codec::{
    at, be16, be32, ident_bytes, lemma_at_concat, put_bytes32, put_slice, put_u16, put_u32, put_u8,
    take_ident, take_u16,
};
use crate::envelope::InMemoryEnvelope;
use crate::error::{EncodingError, SessionError};
use crate::header::{fields, CarrierFrameHeader, CarrierFrameHeaderV1};
use crate::types::{Address, Ident32};

verus! {

/// Failed connection attempts after which a `Cross` peer gives up.
pub const SESSION_TIMEOUT: u16 = 6;
/// Seconds to wait after the first failed attempt.
pub const INITIAL_HOLDOFF: u64 = 2;
/// The longest wait between attempts, in seconds.
pub const MAX_HOLDOFF: u64 = 4096;
/// Empty reads in a row that the reader tolerates.
pub const MAX_NO_DATA: u16 = 128;

/// How a peering connection behaves when it fails.
#[derive(Clone, Copy, Debug, PartialEq, Eq, Structural)]
pub enum PeerType {
    /// The connecting side reconnects; the accepting side drops the peer.
    Standard,
    /// Either side may reconnect; gives up after a fixed number of attempts.
    Cross,
    /// Reserved.
    Limited(u16),
}

/// Progress of the attempts to reach a peer.
#[derive(Clone, Copy, Debug, PartialEq, Eq, Structural)]
pub struct ConnectState {
    pub attempts: u16,
    /// Seconds to wait after the next failure.
    pub holdoff: u64,
}

/// What to do after a failed connection attempt.
#[derive(Clone, Copy, Debug, PartialEq, Eq, Structural)]
pub enum ConnectStep {
    /// Wait this many seconds, then try again.
    Retry(u64),
    /// Stop trying.
    GiveUp(SessionError),
}

/// The holdoff after `h`: doubled, at most the largest.
pub open spec fn next_holdoff(h: u64) -> u64 {
    if h >= MAX_HOLDOFF / 2 {
        MAX_HOLDOFF
    } else {
        (2 * h) as u64
    }
}

/// The state before the first attempt; the reserved peer type is refused.
pub fn connect_start(tt: PeerType) -> (r: Result<ConnectState, SessionError>)
    ensures
        match r {
            Ok(s) => !(tt is Limited) && s == (ConnectState { attempts: 0, holdoff: INITIAL_HOLDOFF }),
            Err(e) => tt is Limited && e == SessionError::Unsupported,
        },
{
    match tt {
        PeerType::Limited(_) => Err(SessionError::Unsupported),
        _ => Ok(ConnectState { attempts: 0, holdoff: INITIAL_HOLDOFF }),
    }
}

/// Count a failed attempt. A `Cross` peer gives up, refused, after
/// `SESSION_TIMEOUT` attempts; otherwise wait the current holdoff, and the
/// next one is twice as long, up to `MAX_HOLDOFF`.
pub fn on_connect_failure(tt: PeerType, state: &mut ConnectState) -> (r: ConnectStep)
    ensures
        tt is Limited ==> r == ConnectStep::GiveUp(SessionError::Unsupported) && *final(state) == *old(state),
        !(tt is Limited) ==> {
            let n = if old(state).attempts == u16::MAX { u16::MAX } else { (old(state).attempts + 1) as u16 };
            &&& final(state).attempts == n
            &&& if tt is Cross && n >= SESSION_TIMEOUT {
                r == ConnectStep::GiveUp(SessionError::Refused(n)) && final(state).holdoff == old(state).holdoff
            } else {
                r == ConnectStep::Retry(old(state).holdoff) && final(state).holdoff == next_holdoff(old(state).holdoff)
            }
        },
{
    if let PeerType::Limited(_) = tt {
        return ConnectStep::GiveUp(SessionError::Unsupported);
    }
    state.attempts = if state.attempts == u16::MAX { u16::MAX } else { state.attempts + 1 };
    if tt == PeerType::Cross && state.attempts >= SESSION_TIMEOUT {
        return ConnectStep::GiveUp(SessionError::Refused(state.attempts));
    }
    let wait = state.holdoff;
    state.holdoff = if wait >= MAX_HOLDOFF / 2 { MAX_HOLDOFF } else { 2 * wait };
    ConnectStep::Retry(wait)
}

/// A peering handshake message.
#[derive(Clone, Copy, Debug)]
pub enum Handshake {
    /// Sent by the connecting side.
    Hello { tt: PeerType, self_port: u16, r_key_id: Ident32 },
    /// The accepting side's reply.
    Ack { tt: PeerType, r_key_id: Ident32 },
}

/// Check the reply to our `Hello`: an `Ack` of the same peer type gives
/// the peer's router key; another type is a handshake failure; anything
/// else drops the connection so that it is tried again.
pub fn check_ack(own: PeerType, reply: Handshake) -> (r: Result<Ident32, SessionError>)
    ensures
        match reply {
            Handshake::Ack { tt, r_key_id } => if tt == own {
                r == Ok::<Ident32, SessionError>(r_key_id)
            } else {
                r == Err::<Ident32, SessionError>(SessionError::Handshake)
            },
            Handshake::Hello { .. } => r == Err::<Ident32, SessionError>(SessionError::Dropped),
        },
{
    match reply {
        Handshake::Ack { tt, r_key_id } => {
            if tt == own {
                Ok(r_key_id)
            } else {
                Err(SessionError::Handshake)
            }
        },
        Handshake::Hello { .. } => Err(SessionError::Dropped),
    }
}

/// The outcome of one read from a peer's socket.
#[derive(Clone, Copy, Debug, PartialEq, Eq, Structural)]
pub enum ReadOutcome {
    /// A whole frame of this many bytes.
    Frame(usize),
    /// Nothing to read yet.
    NoData,
    /// The socket failed.
    IoError,
}

/// What the reader does next.
#[derive(Clone, Copy, Debug, PartialEq, Eq, Structural)]
pub enum ReaderStep {
    /// Count the bytes, hand the frame to the switch, read again.
    Deliver(usize),
    /// Yield, then read again.
    Retry,
    /// Stop reading; ask for a restart when `.0` is true.
    Stop(bool),
}

/// The reader's decision after a read, given the empty reads in a row so
/// far and whether this side restarts the session. Up to `MAX_NO_DATA`
/// empty reads in a row are retried; a frame resets the count.
pub fn on_read(no_data: &mut u16, outcome: ReadOutcome, restarts: bool) -> (r: ReaderStep)
    requires
        *old(no_data) <= MAX_NO_DATA,
    ensures
        *final(no_data) <= MAX_NO_DATA,
        match outcome {
            ReadOutcome::Frame(n) => r == ReaderStep::Deliver(n) && *final(no_data) == 0,
            ReadOutcome::NoData => if *old(no_data) < MAX_NO_DATA {
                r == ReaderStep::Retry && *final(no_data) == *old(no_data) + 1
            } else {
                r == ReaderStep::Stop(false) && *final(no_data) == *old(no_data)
            },
            ReadOutcome::IoError => r == ReaderStep::Stop(restarts) && *final(no_data) == *old(no_data),
        },
{
    match outcome {
        ReadOutcome::Frame(n) => {
            *no_data = 0;
            ReaderStep::Deliver(n)
        },
        ReadOutcome::NoData => {
            if *no_data < MAX_NO_DATA {
                *no_data = *no_data + 1;
                ReaderStep::Retry
            } else {
                ReaderStep::Stop(false)
            }
        },
        ReadOutcome::IoError => ReaderStep::Stop(restarts),
    }
}

/// After a failed write: a side that restarts the session asks for it;
/// otherwise the peer is reported dropped.
pub fn on_write_error(restarts: bool) -> (r: Result<usize, SessionError>)
    ensures
        restarts ==> r == Ok::<usize, SessionError>(0),
        !restarts ==> r == Err::<usize, SessionError>(SessionError::Dropped),
{
    if restarts {
        Ok(0)
    } else {
        Err(SessionError::Dropped)
    }
}

/// A frame as it goes on a peering stream: its length as a big-endian
/// `u32`, then its bytes.
pub fn encode_peer_frame(env: &InMemoryEnvelope) -> (r: Vec<u8>)
    requires
        env.buffer@.len() <= u32::MAX,
    ensures
        r@ == be32(env.buffer@.len() as u32) + env.buffer@,
{
    let mut out: Vec<u8> = Vec::new();
    put_u32(&mut out, env.buffer.len() as u32);
    put_slice(&mut out, env.buffer.as_slice());
    out
}

/// Frame type of a peering handshake.
pub const PEERING_HANDSHAKE: u16 = 0x100;

/// What a peering session is set up with.
#[derive(Clone, Copy, Debug)]
pub struct SessionData {
    /// The neighbour number of the session.
    pub id: u16,
    /// This router's key.
    pub self_router_key_id: Ident32,
    /// The peer's router key, once known.
    pub peer_router_key_id: Ident32,
    pub tt: PeerType,
    /// The port this router listens on.
    pub self_port: u16,
}

/// The `Hello` the connecting side opens a session with: its peer type,
/// its listening port and its router key.
pub fn hello_for(data: &SessionData) -> (r: Handshake)
    ensures
        r == (Handshake::Hello { tt: data.tt, self_port: data.self_port, r_key_id: data.self_router_key_id }),
{
    Handshake::Hello { tt: data.tt, self_port: data.self_port, r_key_id: data.self_router_key_id }
}

/// The `Ack` the accepting side replies with: its peer type and its router
/// key.
pub fn ack_for(tt: PeerType, self_router_key_id: Ident32) -> (r: Handshake)
    ensures
        r == (Handshake::Ack { tt, r_key_id: self_router_key_id }),
{
    Handshake::Ack { tt, r_key_id: self_router_key_id }
}

/// Bytes of a peer type: a tag (`0` standard, `1` cross, `2` limited), then
/// the limit as a big-endian `u16`, zero for the first two.
pub open spec fn peer_type_bytes(tt: PeerType) -> Seq<u8> {
    match tt {
        PeerType::Standard => seq![0u8] + be16(0),
        PeerType::Cross => seq![1u8] + be16(0),
        PeerType::Limited(n) => seq![2u8] + be16(n),
    }
}

/// Bytes of a handshake: `1`, the peer type, the port and the router key
/// for a `Hello`; `2`, the peer type and the router key for an `Ack`.
pub open spec fn peer_handshake_bytes(h: Handshake) -> Seq<u8> {
    match h {
        Handshake::Hello { tt, self_port, r_key_id } => seq![1u8] + peer_type_bytes(tt) + be16(
            self_port,
        ) + ident_bytes(r_key_id),
        Handshake::Ack { tt, r_key_id } => seq![2u8] + peer_type_bytes(tt) + ident_bytes(r_key_id),
    }
}

fn put_peer_type(buf: &mut Vec<u8>, tt: PeerType)
    ensures
        final(buf)@ == old(buf)@ + peer_type_bytes(tt),
{
    match tt {
        PeerType::Standard => {
            put_u8(buf, 0);
            put_u16(buf, 0);
        },
        PeerType::Cross => {
            put_u8(buf, 1);
            put_u16(buf, 0);
        },
        PeerType::Limited(n) => {
            put_u8(buf, 2);
            put_u16(buf, n);
        },
    }
    assert(final(buf)@ =~= old(buf)@ + peer_type_bytes(tt));
}

/// Read a peer type at `pos`.
fn take_peer_type(buf: &[u8], pos: usize) -> (r: Option<PeerType>)
    ensures
        r matches Some(t) ==> at(buf@, pos as int, peer_type_bytes(t)),
        forall|t: PeerType| #[trigger] at(buf@, pos as int, peer_type_bytes(t)) ==> r == Some(t),
{
    proof {
        assert forall|t: PeerType| #[trigger] at(buf@, pos as int, peer_type_bytes(t)) implies buf@[pos as int]
            == peer_type_bytes(t)[0] && at(buf@, pos + 1, be16(match t {
                PeerType::Limited(n) => n,
                _ => 0u16,
            })) by {
            let n = match t {
                PeerType::Limited(n) => n,
                _ => 0u16,
            };
            let tag: u8 = match t {
                PeerType::Standard => 0,
                PeerType::Cross => 1,
                PeerType::Limited(_) => 2,
            };
            assert(peer_type_bytes(t) == seq![tag] + be16(n));
            lemma_at_concat(buf@, pos as int, seq![tag], be16(n));
            assert(buf@.subrange(pos as int, pos + 1)[0] == buf@[pos as int]);
        }
    }
    if pos >= buf.len() {
        return None;
    }
    let tag = buf[pos];
    let n = match take_u16(buf, pos + 1) {
        Some(n) => n,
        None => return None,
    };
    let t = if tag == 0 && n == 0 {
        PeerType::Standard
    } else if tag == 1 && n == 0 {
        PeerType::Cross
    } else if tag == 2 {
        PeerType::Limited(n)
    } else {
        return None;
    };
    proof {
        assert(buf@.subrange(pos as int, pos + 1) =~= seq![tag]);
        lemma_at_concat(buf@, pos as int, seq![tag], be16(n));
        assert(peer_type_bytes(t) == seq![tag] + be16(n));
    }
    Some(t)
}

impl Handshake {
    /// Append the handshake's bytes.
    pub fn generate(&self, buf: &mut Vec<u8>)
        ensures
            final(buf)@ == old(buf)@ + peer_handshake_bytes(*self),
    {
        match self {
            Handshake::Hello { tt, self_port, r_key_id } => {
                put_u8(buf, 1);
                put_peer_type(buf, *tt);
                put_u16(buf, *self_port);
                put_bytes32(buf, &r_key_id.0);
            },
            Handshake::Ack { tt, r_key_id } => {
                put_u8(buf, 2);
                put_peer_type(buf, *tt);
                put_bytes32(buf, &r_key_id.0);
            },
        }
        assert(final(buf)@ =~= old(buf)@ + peer_handshake_bytes(*self));
    }

    /// Read a handshake that takes all of `buf`.
    pub fn parse(buf: &[u8]) -> (r: Option<Handshake>)
        ensures
            r matches Some(h) ==> buf@ == peer_handshake_bytes(h),
            forall|h: Handshake| buf@ == #[trigger] peer_handshake_bytes(h) ==> r == Some(h),
    {
        proof {
            assert forall|h: Handshake| buf@ == #[trigger] peer_handshake_bytes(h) implies (match h {
                Handshake::Hello { tt, self_port, r_key_id } => buf@.len() == 38 && buf@[0] == 1
                    && at(buf@, 1, peer_type_bytes(tt)) && at(buf@, 4, be16(self_port)) && at(buf@, 6, ident_bytes(r_key_id)),
                Handshake::Ack { tt, r_key_id } => buf@.len() == 36 && buf@[0] == 2
                    && at(buf@, 1, peer_type_bytes(tt)) && at(buf@, 4, ident_bytes(r_key_id)),
            }) by {
                assert(buf@.subrange(0, buf@.len() as int) =~= buf@);
                match h {
                    Handshake::Hello { tt, self_port, r_key_id } => {
                        let a = seq![1u8];
                        let b = peer_type_bytes(tt);
                        let c = be16(self_port);
                        let d = ident_bytes(r_key_id);
                        lemma_at_concat(buf@, 0, a + b + c, d);
                        lemma_at_concat(buf@, 0, a + b, c);
                        lemma_at_concat(buf@, 0, a, b);
                    },
                    Handshake::Ack { tt, r_key_id } => {
                        let a = seq![2u8];
                        let b = peer_type_bytes(tt);
                        let d = ident_bytes(r_key_id);
                        lemma_at_concat(buf@, 0, a + b, d);
                        lemma_at_concat(buf@, 0, a, b);
                    },
                }
            }
        }
        if buf.len() == 0 {
            return None;
        }
        let tag = buf[0];
        let tt = match take_peer_type(buf, 1) {
            Some(t) => t,
            None => return None,
        };
        if tag == 1 && buf.len() == 38 {
            let self_port = match take_u16(buf, 4) {
                Some(p) => p,
                None => return None,
            };
            let r_key_id = match take_ident(buf, 6) {
                Some(k) => k,
                None => return None,
            };
            let h = Handshake::Hello { tt, self_port, r_key_id };
            proof {
                assert(buf@.subrange(0, 1) =~= seq![1u8]);
                let a = seq![1u8];
                let b = peer_type_bytes(tt);
                let c = be16(self_port);
                let d = ident_bytes(r_key_id);
                lemma_at_concat(buf@, 0, a, b);
                lemma_at_concat(buf@, 0, a + b, c);
                lemma_at_concat(buf@, 0, a + b + c, d);
                assert(buf@ =~= buf@.subrange(0, 38));
            }
            Some(h)
        } else if tag == 2 && buf.len() == 36 {
            let r_key_id = match take_ident(buf, 4) {
                Some(k) => k,
                None => return None,
            };
            let h = Handshake::Ack { tt, r_key_id };
            proof {
                assert(buf@.subrange(0, 1) =~= seq![2u8]);
                let a = seq![2u8];
                let b = peer_type_bytes(tt);
                let d = ident_bytes(r_key_id);
                lemma_at_concat(buf@, 0, a, b);
                lemma_at_concat(buf@, 0, a + b, d);
                assert(buf@ =~= buf@.subrange(0, 36));
            }
            Some(h)
        } else {
            None
        }
    }

    /// The handshake framed as a peering-protocol carrier frame from the
    /// router with key `router`.
    pub fn to_carrier(&self, router: Address) -> (r: InMemoryEnvelope)
        ensures
            r.wf(),
            fields(r.header) == (CarrierFrameHeaderV1 {
                modes: PEERING_HANDSHAKE,
                sender: router,
                recipient: None,
                seq_id: None,
                auxiliary_data: None,
                signature_data: None,
                payload_length: peer_handshake_bytes(*self).len() as u16,
            }),
            r.payload() == peer_handshake_bytes(*self),
    {
        let mut body: Vec<u8> = Vec::new();
        self.generate(&mut body);
        assert(body@.len() <= 38);
        let header = CarrierFrameHeader::new_netmodproto_frame(PEERING_HANDSHAKE, router, body.len() as u16);
        match InMemoryEnvelope::from_header_and_payload(header, body) {
            Ok(e) => {
                assert(e.payload() =~= peer_handshake_bytes(*self));
                e
            },
            Err(_) => vstd::pervasive::unreached(),
        }
    }

    /// Read the handshake a carrier frame carries: a peering handshake
    /// frame whose payload is exactly one handshake.
    pub fn from_carrier(env: &InMemoryEnvelope) -> (r: Result<Handshake, EncodingError>)
        requires
            env.wf(),
        ensures
            r matches Ok(h) ==> fields(env.header).modes == PEERING_HANDSHAKE && env.payload()
                == peer_handshake_bytes(h),
            forall|h: Handshake|
                fields(env.header).modes == PEERING_HANDSHAKE && env.payload() == #[trigger] peer_handshake_bytes(h)
                    ==> r == Ok::<Handshake, EncodingError>(h),
            r matches Err(e) ==> e == EncodingError::Parsing,
    {
        if env.header.get_modes() != PEERING_HANDSHAKE {
            return Err(EncodingError::Parsing);
        }
        match Handshake::parse(env.get_payload_slice()) {
            Some(h) => Ok(h),
            None => Err(EncodingError::Parsing),
        }
    }
}

/// The driver prefix of a TCP peer entry.
pub open spec fn inet_prefix() -> Seq<u8> {
    seq![0x69u8, 0x6e, 0x65, 0x74, 0x23]
}

/// `v` is the part of a peer entry after its `inet#` prefix, up to the
/// next `#` or the end.
pub open spec fn peer_target_of(entry: Seq<u8>, v: Seq<u8>) -> bool {
    &&& entry.len() >= 5 + v.len()
    &&& entry.subrange(5, 5 + v.len() as int) == v
    &&& forall|i: int| 0 <= i < v.len() ==> v[i] != 0x23
    &&& (entry.len() == 5 + v.len() || entry[5 + v.len() as int] == 0x23)
}

/// The peer address of a configured peer entry `inet#<address>`: given for
/// entries of the TCP driver, none for an empty entry, one without a
/// driver, or one of another driver.
pub fn peer_target(entry: &[u8]) -> (r: Option<Vec<u8>>)
    ensures
        r is Some <==> entry@.len() >= 5 && entry@.subrange(0, 5) == inet_prefix(),
        r matches Some(v) ==> peer_target_of(entry@, v@),
{
    if entry.len() < 5 || entry[0] != 0x69 || entry[1] != 0x6e || entry[2] != 0x65 || entry[3] != 0x74
        || entry[4] != 0x23 {
        proof {
            if entry@.len() >= 5 && entry@.subrange(0, 5) == inet_prefix() {
                assert(entry@.subrange(0, 5)[0] == entry@[0]);
                assert(entry@.subrange(0, 5)[1] == entry@[1]);
                assert(entry@.subrange(0, 5)[2] == entry@[2]);
                assert(entry@.subrange(0, 5)[3] == entry@[3]);
                assert(entry@.subrange(0, 5)[4] == entry@[4]);
            }
        }
        return None;
    }
    assert(entry@.subrange(0, 5) =~= inet_prefix());
    let mut out: Vec<u8> = Vec::new();
    let mut i: usize = 5;
    while i < entry.len() && entry[i] != 0x23
        invariant
            5 <= i <= entry@.len(),
            out@ == entry@.subrange(5, i as int),
            forall|k: int| 0 <= k < out@.len() ==> out@[k] != 0x23,
        decreases entry@.len() - i,
    {
        out.push(entry[i]);
        assert(out@ =~= entry@.subrange(5, i + 1));
        i = i + 1;
    }
    Some(out)
}

} // verus!
