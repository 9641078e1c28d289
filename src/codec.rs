//! Byte-level building blocks of the wire formats: big-endian integers,
//! tagged optional fields, and the "these bytes stand at this position"
//! relation that the parsers are specified with.
use vstd::prelude::*;
use crate::types::{Address, ClientAuth, Ident32, Recipient, SequenceIdV1};

verus! {

/// `t` stands in `s` starting at position `p`.
pub open spec fn at(s: Seq<u8>, p: int, t: Seq<u8>) -> bool {
    0 <= p && p + t.len() <= s.len() && s.subrange(p, p + t.len()) == t
}

/// Bytes in a row: `a` then `b` stand at `p` exactly when `a` stands at `p`
/// and `b` right after it.
pub proof fn lemma_at_concat(s: Seq<u8>, p: int, a: Seq<u8>, b: Seq<u8>)
    ensures
        at(s, p, a + b) <==> (at(s, p, a) && at(s, p + a.len(), b)),
{
    if at(s, p, a + b) {
        assert(s.subrange(p, p + a.len()) =~= (a + b).subrange(0, a.len() as int));
        assert((a + b).subrange(0, a.len() as int) =~= a);
        assert(s.subrange(p + a.len(), p + a.len() + b.len()) =~= (a + b).subrange(
            a.len() as int,
            (a.len() + b.len()) as int,
        ));
        assert((a + b).subrange(a.len() as int, (a.len() + b.len()) as int) =~= b);
    }
    if at(s, p, a) && at(s, p + a.len(), b) {
        assert forall|i: int| 0 <= i < a.len() + b.len() implies #[trigger] s.subrange(
            p,
            p + (a + b).len(),
        )[i] == (a + b)[i] by {
            if i < a.len() {
                assert(s.subrange(p, p + a.len())[i] == a[i]);
            } else {
                assert(s.subrange(p + a.len(), p + a.len() + b.len())[i - a.len()] == b[i
                    - a.len()]);
            }
        }
        assert(s.subrange(p, p + (a + b).len()) =~= a + b);
    }
}

/// A byte at a position.
pub proof fn lemma_at_byte(s: Seq<u8>, p: int, t: Seq<u8>, i: int)
    requires
        at(s, p, t),
        0 <= i < t.len(),
    ensures
        s[p + i] == t[i],
{
    assert(s.subrange(p, p + t.len())[i] == t[i]);
}

/// Two bytes, most significant first.
pub open spec fn be16(x: u16) -> Seq<u8> {
    seq![(x / 256) as u8, (x % 256) as u8]
}

/// Four bytes, most significant first.
pub open spec fn be32(x: u32) -> Seq<u8> {
    seq![
        (x / 0x100_0000) as u8,
        ((x / 0x1_0000) % 256) as u8,
        ((x / 256) % 256) as u8,
        (x % 256) as u8,
    ]
}

/// Bytes of an address.
pub open spec fn address_bytes(a: Address) -> Seq<u8> {
    a.0@
}

/// Bytes of an identifier.
pub open spec fn ident_bytes(i: Ident32) -> Seq<u8> {
    i.0@
}

/// An optional 64-byte block: `0`, or `1` and the block.
pub open spec fn block64_bytes(o: Option<[u8; 64]>) -> Seq<u8> {
    match o {
        None => seq![0u8],
        Some(b) => seq![1u8] + b@,
    }
}

/// An optional recipient: `0`, or a tag (`1` target, `2` namespace,
/// `3` broadcast) followed by the address where there is one.
pub open spec fn recipient_bytes(o: Option<Recipient>) -> Seq<u8> {
    match o {
        None => seq![0u8],
        Some(Recipient::Target(a)) => seq![1u8] + address_bytes(a),
        Some(Recipient::Namespace(a)) => seq![2u8] + address_bytes(a),
        Some(Recipient::Broadcast) => seq![3u8],
    }
}

/// An optional sequence ID: `0`, or `1`, the hash, the number and the
/// number of the last frame.
pub open spec fn seq_id_bytes(o: Option<SequenceIdV1>) -> Seq<u8> {
    match o {
        None => seq![0u8],
        Some(q) => seq![1u8] + ident_bytes(q.hash) + be32(q.num) + be32(q.max),
    }
}

/// Optional client credentials: `0`, or `1`, the client ID and the token.
pub open spec fn auth_bytes(o: Option<ClientAuth>) -> Seq<u8> {
    match o {
        None => seq![0u8],
        Some(a) => seq![1u8] + ident_bytes(a.client_id) + ident_bytes(a.token),
    }
}

/// Append one byte.
pub fn put_u8(out: &mut Vec<u8>, x: u8)
    ensures
        final(out)@ == old(out)@ + seq![x],
{
    out.push(x);
    assert(final(out)@ =~= old(out)@ + seq![x]);
}

/// Append a big-endian `u16`.
pub fn put_u16(out: &mut Vec<u8>, x: u16)
    ensures
        final(out)@ == old(out)@ + be16(x),
{
    out.push((x / 256) as u8);
    out.push((x % 256) as u8);
    assert(final(out)@ =~= old(out)@ + be16(x));
}

/// Append a big-endian `u32`.
pub fn put_u32(out: &mut Vec<u8>, x: u32)
    ensures
        final(out)@ == old(out)@ + be32(x),
{
    out.push((x / 0x100_0000) as u8);
    out.push(((x / 0x1_0000) % 256) as u8);
    out.push(((x / 256) % 256) as u8);
    out.push((x % 256) as u8);
    assert(final(out)@ =~= old(out)@ + be32(x));
}

/// Append a 32-byte array.
pub fn put_bytes32(out: &mut Vec<u8>, b: &[u8; 32])
    ensures
        final(out)@ == old(out)@ + b@,
{
    let ghost start = out@;
    let mut i: usize = 0;
    while i < 32
        invariant
            0 <= i <= 32,
            out@ == start + b@.subrange(0, i as int),
        decreases 32 - i,
    {
        out.push(b[i]);
        assert(b@.subrange(0, i + 1) =~= b@.subrange(0, i as int) + seq![b@[i as int]]);
        assert(out@ =~= start + b@.subrange(0, i + 1));
        i = i + 1;
    }
    assert(b@.subrange(0, 32) =~= b@);
}

/// Append a 64-byte array.
pub fn put_bytes64(out: &mut Vec<u8>, b: &[u8; 64])
    ensures
        final(out)@ == old(out)@ + b@,
{
    let ghost start = out@;
    let mut i: usize = 0;
    while i < 64
        invariant
            0 <= i <= 64,
            out@ == start + b@.subrange(0, i as int),
        decreases 64 - i,
    {
        out.push(b[i]);
        assert(b@.subrange(0, i + 1) =~= b@.subrange(0, i as int) + seq![b@[i as int]]);
        assert(out@ =~= start + b@.subrange(0, i + 1));
        i = i + 1;
    }
    assert(b@.subrange(0, 64) =~= b@);
}

/// Read a big-endian `u16` at `pos`.
pub fn take_u16(buf: &[u8], pos: usize) -> (r: Option<u16>)
    ensures
        r is Some <==> pos + 2 <= buf@.len(),
        r matches Some(v) ==> at(buf@, pos as int, be16(v)),
        forall|v: u16| #[trigger] at(buf@, pos as int, be16(v)) ==> r == Some(v),
{
    if buf.len() < 2 || pos > buf.len() - 2 {
        return None;
    }
    let b0 = buf[pos];
    let b1 = buf[pos + 1];
    let v: u16 = (b0 as u16) * 256 + (b1 as u16);
    assert(v / 256 == b0 && v % 256 == b1);
    assert(buf@.subrange(pos as int, pos + 2) =~= be16(v));
    assert forall|w: u16| #[trigger] at(buf@, pos as int, be16(w)) implies w == v by {
        lemma_at_byte(buf@, pos as int, be16(w), 0);
        lemma_at_byte(buf@, pos as int, be16(w), 1);
        assert(w == (w / 256) * 256 + w % 256);
    }
    Some(v)
}

/// The value of four big-endian bytes, and their recovery from it.
proof fn lemma_be32_bytes(b0: u8, b1: u8, b2: u8, b3: u8, v: u32)
    requires
        v == (b0 as u32) * 0x100_0000 + (b1 as u32) * 0x1_0000 + (b2 as u32) * 256 + (b3 as u32),
    ensures
        be32(v) == seq![b0, b1, b2, b3],
{
    assert(v / 0x100_0000 == b0 as u32 && (v / 0x1_0000) % 256 == b1 as u32 && (v / 256) % 256
        == b2 as u32 && v % 256 == b3 as u32) by (bit_vector)
        requires
            v == (b0 as u32) * 0x100_0000 + (b1 as u32) * 0x1_0000 + (b2 as u32) * 256 + (b3 as u32),
    ;
    assert(be32(v) =~= seq![b0, b1, b2, b3]);
}

/// A `u32` is the value of its four big-endian bytes.
proof fn lemma_be32_recompose(w: u32)
    ensures
        w == (be32(w)[0] as u32) * 0x100_0000 + (be32(w)[1] as u32) * 0x1_0000 + (be32(w)[2] as u32)
            * 256 + (be32(w)[3] as u32),
{
    assert(w == ((w / 0x100_0000) as u8 as u32) * 0x100_0000 + (((w / 0x1_0000) % 256) as u8 as u32)
        * 0x1_0000 + (((w / 256) % 256) as u8 as u32) * 256 + ((w % 256) as u8 as u32)) by (bit_vector);
}

/// The big-endian value of the four bytes at `p`.
pub open spec fn be32_value(s: Seq<u8>, p: int) -> int {
    s[p] * 0x100_0000 + s[p + 1] * 0x1_0000 + s[p + 2] * 256 + s[p + 3]
}

/// Read a big-endian `u32` at `pos`.
pub fn take_u32(buf: &[u8], pos: usize) -> (r: Option<u32>)
    ensures
        r is Some <==> pos + 4 <= buf@.len(),
        r matches Some(v) ==> v == be32_value(buf@, pos as int),
        r matches Some(v) ==> at(buf@, pos as int, be32(v)),
        forall|v: u32| #[trigger] at(buf@, pos as int, be32(v)) ==> r == Some(v),
{
    if buf.len() < 4 || pos > buf.len() - 4 {
        return None;
    }
    let b0 = buf[pos];
    let b1 = buf[pos + 1];
    let b2 = buf[pos + 2];
    let b3 = buf[pos + 3];
    let v: u32 = (b0 as u32) * 0x100_0000 + (b1 as u32) * 0x1_0000 + (b2 as u32) * 256 + (b3 as u32);
    proof {
        lemma_be32_bytes(b0, b1, b2, b3, v);
        assert(buf@.subrange(pos as int, pos + 4) =~= be32(v));
        assert forall|w: u32| #[trigger] at(buf@, pos as int, be32(w)) implies w == v by {
            lemma_at_byte(buf@, pos as int, be32(w), 0);
            lemma_at_byte(buf@, pos as int, be32(w), 1);
            lemma_at_byte(buf@, pos as int, be32(w), 2);
            lemma_at_byte(buf@, pos as int, be32(w), 3);
            lemma_be32_recompose(w);
        }
    }
    Some(v)
}

/// Read 32 bytes at `pos`.
pub fn take_bytes32(buf: &[u8], pos: usize) -> (r: Option<[u8; 32]>)
    ensures
        r is Some <==> pos + 32 <= buf@.len(),
        r matches Some(v) ==> at(buf@, pos as int, v@),
        forall|v: [u8; 32]| #[trigger] at(buf@, pos as int, v@) ==> r == Some(v),
{
    if buf.len() < 32 || pos > buf.len() - 32 {
        return None;
    }
    let mut a = [0u8; 32];
    let mut i: usize = 0;
    while i < 32
        invariant
            0 <= i <= 32,
            pos + 32 <= buf.len(),
            forall|j: int| 0 <= j < i ==> a@[j] == buf@[pos + j],
        decreases 32 - i,
    {
        a[i] = buf[pos + i];
        i = i + 1;
    }
    assert(buf@.subrange(pos as int, pos + 32) =~= a@);
    assert forall|v: [u8; 32]| #[trigger] at(buf@, pos as int, v@) implies v == a by {
        assert forall|j: int| 0 <= j < 32 implies v[j] == a[j] by {
            lemma_at_byte(buf@, pos as int, v@, j);
        }
        assert(v =~= a);
    }
    Some(a)
}

/// Read 64 bytes at `pos`.
pub fn take_bytes64(buf: &[u8], pos: usize) -> (r: Option<[u8; 64]>)
    ensures
        r is Some <==> pos + 64 <= buf@.len(),
        r matches Some(v) ==> at(buf@, pos as int, v@),
        forall|v: [u8; 64]| #[trigger] at(buf@, pos as int, v@) ==> r == Some(v),
{
    if buf.len() < 64 || pos > buf.len() - 64 {
        return None;
    }
    let mut a = [0u8; 64];
    let mut i: usize = 0;
    while i < 64
        invariant
            0 <= i <= 64,
            pos + 64 <= buf.len(),
            forall|j: int| 0 <= j < i ==> a@[j] == buf@[pos + j],
        decreases 64 - i,
    {
        a[i] = buf[pos + i];
        i = i + 1;
    }
    assert(buf@.subrange(pos as int, pos + 64) =~= a@);
    assert forall|v: [u8; 64]| #[trigger] at(buf@, pos as int, v@) implies v == a by {
        assert forall|j: int| 0 <= j < 64 implies v[j] == a[j] by {
            lemma_at_byte(buf@, pos as int, v@, j);
        }
        assert(v =~= a);
    }
    Some(a)
}

/// Read an address at `pos`.
pub fn take_address(buf: &[u8], pos: usize) -> (r: Option<Address>)
    ensures
        r is Some <==> pos + 32 <= buf@.len(),
        r matches Some(v) ==> at(buf@, pos as int, address_bytes(v)),
        forall|v: Address| #[trigger] at(buf@, pos as int, address_bytes(v)) ==> r == Some(v),
{
    match take_bytes32(buf, pos) {
        Some(b) => Some(Address(b)),
        None => None,
    }
}

/// Read an identifier at `pos`.
pub fn take_ident(buf: &[u8], pos: usize) -> (r: Option<Ident32>)
    ensures
        r is Some <==> pos + 32 <= buf@.len(),
        r matches Some(v) ==> at(buf@, pos as int, ident_bytes(v)),
        forall|v: Ident32| #[trigger] at(buf@, pos as int, ident_bytes(v)) ==> r == Some(v),
{
    match take_bytes32(buf, pos) {
        Some(b) => Some(Ident32(b)),
        None => None,
    }
}

/// Read an optional 64-byte block at `pos`; also gives the position after it.
pub fn take_block64(buf: &[u8], pos: usize) -> (r: Option<(Option<[u8; 64]>, usize)>)
    ensures
        r matches Some((v, n)) ==> at(buf@, pos as int, block64_bytes(v)) && n == pos
            + block64_bytes(v).len(),
        forall|v: Option<[u8; 64]>| #[trigger]
            at(buf@, pos as int, block64_bytes(v)) ==> r == Some((v, (pos + block64_bytes(v).len()) as usize)),
{
    proof {
        assert forall|v: Option<[u8; 64]>| #[trigger] at(buf@, pos as int, block64_bytes(v)) implies
            buf@[pos as int] == block64_bytes(v)[0] by {
            lemma_at_byte(buf@, pos as int, block64_bytes(v), 0);
        }
        assert forall|b: [u8; 64]| #[trigger] at(buf@, pos as int, block64_bytes(Some(b))) implies
            at(buf@, pos + 1, b@) by {
            lemma_at_concat(buf@, pos as int, seq![1u8], b@);
        }
    }
    if pos >= buf.len() {
        return None;
    }
    let tag = buf[pos];
    if tag == 0 {
        assert(buf@.subrange(pos as int, pos + 1) =~= seq![0u8]);
        Some((None, pos + 1))
    } else if tag == 1 {
        match take_bytes64(buf, pos + 1) {
            Some(b) => {
                proof {
                    assert(buf@.subrange(pos as int, pos + 1) =~= seq![1u8]);
                    lemma_at_concat(buf@, pos as int, seq![1u8], b@);
                }
                Some((Some(b), pos + 65))
            },
            None => None,
        }
    } else {
        None
    }
}

/// Read an optional recipient at `pos`; also gives the position after it.
pub fn take_recipient(buf: &[u8], pos: usize) -> (r: Option<(Option<Recipient>, usize)>)
    ensures
        r matches Some((v, n)) ==> at(buf@, pos as int, recipient_bytes(v)) && n == pos
            + recipient_bytes(v).len(),
        forall|v: Option<Recipient>| #[trigger]
            at(buf@, pos as int, recipient_bytes(v)) ==> r == Some((v, (pos + recipient_bytes(v).len()) as usize)),
{
    proof {
        assert forall|v: Option<Recipient>| #[trigger] at(buf@, pos as int, recipient_bytes(v)) implies
            buf@[pos as int] == recipient_bytes(v)[0] by {
            lemma_at_byte(buf@, pos as int, recipient_bytes(v), 0);
        }
        assert forall|a: Address| #[trigger] at(buf@, pos as int, recipient_bytes(Some(Recipient::Target(a))))
            implies at(buf@, pos + 1, address_bytes(a)) by {
            lemma_at_concat(buf@, pos as int, seq![1u8], address_bytes(a));
        }
        assert forall|a: Address| #[trigger] at(buf@, pos as int, recipient_bytes(Some(Recipient::Namespace(a))))
            implies at(buf@, pos + 1, address_bytes(a)) by {
            lemma_at_concat(buf@, pos as int, seq![2u8], address_bytes(a));
        }
    }
    if pos >= buf.len() {
        return None;
    }
    let tag = buf[pos];
    assert(tag == 0 || tag == 3 ==> buf@.subrange(pos as int, pos + 1) =~= seq![tag]);
    if tag == 0 {
        Some((None, pos + 1))
    } else if tag == 3 {
        Some((Some(Recipient::Broadcast), pos + 1))
    } else if tag == 1 || tag == 2 {
        match take_address(buf, pos + 1) {
            Some(a) => {
                let v = if tag == 1 { Recipient::Target(a) } else { Recipient::Namespace(a) };
                proof {
                    assert(buf@.subrange(pos as int, pos + 1) =~= seq![tag]);
                    lemma_at_concat(buf@, pos as int, seq![tag], address_bytes(a));
                }
                Some((Some(v), pos + 33))
            },
            None => None,
        }
    } else {
        None
    }
}

/// Read an optional sequence ID at `pos`; also gives the position after it.
pub fn take_seq_id(buf: &[u8], pos: usize) -> (r: Option<(Option<SequenceIdV1>, usize)>)
    ensures
        r matches Some((v, n)) ==> at(buf@, pos as int, seq_id_bytes(v)) && n == pos
            + seq_id_bytes(v).len(),
        forall|v: Option<SequenceIdV1>| #[trigger]
            at(buf@, pos as int, seq_id_bytes(v)) ==> r == Some((v, (pos + seq_id_bytes(v).len()) as usize)),
{
    proof {
        assert forall|v: Option<SequenceIdV1>| #[trigger] at(buf@, pos as int, seq_id_bytes(v)) implies
            buf@[pos as int] == seq_id_bytes(v)[0] by {
            lemma_at_byte(buf@, pos as int, seq_id_bytes(v), 0);
        }
        assert forall|q: SequenceIdV1| #[trigger] at(buf@, pos as int, seq_id_bytes(Some(q)))
            implies at(buf@, pos + 1, ident_bytes(q.hash)) && at(buf@, pos + 33, be32(q.num))
                && at(buf@, pos + 37, be32(q.max)) by {
            let a = seq![1u8];
            let b = ident_bytes(q.hash);
            let c = be32(q.num);
            let d = be32(q.max);
            lemma_at_concat(buf@, pos as int, a + b + c, d);
            lemma_at_concat(buf@, pos as int, a + b, c);
            lemma_at_concat(buf@, pos as int, a, b);
        }
    }
    if pos >= buf.len() {
        return None;
    }
    let tag = buf[pos];
    if tag == 0 {
        assert(buf@.subrange(pos as int, pos + 1) =~= seq![0u8]);
        Some((None, pos + 1))
    } else if tag == 1 {
        let hash = match take_ident(buf, pos + 1) {
            Some(h) => h,
            None => return None,
        };
        let num = match take_u32(buf, pos + 33) {
            Some(n) => n,
            None => return None,
        };
        let max = match take_u32(buf, pos + 37) {
            Some(m) => m,
            None => return None,
        };
        let q = SequenceIdV1 { hash, num, max };
        proof {
            assert(buf@.subrange(pos as int, pos + 1) =~= seq![1u8]);
            let a = seq![1u8];
            let b = ident_bytes(q.hash);
            let c = be32(q.num);
            let d = be32(q.max);
            lemma_at_concat(buf@, pos as int, a, b);
            lemma_at_concat(buf@, pos as int, a + b, c);
            lemma_at_concat(buf@, pos as int, a + b + c, d);
        }
        Some((Some(q), pos + 41))
    } else {
        None
    }
}

/// Read optional client credentials at `pos`; also gives the position after them.
pub fn take_auth(buf: &[u8], pos: usize) -> (r: Option<(Option<ClientAuth>, usize)>)
    ensures
        r matches Some((v, n)) ==> at(buf@, pos as int, auth_bytes(v)) && n == pos
            + auth_bytes(v).len(),
        forall|v: Option<ClientAuth>| #[trigger]
            at(buf@, pos as int, auth_bytes(v)) ==> r == Some((v, (pos + auth_bytes(v).len()) as usize)),
{
    proof {
        assert forall|v: Option<ClientAuth>| #[trigger] at(buf@, pos as int, auth_bytes(v)) implies
            buf@[pos as int] == auth_bytes(v)[0] by {
            lemma_at_byte(buf@, pos as int, auth_bytes(v), 0);
        }
        assert forall|q: ClientAuth| #[trigger] at(buf@, pos as int, auth_bytes(Some(q)))
            implies at(buf@, pos + 1, ident_bytes(q.client_id)) && at(buf@, pos + 33, ident_bytes(q.token)) by {
            let a = seq![1u8];
            let b = ident_bytes(q.client_id);
            let c = ident_bytes(q.token);
            lemma_at_concat(buf@, pos as int, a + b, c);
            lemma_at_concat(buf@, pos as int, a, b);
        }
    }
    if pos >= buf.len() {
        return None;
    }
    let tag = buf[pos];
    if tag == 0 {
        assert(buf@.subrange(pos as int, pos + 1) =~= seq![0u8]);
        Some((None, pos + 1))
    } else if tag == 1 {
        let client_id = match take_ident(buf, pos + 1) {
            Some(h) => h,
            None => return None,
        };
        let token = match take_ident(buf, pos + 33) {
            Some(h) => h,
            None => return None,
        };
        let q = ClientAuth { client_id, token };
        proof {
            assert(buf@.subrange(pos as int, pos + 1) =~= seq![1u8]);
            let a = seq![1u8];
            let b = ident_bytes(q.client_id);
            let c = ident_bytes(q.token);
            lemma_at_concat(buf@, pos as int, a, b);
            lemma_at_concat(buf@, pos as int, a + b, c);
        }
        Some((Some(q), pos + 65))
    } else {
        None
    }
}

/// Append an optional 64-byte block.
pub fn put_block64(out: &mut Vec<u8>, o: &Option<[u8; 64]>)
    ensures
        final(out)@ == old(out)@ + block64_bytes(*o),
{
    match o {
        None => put_u8(out, 0),
        Some(b) => {
            put_u8(out, 1);
            put_bytes64(out, b);
            assert(final(out)@ =~= old(out)@ + block64_bytes(*o));
        },
    }
}

/// Append an optional recipient.
pub fn put_recipient(out: &mut Vec<u8>, o: &Option<Recipient>)
    ensures
        final(out)@ == old(out)@ + recipient_bytes(*o),
{
    match o {
        None => put_u8(out, 0),
        Some(Recipient::Target(a)) => {
            put_u8(out, 1);
            put_bytes32(out, &a.0);
            assert(final(out)@ =~= old(out)@ + recipient_bytes(*o));
        },
        Some(Recipient::Namespace(a)) => {
            put_u8(out, 2);
            put_bytes32(out, &a.0);
            assert(final(out)@ =~= old(out)@ + recipient_bytes(*o));
        },
        Some(Recipient::Broadcast) => put_u8(out, 3),
    }
}

/// Append an optional sequence ID.
pub fn put_seq_id(out: &mut Vec<u8>, o: &Option<SequenceIdV1>)
    ensures
        final(out)@ == old(out)@ + seq_id_bytes(*o),
{
    match o {
        None => put_u8(out, 0),
        Some(q) => {
            put_u8(out, 1);
            put_bytes32(out, &q.hash.0);
            put_u32(out, q.num);
            put_u32(out, q.max);
            assert(final(out)@ =~= old(out)@ + seq_id_bytes(*o));
        },
    }
}

/// Append optional client credentials.
pub fn put_auth(out: &mut Vec<u8>, o: &Option<ClientAuth>)
    ensures
        final(out)@ == old(out)@ + auth_bytes(*o),
{
    match o {
        None => put_u8(out, 0),
        Some(a) => {
            put_u8(out, 1);
            put_bytes32(out, &a.client_id.0);
            put_bytes32(out, &a.token.0);
            assert(final(out)@ =~= old(out)@ + auth_bytes(*o));
        },
    }
}

/// Two byte strings of one length at one position are the same.
pub proof fn lemma_at_same(s: Seq<u8>, p: int, a: Seq<u8>, b: Seq<u8>)
    requires
        at(s, p, a),
        at(s, p, b),
        a.len() == b.len(),
    ensures
        a == b,
{
}

/// Tagged fields: two encodings at one position that share their first
/// byte have the same length; equal encodings come from equal values.
pub proof fn lemma_fields_injective()
    ensures
        forall|x: u16, y: u16| be16(x) == be16(y) ==> x == y,
        forall|x: u32, y: u32| be32(x) == be32(y) ==> x == y,
        forall|x: Address, y: Address| address_bytes(x) == address_bytes(y) ==> x == y,
        forall|x: Ident32, y: Ident32| ident_bytes(x) == ident_bytes(y) ==> x == y,
        forall|x: Option<[u8; 64]>, y: Option<[u8; 64]>|
            block64_bytes(x) == block64_bytes(y) ==> x == y,
        forall|x: Option<Recipient>, y: Option<Recipient>|
            recipient_bytes(x) == recipient_bytes(y) ==> x == y,
        forall|x: Option<SequenceIdV1>, y: Option<SequenceIdV1>|
            seq_id_bytes(x) == seq_id_bytes(y) ==> x == y,
        forall|x: Option<ClientAuth>, y: Option<ClientAuth>|
            auth_bytes(x) == auth_bytes(y) ==> x == y,
        forall|x: Option<[u8; 64]>, y: Option<[u8; 64]>|
            block64_bytes(x)[0] == block64_bytes(y)[0] ==> block64_bytes(x).len() == block64_bytes(y).len(),
        forall|x: Option<Recipient>, y: Option<Recipient>|
            recipient_bytes(x)[0] == recipient_bytes(y)[0] ==> recipient_bytes(x).len() == recipient_bytes(y).len(),
        forall|x: Option<SequenceIdV1>, y: Option<SequenceIdV1>|
            seq_id_bytes(x)[0] == seq_id_bytes(y)[0] ==> seq_id_bytes(x).len() == seq_id_bytes(y).len(),
        forall|x: Option<ClientAuth>, y: Option<ClientAuth>|
            auth_bytes(x)[0] == auth_bytes(y)[0] ==> auth_bytes(x).len() == auth_bytes(y).len(),
{
    assert forall|x: u16, y: u16| be16(x) == be16(y) implies x == y by {
        assert(be16(x)[0] == be16(y)[0] && be16(x)[1] == be16(y)[1]);
        assert(x == (x / 256) * 256 + x % 256);
        assert(y == (y / 256) * 256 + y % 256);
    }
    assert forall|x: u32, y: u32| be32(x) == be32(y) implies x == y by {
        lemma_be32_injective(x, y);
    }
    assert forall|x: [u8; 32], y: [u8; 32]| x@ == y@ implies x == y by {
        assert forall|j: int| 0 <= j < 32 implies x[j] == y[j] by {
            assert(x@[j] == y@[j]);
        }
        assert(x =~= y);
    }
    assert forall|x: [u8; 64], y: [u8; 64]| x@ == y@ implies x == y by {
        assert forall|j: int| 0 <= j < 64 implies x[j] == y[j] by {
            assert(x@[j] == y@[j]);
        }
        assert(x =~= y);
    }
    assert forall|x: Option<[u8; 64]>, y: Option<[u8; 64]>| block64_bytes(x) == block64_bytes(y) implies x == y by {
        assert(block64_bytes(x)[0] == block64_bytes(y)[0]);
        if x is Some && y is Some {
            assert(x->0@ =~= block64_bytes(x).drop_first());
            assert(y->0@ =~= block64_bytes(y).drop_first());
        }
    }
    assert forall|x: Option<Recipient>, y: Option<Recipient>| recipient_bytes(x) == recipient_bytes(y) implies x == y by {
        assert(recipient_bytes(x)[0] == recipient_bytes(y)[0]);
        match (x, y) {
            (Some(Recipient::Target(a)), Some(Recipient::Target(b))) => {
                assert(a.0@ =~= recipient_bytes(x).drop_first());
                assert(b.0@ =~= recipient_bytes(y).drop_first());
            },
            (Some(Recipient::Namespace(a)), Some(Recipient::Namespace(b))) => {
                assert(a.0@ =~= recipient_bytes(x).drop_first());
                assert(b.0@ =~= recipient_bytes(y).drop_first());
            },
            _ => {},
        }
    }
    assert forall|x: Option<SequenceIdV1>, y: Option<SequenceIdV1>| seq_id_bytes(x) == seq_id_bytes(y) implies x == y by {
        assert(seq_id_bytes(x)[0] == seq_id_bytes(y)[0]);
        if x is Some && y is Some {
            let a = x->0;
            let b = y->0;
            let sa = seq_id_bytes(x);
            assert(a.hash.0@ =~= sa.subrange(1, 33));
            assert(b.hash.0@ =~= sa.subrange(1, 33));
            assert(be32(a.num) =~= sa.subrange(33, 37));
            assert(be32(b.num) =~= sa.subrange(33, 37));
            assert(be32(a.max) =~= sa.subrange(37, 41));
            assert(be32(b.max) =~= sa.subrange(37, 41));
            lemma_be32_injective(a.num, b.num);
            lemma_be32_injective(a.max, b.max);
        }
    }
    assert forall|x: Option<ClientAuth>, y: Option<ClientAuth>| auth_bytes(x) == auth_bytes(y) implies x == y by {
        assert(auth_bytes(x)[0] == auth_bytes(y)[0]);
        if x is Some && y is Some {
            let a = x->0;
            let b = y->0;
            let sa = auth_bytes(x);
            assert(a.client_id.0@ =~= sa.subrange(1, 33));
            assert(b.client_id.0@ =~= sa.subrange(1, 33));
            assert(a.token.0@ =~= sa.subrange(33, 65));
            assert(b.token.0@ =~= sa.subrange(33, 65));
        }
    }
}

proof fn lemma_be32_injective(x: u32, y: u32)
    requires
        be32(x) == be32(y),
    ensures
        x == y,
{
    lemma_be32_recompose(x);
    lemma_be32_recompose(y);
}

/// Append the bytes of a slice.
pub fn put_slice(out: &mut Vec<u8>, b: &[u8])
    ensures
        final(out)@ == old(out)@ + b@,
{
    let ghost start = out@;
    let mut i: usize = 0;
    while i < b.len()
        invariant
            0 <= i <= b@.len(),
            out@ == start + b@.subrange(0, i as int),
        decreases b@.len() - i,
    {
        out.push(b[i]);
        assert(b@.subrange(0, i + 1) =~= b@.subrange(0, i as int) + seq![b@[i as int]]);
        i = i + 1;
    }
    assert(b@.subrange(0, b@.len() as int) =~= b@);
}

} // verus!
