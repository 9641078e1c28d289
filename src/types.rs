//! Identifiers and addressing types shared by every layer of the router.
use vstd::prelude::*;

verus! {

/// Bytewise comparison of two 32-byte arrays.
pub fn bytes32_eq(a: &[u8; 32], b: &[u8; 32]) -> (r: bool)
    ensures
        r == (*a == *b),
{
    let mut i: usize = 0;
    while i < 32
        invariant
            0 <= i <= 32,
            forall|j: int| 0 <= j < i ==> a@[j] == b@[j],
        decreases 32 - i,
    {
        if a[i] != b[i] {
            assert(a@[i as int] != b@[i as int]);
            return false;
        }
        i = i + 1;
    }
    assert(*a =~= *b);
    true
}

/// A 32-byte Ed25519 public key that identifies an endpoint.
#[derive(Clone, Copy, Debug)]
pub struct Address(pub [u8; 32]);

impl PartialEq for Address {
    fn eq(&self, o: &Address) -> (r: bool) {
        bytes32_eq(&self.0, &o.0)
    }
}

impl vstd::std_specs::cmp::PartialEqSpecImpl for Address {
    open spec fn obeys_eq_spec() -> bool {
        true
    }

    open spec fn eq_spec(&self, o: &Address) -> bool {
        self.0 == o.0
    }
}

impl Eq for Address {}

impl Address {
    /// Build an address from its raw bytes.
    pub fn from_bytes(bytes: [u8; 32]) -> (r: Self)
        ensures
            r.0 == bytes,
    {
        Address(bytes)
    }

    /// Bytewise equality of two addresses.
    pub fn same(&self, other: &Address) -> (r: bool)
        ensures
            r == (*self == *other),
    {
        *self == *other
    }

    /// A fresh address drawn at random.
    pub fn random() -> (r: Self) {
        Address(random_bytes32())
    }

    /// The address as 64 lowercase hexadecimal digits.
    pub fn to_hex(&self) -> (r: String)
        ensures
            r@ == hex_lower(self.0@),
    {
        encode_hex(&self.0)
    }
}

/// An opaque 32-byte identifier: sequence IDs, frame IDs, router keys,
/// subscription IDs and client tokens.
#[derive(Clone, Copy, Debug)]
pub struct Ident32(pub [u8; 32]);

impl PartialEq for Ident32 {
    fn eq(&self, o: &Ident32) -> (r: bool) {
        bytes32_eq(&self.0, &o.0)
    }
}

impl vstd::std_specs::cmp::PartialEqSpecImpl for Ident32 {
    open spec fn obeys_eq_spec() -> bool {
        true
    }

    open spec fn eq_spec(&self, o: &Ident32) -> bool {
        self.0 == o.0
    }
}

impl Eq for Ident32 {}

impl Ident32 {
    /// Build an identifier from its raw bytes.
    pub fn from_bytes(bytes: [u8; 32]) -> (r: Self)
        ensures
            r.0 == bytes,
    {
        Ident32(bytes)
    }

    /// Bytewise equality of two identifiers.
    pub fn same(&self, other: &Ident32) -> (r: bool)
        ensures
            r == (*self == *other),
    {
        *self == *other
    }

    /// A fresh identifier drawn at random.
    pub fn random() -> (r: Self) {
        Ident32(random_bytes32())
    }

    /// The identifier as 64 lowercase hexadecimal digits.
    pub fn to_hex(&self) -> (r: String)
        ensures
            r@ == hex_lower(self.0@),
    {
        encode_hex(&self.0)
    }
}

/// The lowercase hexadecimal digit for a value below 16.
pub open spec fn hex_digit(n: u8) -> char {
    if n < 10 {
        (('0' as u8) + n) as char
    } else {
        (('a' as u8) + (n - 10)) as char
    }
}

/// Two lowercase hexadecimal digits per byte, high nibble first.
pub open spec fn hex_lower(b: Seq<u8>) -> Seq<char>
    decreases b.len(),
{
    if b.len() == 0 {
        Seq::empty()
    } else {
        seq![hex_digit(b[0] / 16), hex_digit(b[0] % 16)] + hex_lower(b.drop_first())
    }
}

/// Relies on rand::random: 32 bytes from the thread-local generator.
/// Nothing is promised of their value.
#[verifier::external_body]
fn random_bytes32() -> [u8; 32] {
    rand::random::<[u8; 32]>()
}

/// Relies on hex::encode: each byte becomes two lowercase hexadecimal
/// digits, high nibble first.
#[verifier::external_body]
fn encode_hex(b: &[u8; 32]) -> (r: String)
    ensures
        r@ == hex_lower(b@),
{
    hex::encode(b)
}

/// Who a carrier frame is for.
#[derive(Clone, Copy, Debug)]
pub enum Recipient {
    /// One endpoint (unicast).
    Target(Address),
    /// Flood scoped to a namespace key.
    Namespace(Address),
    /// Flood to everyone.
    Broadcast,
}

impl PartialEq for Recipient {
    fn eq(&self, o: &Recipient) -> (r: bool) {
        match (self, o) {
            (Recipient::Target(a), Recipient::Target(b)) => a == b,
            (Recipient::Namespace(a), Recipient::Namespace(b)) => a == b,
            (Recipient::Broadcast, Recipient::Broadcast) => true,
            _ => false,
        }
    }
}

impl vstd::std_specs::cmp::PartialEqSpecImpl for Recipient {
    open spec fn obeys_eq_spec() -> bool {
        true
    }

    open spec fn eq_spec(&self, o: &Recipient) -> bool {
        *self == *o
    }
}

impl Eq for Recipient {}

impl Recipient {
    /// True for the two flooding kinds (namespace and broadcast).
    pub fn is_flood(&self) -> (r: bool)
        ensures
            r == !(*self is Target),
    {
        !matches!(self, Recipient::Target(_))
    }
}

/// Binds the frames of one logical message: a shared hash, the frame's
/// number and the number of the last frame.
#[derive(Clone, Copy, Debug)]
pub struct SequenceIdV1 {
    pub hash: Ident32,
    pub num: u32,
    pub max: u32,
}

impl PartialEq for SequenceIdV1 {
    fn eq(&self, o: &SequenceIdV1) -> (r: bool) {
        self.hash == o.hash && self.num == o.num && self.max == o.max
    }
}

impl vstd::std_specs::cmp::PartialEqSpecImpl for SequenceIdV1 {
    open spec fn obeys_eq_spec() -> bool {
        true
    }

    open spec fn eq_spec(&self, o: &SequenceIdV1) -> bool {
        *self == *o
    }
}

impl Eq for SequenceIdV1 {}

/// A set of direct peers that a frame is handed to.
#[derive(Clone, Copy, Debug, PartialEq, Eq, Structural)]
pub enum Neighbour {
    /// Every reachable neighbour.
    Flood,
    /// Every neighbour but one.
    FloodExcept(u16),
    /// No neighbour at all.
    Drop,
    /// One neighbour.
    Single(u16),
}

/// Credentials of a local client: its ID and its token.
#[derive(Clone, Copy, Debug)]
pub struct ClientAuth {
    pub client_id: Ident32,
    pub token: Ident32,
}

impl PartialEq for ClientAuth {
    fn eq(&self, o: &ClientAuth) -> (r: bool) {
        self.client_id == o.client_id && self.token == o.token
    }
}

impl vstd::std_specs::cmp::PartialEqSpecImpl for ClientAuth {
    open spec fn obeys_eq_spec() -> bool {
        true
    }

    open spec fn eq_spec(&self, o: &ClientAuth) -> bool {
        *self == *o
    }
}

impl Eq for ClientAuth {}

} // verus!
