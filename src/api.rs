//! The local client API: the version handshake, the address requests and
//! their byte layouts, and the router-side registry that authenticates
//! clients and answers their requests.
use vstd::prelude::*;
use crate::codec::{
    address_bytes, at, be32, be32_value, ident_bytes, lemma_at_concat, put_bytes32, put_slice, put_u32, put_u8,
    take_address, take_ident, take_u32,
};
use crate::error::{ClientError, EncodingError};
use crate::micro::{
    split_mode, valid_pair, MicroframeHeader, ADD, ADDR, CREATE, DESTROY, INTRINSIC, LIST, PEER, QUERY,
    RECV, SEND, SUB, UP,
};
use crate::routes::RouteTable;
use crate::types::{Address, ClientAuth, Ident32};

verus! {

/// The protocol version this router speaks.
pub const VERSION: [u8; 2] = [0, 1];

/// Sent by the router to a client that connects.
#[derive(Clone, Copy, Debug)]
pub struct Handshake {
    /// Protocol version; a client of another version must refuse to go on.
    pub client_version: [u8; 2],
}

/// Bytes of a handshake: a format byte `1`, then the version.
pub open spec fn handshake_bytes(h: Handshake) -> Seq<u8> {
    seq![1u8] + h.client_version@
}

impl Handshake {
    /// The handshake of this router's version.
    pub fn new() -> (r: Self)
        ensures
            r.client_version == VERSION,
    {
        Handshake { client_version: VERSION }
    }

    /// Append the handshake's bytes.
    pub fn generate(&self, buf: &mut Vec<u8>)
        ensures
            final(buf)@ == old(buf)@ + handshake_bytes(*self),
    {
        put_u8(buf, 1);
        put_u8(buf, self.client_version[0]);
        put_u8(buf, self.client_version[1]);
        assert(final(buf)@ =~= old(buf)@ + handshake_bytes(*self));
    }

    /// Read a handshake from the start of `buf`.
    pub fn parse(buf: &[u8]) -> (r: Result<Handshake, ClientError>)
        ensures
            r matches Ok(h) ==> at(buf@, 0, handshake_bytes(h)),
            forall|h: Handshake| #[trigger] at(buf@, 0, handshake_bytes(h)) ==> r == Ok::<Handshake, ClientError>(h),
            r matches Err(e) ==> e == ClientError::MissingField,
    {
        proof {
            assert forall|h: Handshake| #[trigger] at(buf@, 0, handshake_bytes(h)) implies buf@[0] == 1
                && buf@[1] == h.client_version[0] && buf@[2] == h.client_version[1] by {
                assert(buf@.subrange(0, 3)[0] == handshake_bytes(h)[0]);
                assert(buf@.subrange(0, 3)[1] == handshake_bytes(h)[1]);
                assert(buf@.subrange(0, 3)[2] == handshake_bytes(h)[2]);
            }
        }
        if buf.len() < 3 || buf[0] != 1 {
            return Err(ClientError::MissingField);
        }
        let h = Handshake { client_version: [buf[1], buf[2]] };
        proof {
            assert(buf@.subrange(0, 3) =~= handshake_bytes(h));
            assert forall|g: Handshake| #[trigger] at(buf@, 0, handshake_bytes(g)) implies g == h by {
                assert(g.client_version =~= h.client_version);
            }
        }
        Ok(h)
    }
}

/// Create a new local address, optionally with a descriptive name.
#[derive(Clone, Debug)]
pub struct AddrCreate {
    pub name: Option<Vec<u8>>,
}

/// Bytes of an `AddrCreate`: the name ended by a zero byte; a lone zero
/// byte when there is no name.
pub open spec fn addr_create_bytes(c: AddrCreate) -> Seq<u8> {
    match c.name {
        Some(n) => cstring_bytes(n@),
        None => seq![0u8],
    }
}

impl AddrCreate {
    /// Append the request's bytes. A name holds no zero byte.
    pub fn generate(&self, buf: &mut Vec<u8>)
        requires
            self.name matches Some(n) ==> no_nul(n@),
        ensures
            final(buf)@ == old(buf)@ + addr_create_bytes(*self),
    {
        match &self.name {
            Some(n) => {
                put_slice(buf, n.as_slice());
                put_u8(buf, 0);
                assert(final(buf)@ =~= old(buf)@ + addr_create_bytes(*self));
            },
            None => put_u8(buf, 0),
        }
    }

    /// Read the request: the bytes up to the first zero byte are the name,
    /// no name when they are none; without a zero byte there is no name
    /// either.
    pub fn parse(buf: &[u8]) -> (r: AddrCreate)
        ensures
            r.name matches Some(n) ==> n@.len() > 0 && no_nul(n@) && at(buf@, 0, cstring_bytes(n@)),
            forall|n: Seq<u8>| n.len() > 0 && no_nul(n) && #[trigger] at(buf@, 0, cstring_bytes(n))
                ==> (r.name matches Some(m) && m@ == n),
    {
        match take_cstring(buf, 0) {
            Some((n, _)) => {
                if n.len() == 0 {
                    proof {
                        assert forall|x: Seq<u8>| x.len() > 0 && no_nul(x) && #[trigger] at(buf@, 0, cstring_bytes(x)) implies false by {
                            assert(buf@.subrange(0, x.len() as int + 1)[0] == x[0]);
                            assert(buf@.subrange(0, 1)[0] == 0);
                        }
                    }
                    AddrCreate { name: None }
                } else {
                    proof {
                        assert forall|x: Seq<u8>| x.len() > 0 && no_nul(x) && #[trigger] at(buf@, 0, cstring_bytes(x)) implies x == n@ by {
                            lemma_cstring_unique(buf@, x, n@);
                        }
                    }
                    AddrCreate { name: Some(n) }
                }
            },
            None => {
                proof {
                    assert forall|x: Seq<u8>| x.len() > 0 && no_nul(x) && #[trigger] at(buf@, 0, cstring_bytes(x)) implies false by {
                        lemma_cstring_found(buf@, x);
                    }
                }
                AddrCreate { name: None }
            },
        }
    }
}

/// Destroy a local address, optionally with all its data.
#[derive(Clone, Copy, Debug)]
pub struct AddrDestroy {
    pub addr: Address,
    pub force: bool,
}

/// Bytes of an `AddrDestroy`: the address, then `1` to force or `0`.
pub open spec fn addr_destroy_bytes(d: AddrDestroy) -> Seq<u8> {
    address_bytes(d.addr) + seq![if d.force { 1u8 } else { 0u8 }]
}

impl AddrDestroy {
    /// Append the request's bytes.
    pub fn generate(&self, buf: &mut Vec<u8>)
        ensures
            final(buf)@ == old(buf)@ + addr_destroy_bytes(*self),
    {
        put_bytes32(buf, &self.addr.0);
        put_u8(buf, if self.force { 1 } else { 0 });
        assert(final(buf)@ =~= old(buf)@ + addr_destroy_bytes(*self));
    }

    /// Read the request: the address is required; the force byte, when
    /// present, forces when it is `1`.
    pub fn parse(buf: &[u8]) -> (r: Result<AddrDestroy, ClientError>)
        ensures
            buf@.len() < 32 <==> r == Err::<AddrDestroy, ClientError>(ClientError::MissingField),
            r matches Err(e) ==> e == ClientError::MissingField,
            r matches Ok(d) ==> at(buf@, 0, address_bytes(d.addr)) && d.force == (buf@.len() > 32 && buf@[32] == 1),
            forall|d: AddrDestroy| #[trigger] at(buf@, 0, addr_destroy_bytes(d)) ==> r == Ok::<AddrDestroy, ClientError>(d),
    {
        proof {
            assert forall|d: AddrDestroy| #[trigger] at(buf@, 0, addr_destroy_bytes(d)) implies at(buf@, 0, address_bytes(d.addr))
                && buf@[32] == (if d.force { 1u8 } else { 0u8 }) by {
                crate::codec::lemma_at_concat(buf@, 0, address_bytes(d.addr), seq![if d.force { 1u8 } else { 0u8 }]);
                assert(buf@.subrange(32, 33)[0] == buf@[32]);
            }
        }
        let addr = match take_address(buf, 0) {
            Some(a) => a,
            None => return Err(ClientError::MissingField),
        };
        let force = buf.len() > 32 && buf[32] == 1;
        Ok(AddrDestroy { addr, force })
    }
}

/// Mark a local address as up.
#[derive(Clone, Copy, Debug)]
pub struct AddrUp {
    pub addr: Address,
}

/// Mark a local address as down.
#[derive(Clone, Copy, Debug)]
pub struct AddrDown {
    pub addr: Address,
}

/// Read the address that an up or down request is about.
pub fn parse_addr_request(buf: &[u8]) -> (r: Result<Address, ClientError>)
    ensures
        buf@.len() < 32 <==> r == Err::<Address, ClientError>(ClientError::MissingField),
        r matches Err(e) ==> e == ClientError::MissingField,
        r matches Ok(a) ==> at(buf@, 0, address_bytes(a)),
        forall|a: Address| #[trigger] at(buf@, 0, address_bytes(a)) ==> r == Ok::<Address, ClientError>(a),
{
    match take_address(buf, 0) {
        Some(a) => Ok(a),
        None => Err(ClientError::MissingField),
    }
}

impl AddrUp {
    /// Append the request's bytes: the address.
    pub fn generate(&self, buf: &mut Vec<u8>)
        ensures
            final(buf)@ == old(buf)@ + address_bytes(self.addr),
    {
        put_bytes32(buf, &self.addr.0);
    }

    /// Read the request; the address is required.
    pub fn parse(buf: &[u8]) -> (r: Result<AddrUp, ClientError>)
        ensures
            buf@.len() < 32 <==> r is Err,
            r matches Err(e) ==> e == ClientError::MissingField,
            r matches Ok(u) ==> at(buf@, 0, address_bytes(u.addr)),
            forall|a: Address| #[trigger] at(buf@, 0, address_bytes(a)) ==> (r matches Ok(u) && u.addr == a),
    {
        match parse_addr_request(buf) {
            Ok(addr) => Ok(AddrUp { addr }),
            Err(e) => Err(e),
        }
    }
}

impl AddrDown {
    /// Append the request's bytes: the address.
    pub fn generate(&self, buf: &mut Vec<u8>)
        ensures
            final(buf)@ == old(buf)@ + address_bytes(self.addr),
    {
        put_bytes32(buf, &self.addr.0);
    }

    /// Read the request; the address is required.
    pub fn parse(buf: &[u8]) -> (r: Result<AddrDown, ClientError>)
        ensures
            buf@.len() < 32 <==> r is Err,
            r matches Err(e) ==> e == ClientError::MissingField,
            r matches Ok(u) ==> at(buf@, 0, address_bytes(u.addr)),
            forall|a: Address| #[trigger] at(buf@, 0, address_bytes(a)) ==> (r matches Ok(u) && u.addr == a),
    {
        match parse_addr_request(buf) {
            Ok(addr) => Ok(AddrDown { addr }),
            Err(e) => Err(e),
        }
    }
}

/// The addresses' bytes one after the other.
pub open spec fn addresses_concat(list: Seq<Address>) -> Seq<u8>
    decreases list.len(),
{
    if list.len() == 0 {
        Seq::empty()
    } else {
        addresses_concat(list.drop_last()) + address_bytes(list.last())
    }
}

/// A list of local addresses.
#[derive(Clone, Debug)]
pub struct AddrList {
    pub list: Vec<Address>,
}

impl AddrList {
    /// Append the list's bytes: the count, then each address.
    pub fn generate(&self, buf: &mut Vec<u8>)
        requires
            self.list@.len() <= u32::MAX,
        ensures
            final(buf)@ == old(buf)@ + be32(self.list@.len() as u32) + addresses_concat(self.list@),
    {
        put_addresses(buf, &self.list);
    }

    /// Read a list: the count, then that many addresses.
    pub fn parse(buf: &[u8]) -> (r: Result<AddrList, ClientError>)
        ensures
            r matches Ok(l) ==> at(buf@, 0, be32(l.list@.len() as u32) + addresses_concat(l.list@))
                && l.list@.len() <= u32::MAX,
            r is Ok <==> buf@.len() >= 4 && 4 + 32 * be32_value(buf@, 0) <= buf@.len(),
            r matches Err(e) ==> e == ClientError::MissingField,
    {
        let n = match take_u32(buf, 0) {
            Some(n) => n,
            None => return Err(ClientError::MissingField),
        };
        let (list, _) = match take_addresses(buf, 4, n) {
            Some(x) => x,
            None => return Err(ClientError::MissingField),
        };
        proof {
            lemma_at_concat(buf@, 0, be32(n), addresses_concat(list@));
        }
        Ok(AddrList { list })
    }
}

/// The router's answer to a client request.
#[derive(Clone, Debug)]
pub enum ServerPing {
    /// Success, nothing more to say.
    Acknowledged,
    /// Idle subscriptions that have data.
    Update { available_subscriptions: Vec<Ident32> },
    /// A structured failure.
    Error(ClientError),
    /// The client speaks another protocol version.
    IncompatibleVersion { router: [u8; 2], client: [u8; 2] },
    /// No progress in time.
    Timeout,
    /// Where to connect for a new subscription (a socket address).
    Subscription { sub_id: Ident32, sub_bind: Vec<u8> },
    /// A list of addresses.
    AddrList(Vec<Address>),
    /// Where to connect to upload a large payload (a socket address).
    SendSocket { socket_bind: Vec<u8> },
}

/// Answer to a client's handshake: nothing when the versions match.
pub fn check_client_version(client: Handshake) -> (r: Option<ServerPing>)
    ensures
        client.client_version == VERSION <==> r is None,
        r matches Some(p) ==> (p matches ServerPing::IncompatibleVersion { router, client: c } && router == VERSION && c == client.client_version),
{
    if client.client_version[0] == VERSION[0] && client.client_version[1] == VERSION[1] {
        assert(client.client_version =~= VERSION);
        None
    } else {
        Some(ServerPing::IncompatibleVersion { router: VERSION, client: client.client_version })
    }
}

/// The record belongs to client `id`.
pub open spec fn owned_by(id: Ident32) -> spec_fn((Ident32, Address)) -> bool {
    |p: (Ident32, Address)| p.0 == id
}

/// The address of a record.
pub open spec fn address_part() -> spec_fn((Ident32, Address)) -> Address {
    |p: (Ident32, Address)| p.1
}

/// Registered clients and the addresses they created.
pub struct ClientRegistry {
    clients: Vec<ClientAuth>,
    addrs: Vec<(Ident32, Address)>,
    up: Vec<Address>,
    subs: Vec<(Ident32, Ident32)>,
}

/// Values a request may need that the router draws or allocates outside
/// the registry: the address a create makes, and the ID and socket address
/// of a new subscription or upload socket.
#[derive(Clone, Debug)]
pub struct Provided {
    pub new_addr: Address,
    pub sub_id: Ident32,
    pub bind: Vec<u8>,
}

impl ClientRegistry {
    /// The addresses marked up.
    pub closed spec fn up(&self) -> Set<Address> {
        Set::new(|a: Address| self.up@.contains(a))
    }

    /// The subscriptions, each with the ID of the client that holds it.
    pub closed spec fn subs(&self) -> Seq<(Ident32, Ident32)> {
        self.subs@
    }

    /// The registry's invariant: no two registered clients share an ID.
    pub open spec fn wf(&self) -> bool {
        self.unique_ids()
    }

    /// The subscription IDs client `id` holds, oldest first.
    pub open spec fn subs_of(&self, id: Ident32) -> Seq<Ident32> {
        self.subs().filter(sub_owned_by(id)).map_values(sub_part())
    }

    /// Client `id` created address `a`.
    pub open spec fn owns(&self, id: Ident32, a: Address) -> bool {
        self.addrs().contains((id, a))
    }

    /// Nothing but the given parts changed between `a` and `b`.
    pub open spec fn unchanged(a: ClientRegistry, b: ClientRegistry) -> bool {
        &&& b.clients() == a.clients()
        &&& b.addrs() == a.addrs()
        &&& b.up() == a.up()
        &&& b.subs() == a.subs()
    }

    /// The registered credentials.
    pub closed spec fn clients(&self) -> Seq<ClientAuth> {
        self.clients@
    }

    /// The addresses created, each with the ID of the client that created it.
    pub closed spec fn addrs(&self) -> Seq<(Ident32, Address)> {
        self.addrs@
    }

    /// `auth` is present and registered.
    pub open spec fn authorized(&self, auth: Option<ClientAuth>) -> bool {
        auth matches Some(a) && self.clients().contains(a)
    }

    /// The addresses that client `id` created, oldest first.
    pub open spec fn addrs_of(&self, id: Ident32) -> Seq<Address> {
        self.addrs().filter(owned_by(id)).map_values(address_part())
    }

    pub fn new() -> (r: Self)
        ensures
            r.clients() == Seq::<ClientAuth>::empty(),
            r.addrs() == Seq::<(Ident32, Address)>::empty(),
            r.up() == Set::<Address>::empty(),
            r.subs() == Seq::<(Ident32, Ident32)>::empty(),
            r.wf(),
    {
        let r = ClientRegistry { clients: Vec::new(), addrs: Vec::new(), up: Vec::new(), subs: Vec::new() };
        assert(r.up() =~= Set::<Address>::empty());
        r
    }

    /// A registered client has this ID.
    pub open spec fn id_taken(&self, id: Ident32) -> bool {
        exists|i: int| 0 <= i < self.clients().len() && (#[trigger] self.clients()[i]).client_id == id
    }

    /// No two registered clients share an ID.
    pub open spec fn unique_ids(&self) -> bool {
        forall|i: int, j: int|
            0 <= i < self.clients().len() && 0 <= j < self.clients().len() && i != j
                ==> (#[trigger] self.clients()[i]).client_id != (#[trigger] self.clients()[j]).client_id
    }

    /// True when a registered client has ID `id`.
    pub fn is_id_taken(&self, id: &Ident32) -> (r: bool)
        ensures
            r == self.id_taken(*id),
    {
        let mut i: usize = 0;
        while i < self.clients.len()
            invariant
                0 <= i <= self.clients@.len(),
                forall|j: int| 0 <= j < i ==> (#[trigger] self.clients@[j]).client_id != *id,
            decreases self.clients@.len() - i,
        {
            if self.clients[i].client_id == *id {
                assert(self.clients()[i as int].client_id == *id);
                return true;
            }
            i = i + 1;
        }
        false
    }

    /// Register a client under fresh random credentials; refused, with
    /// nothing changed, in the unlikely case that the drawn ID is taken.
    pub fn register(&mut self) -> (r: Result<ClientAuth, ClientError>)
        requires
            old(self).wf(),
        ensures
            final(self).wf(),
            final(self).addrs() == old(self).addrs(),
            final(self).up() == old(self).up(),
            final(self).subs() == old(self).subs(),
            match r {
                Ok(a) => !old(self).id_taken(a.client_id) && final(self).clients() == old(self).clients().push(a),
                Err(e) => e == ClientError::InvalidAuth && final(self).clients() == old(self).clients(),
            },
    {
        let fresh = ClientAuth { client_id: Ident32::random(), token: Ident32::random() };
        match self.authenticate(false, None, None, fresh) {
            Ok(Some(a)) => Ok(a),
            _ => Err(ClientError::InvalidAuth),
        }
    }

    /// True when `auth` is present and registered.
    pub fn is_authorized(&self, auth: &Option<ClientAuth>) -> (r: bool)
        ensures
            r == self.authorized(*auth),
    {
        match auth {
            None => false,
            Some(a) => {
                let mut i: usize = 0;
                while i < self.clients.len()
                    invariant
                        0 <= i <= self.clients@.len(),
                        forall|j: int| 0 <= j < i ==> self.clients@[j] != *a,
                        *auth == Some(*a),
                    decreases self.clients@.len() - i,
                {
                    if self.clients[i] == *a {
                        assert(self.clients@[i as int] == *a);
                        assert(self.clients@.contains(*a));
                        return true;
                    }
                    i = i + 1;
                }
                false
            },
        }
    }

    /// Authenticate a connecting client. Credentials with both an ID and a
    /// token must be registered; neither registers a new client under
    /// `fresh`, unless its ID is taken; only one of the two is refused. An
    /// anonymous client is let in without credentials.
    pub fn authenticate(
        &mut self,
        anonymous: bool,
        client_id: Option<Ident32>,
        token: Option<Ident32>,
        fresh: ClientAuth,
    ) -> (r: Result<Option<ClientAuth>, ClientError>)
        requires
            old(self).wf(),
        ensures
            final(self).wf(),
            final(self).addrs() == old(self).addrs(),
            final(self).up() == old(self).up(),
            final(self).subs() == old(self).subs(),
            anonymous ==> r == Ok::<Option<ClientAuth>, ClientError>(None) && final(self).clients() == old(self).clients(),
            !anonymous ==> match (client_id, token) {
                (Some(id), Some(t)) => final(self).clients() == old(self).clients() && if old(self).clients().contains(
                    ClientAuth { client_id: id, token: t },
                ) {
                    r == Ok::<Option<ClientAuth>, ClientError>(Some(ClientAuth { client_id: id, token: t }))
                } else {
                    r == Err::<Option<ClientAuth>, ClientError>(ClientError::InvalidAuth)
                },
                (None, None) => if old(self).id_taken(fresh.client_id) {
                    r == Err::<Option<ClientAuth>, ClientError>(ClientError::InvalidAuth)
                        && final(self).clients() == old(self).clients()
                } else {
                    r == Ok::<Option<ClientAuth>, ClientError>(Some(fresh))
                        && final(self).clients() == old(self).clients().push(fresh)
                },
                _ => r == Err::<Option<ClientAuth>, ClientError>(ClientError::InvalidAuth)
                    && final(self).clients() == old(self).clients(),
            },
    {
        if anonymous {
            return Ok(None);
        }
        match (client_id, token) {
            (Some(id), Some(t)) => {
                let auth = ClientAuth { client_id: id, token: t };
                if self.is_authorized(&Some(auth)) {
                    Ok(Some(auth))
                } else {
                    Err(ClientError::InvalidAuth)
                }
            },
            (None, None) => {
                if self.is_id_taken(&fresh.client_id) {
                    return Err(ClientError::InvalidAuth);
                }
                let ghost before = self.clients@;
                self.clients.push(fresh);
                proof {
                    assert forall|i: int, j: int|
                        0 <= i < self.clients@.len() && 0 <= j < self.clients@.len() && i != j
                        implies (#[trigger] self.clients@[i]).client_id != (#[trigger] self.clients@[j]).client_id by {
                        if i < before.len() && j < before.len() {
                            assert(self.clients()[i] == before[i] && self.clients()[j] == before[j]);
                            assert(old(self).clients()[i] == before[i] && old(self).clients()[j] == before[j]);
                        } else if i < before.len() {
                            assert(old(self).clients()[i] == self.clients@[i]);
                        } else {
                            assert(old(self).clients()[j] == self.clients@[j]);
                        }
                    }
                }
                Ok(Some(fresh))
            },
            _ => Err(ClientError::InvalidAuth),
        }
    }

    /// The addresses that client `id` created, oldest first.
    pub fn list_addrs(&self, id: &Ident32) -> (r: Vec<Address>)
        ensures
            r@ == self.addrs_of(*id),
    {
        let ghost pick = owned_by(*id);
        let ghost second = address_part();
        let mut out: Vec<Address> = Vec::new();
        let mut i: usize = 0;
        while i < self.addrs.len()
            invariant
                0 <= i <= self.addrs@.len(),
                pick == owned_by(*id),
                second == address_part(),
                out@ == self.addrs@.subrange(0, i as int).filter(pick).map_values(second),
            decreases self.addrs@.len() - i,
        {
            let (owner, a) = self.addrs[i];
            proof {
                assert(self.addrs@.subrange(0, i + 1) =~= self.addrs@.subrange(0, i as int).push(self.addrs@[i as int]));
                self.addrs@.subrange(0, i as int).lemma_filter_push(self.addrs@[i as int], pick);
            }
            if owner == *id {
                out.push(a);
                assert(out@ =~= self.addrs@.subrange(0, i + 1).filter(pick).map_values(second));
            } else {
                assert(out@ =~= self.addrs@.subrange(0, i + 1).filter(pick).map_values(second));
            }
            i = i + 1;
        }
        assert(self.addrs@.subrange(0, self.addrs@.len() as int) =~= self.addrs@);
        assert(out@ =~= self.addrs@.filter(pick).map_values(second));
        out
    }

    /// Carry out an address request of client `id` (see `addr_done`).
    fn addr_request(&mut self, op: u8, id: &Ident32, body: &[u8], given: &Provided) -> (r: ServerPing)
        requires
            valid_pair(ADDR, op),
        ensures
            addr_done(*old(self), *final(self), op, *id, body@, *given, r),
    {
        if op == CREATE {
            self.addrs.push((*id, given.new_addr));
            let l = vec![given.new_addr];
            assert(l@ =~= seq![given.new_addr]);
            assert(self.up() =~= old(self).up());
            return ServerPing::AddrList(l);
        }
        if op == LIST {
            return ServerPing::AddrList(self.list_addrs(id));
        }
        let a = match parse_addr_request(body) {
            Ok(a) => a,
            Err(e) => return ServerPing::Error(e),
        };
        assert(at(body@, 0, address_bytes(a)));
        if op == DESTROY {
            self.remove_addr(id, &a);
            ServerPing::Acknowledged
        } else if !self.is_owner(id, &a) {
            ServerPing::Error(ClientError::InvalidAuth)
        } else {
            self.set_up(&a, op == UP);
            ServerPing::Acknowledged
        }
    }

    /// Carry out a subscription request of client `id` (see `sub_done`).
    fn sub_request(&mut self, op: u8, id: &Ident32, body: &[u8], given: &Provided) -> (r: ServerPing)
        requires
            valid_pair(SUB, op),
        ensures
            sub_done(*old(self), *final(self), op, *id, body@, *given, r),
    {
        if op == ADD {
            self.add_sub(id, &given.sub_id);
            return ServerPing::Subscription { sub_id: given.sub_id, sub_bind: copy_bytes(&given.bind) };
        }
        let sub = match take_ident(body, 0) {
            Some(s) => s,
            None => return ServerPing::Error(ClientError::MissingField),
        };
        self.remove_sub(id, &sub);
        ServerPing::Acknowledged
    }

    /// Answer one request. The mode must name a known pair and the
    /// credentials must be registered. Address and subscription requests
    /// are carried out as `addr_done` and `sub_done` say; `PEER/LIST`
    /// answers with the addresses the route table knows and `PEER/QUERY`
    /// with the queried address if it knows it; a send answers with the
    /// upload socket `given.bind`; `RECV/FETCH` answers with the client's
    /// subscriptions; the intrinsic exchange is acknowledged. Link and
    /// status queries are refused as unsupported.
    #[verifier::rlimit(60)]
    pub fn handle(
        &mut self,
        routes: &RouteTable,
        header: &MicroframeHeader,
        body: &[u8],
        given: &Provided,
    ) -> (r: ServerPing)
        requires
            old(self).wf(),
        ensures
            final(self).wf(),
            final(self).clients() == old(self).clients(),
            match split_mode_spec(header.modes) {
                None => is_error(r, ClientError::InvalidMode) && ClientRegistry::unchanged(*old(self), *final(self)),
                Some((ns, op)) => if !old(self).authorized(header.auth) {
                    is_error(r, ClientError::InvalidAuth) && ClientRegistry::unchanged(*old(self), *final(self))
                } else if ns == ADDR {
                    addr_done(*old(self), *final(self), op, header.auth->0.client_id, body@, *given, r)
                } else if ns == SUB {
                    sub_done(*old(self), *final(self), op, header.auth->0.client_id, body@, *given, r)
                } else {
                    &&& ClientRegistry::unchanged(*old(self), *final(self))
                    &&& if ns == PEER && op == LIST {
                        r matches ServerPing::AddrList(l) && (forall|x: Address| l@.contains(x) <==> routes.known(x))
                            && (forall|i: int, j: int| 0 <= i < j < l@.len() ==> l@[i] != l@[j])
                    } else if ns == PEER && op == QUERY {
                        if body@.len() < 32 {
                            is_error(r, ClientError::MissingField)
                        } else {
                            exists|x: Address| #[trigger] at(body@, 0, address_bytes(x)) && (r matches ServerPing::AddrList(l)
                                && l@ == if routes.known(x) { seq![x] } else { Seq::<Address>::empty() })
                        }
                    } else if ns == SEND {
                        r matches ServerPing::SendSocket { socket_bind } && socket_bind@ == given.bind@
                    } else if ns == RECV {
                        r matches ServerPing::Update { available_subscriptions } && available_subscriptions@
                            == old(self).subs_of(header.auth->0.client_id)
                    } else if ns == INTRINSIC {
                        r is Acknowledged
                    } else {
                        is_error(r, ClientError::Unsupported)
                    }
                },
            },
    {
        let (ns, op) = match split_mode(header.modes) {
            Ok(x) => x,
            Err(e) => return ServerPing::Error(e),
        };
        if !self.is_authorized(&header.auth) {
            return ServerPing::Error(ClientError::InvalidAuth);
        }
        let id = header.auth.unwrap().client_id;
        if ns == ADDR {
            self.addr_request(op, &id, body, given)
        } else if ns == SUB {
            self.sub_request(op, &id, body, given)
        } else if ns == PEER && op == LIST {
            ServerPing::AddrList(routes.known_addresses())
        } else if ns == PEER && op == QUERY {
            match parse_addr_request(body) {
                Ok(a) => {
                    assert(at(body@, 0, address_bytes(a)));
                    if routes.is_known(&a) {
                        ServerPing::AddrList(vec![a])
                    } else {
                        ServerPing::AddrList(Vec::new())
                    }
                },
                Err(e) => ServerPing::Error(e),
            }
        } else if ns == SEND {
            ServerPing::SendSocket { socket_bind: copy_bytes(&given.bind) }
        } else if ns == RECV {
            ServerPing::Update { available_subscriptions: self.list_subs(&id) }
        } else if ns == INTRINSIC {
            ServerPing::Acknowledged
        } else {
            ServerPing::Error(ClientError::Unsupported)
        }
    }

    /// True when client `id` created address `a`.
    pub fn is_owner(&self, id: &Ident32, a: &Address) -> (r: bool)
        ensures
            r == self.owns(*id, *a),
    {
        let mut i: usize = 0;
        while i < self.addrs.len()
            invariant
                0 <= i <= self.addrs@.len(),
                forall|j: int| 0 <= j < i ==> self.addrs@[j] != (*id, *a),
            decreases self.addrs@.len() - i,
        {
            let (o, x) = self.addrs[i];
            if o == *id && x == *a {
                assert(self.addrs@[i as int] == (*id, *a));
                assert(self.addrs().contains((*id, *a)));
                return true;
            }
            i = i + 1;
        }
        false
    }

    /// Mark address `a` up, or down when `up` is false.
    pub fn set_up(&mut self, a: &Address, up: bool)
        ensures
            final(self).clients() == old(self).clients(),
            final(self).addrs() == old(self).addrs(),
            final(self).subs() == old(self).subs(),
            final(self).up() == if up { old(self).up().insert(*a) } else { old(self).up().remove(*a) },
    {
        let mut kept: Vec<Address> = Vec::new();
        let mut i: usize = 0;
        while i < self.up.len()
            invariant
                0 <= i <= self.up@.len(),
                self.up@ == old(self).up@,
                self.clients@ == old(self).clients@,
                self.addrs@ == old(self).addrs@,
                self.subs@ == old(self).subs@,
                forall|x: Address| kept@.contains(x) <==> (x != *a && exists|k: int| 0 <= k < i && self.up@[k] == x),
            decreases self.up@.len() - i,
        {
            let x = self.up[i];
            let ghost before = kept@;
            if x != *a {
                kept.push(x);
            }
            proof {
                assert forall|y: Address| kept@.contains(y) <==> (y != *a && exists|k: int| 0 <= k < i + 1 && self.up@[k] == y) by {
                    if kept@.contains(y) {
                        let m = choose|m: int| 0 <= m < kept@.len() && kept@[m] == y;
                        if m < before.len() {
                            assert(before[m] == y);
                            assert(before.contains(y));
                        }
                    }
                    if y != *a && exists|k: int| 0 <= k < i + 1 && self.up@[k] == y {
                        let k = choose|k: int| 0 <= k < i + 1 && self.up@[k] == y;
                        if k < i {
                            assert(before.contains(y));
                            let m = choose|m: int| 0 <= m < before.len() && before[m] == y;
                            assert(kept@[m] == y);
                        } else {
                            assert(kept@[kept@.len() - 1] == y);
                        }
                    }
                }
            }
            i = i + 1;
        }
        let ghost k0 = kept@;
        let ghost pre = self.up@;
        if up {
            kept.push(*a);
        }
        self.up = kept;
        proof {
            assert forall|x: Address| self.up@.contains(x) <==> (if up { old(self).up().insert(*a) } else { old(self).up().remove(*a) }).contains(x) by {
                assert(old(self).up().contains(x) <==> pre.contains(x));
                assert(pre.contains(x) <==> exists|k: int| 0 <= k < pre.len() && pre[k] == x);
                assert(k0.contains(x) <==> (x != *a && pre.contains(x)));
                if up {
                    assert(self.up@ == k0.push(*a));
                    if self.up@.contains(x) && x != *a {
                        let m = choose|m: int| 0 <= m < self.up@.len() && self.up@[m] == x;
                        assert(m < k0.len());
                        assert(k0[m] == x);
                    }
                    if k0.contains(x) {
                        let m = choose|m: int| 0 <= m < k0.len() && k0[m] == x;
                        assert(self.up@[m] == x);
                    }
                    if x == *a {
                        assert(self.up@[k0.len() as int] == x);
                    }
                }
            }
            assert(self.up() =~= (if up { old(self).up().insert(*a) } else { old(self).up().remove(*a) }));
        }
    }

    /// Record subscription `sub` for client `id`.
    pub fn add_sub(&mut self, id: &Ident32, sub: &Ident32)
        ensures
            final(self).clients() == old(self).clients(),
            final(self).addrs() == old(self).addrs(),
            final(self).up() == old(self).up(),
            final(self).subs() == old(self).subs().push((*id, *sub)),
    {
        self.subs.push((*id, *sub));
    }

    /// Drop client `id`'s subscription `sub`; the others keep their order.
    pub fn remove_sub(&mut self, id: &Ident32, sub: &Ident32)
        ensures
            final(self).clients() == old(self).clients(),
            final(self).addrs() == old(self).addrs(),
            final(self).up() == old(self).up(),
            final(self).subs() == old(self).subs().filter(not_sub(*id, *sub)),
    {
        let ghost keep = not_sub(*id, *sub);
        let mut kept: Vec<(Ident32, Ident32)> = Vec::new();
        let mut i: usize = 0;
        while i < self.subs.len()
            invariant
                0 <= i <= self.subs@.len(),
                self.subs@ == old(self).subs@,
                self.clients@ == old(self).clients@,
                self.addrs@ == old(self).addrs@,
                self.up@ == old(self).up@,
                keep == not_sub(*id, *sub),
                kept@ == self.subs@.subrange(0, i as int).filter(keep),
            decreases self.subs@.len() - i,
        {
            let (o, x) = self.subs[i];
            proof {
                assert(self.subs@.subrange(0, i + 1) =~= self.subs@.subrange(0, i as int).push(self.subs@[i as int]));
                self.subs@.subrange(0, i as int).lemma_filter_push(self.subs@[i as int], keep);
            }
            if !(o == *id && x == *sub) {
                kept.push((o, x));
            }
            i = i + 1;
        }
        assert(self.subs@.subrange(0, self.subs@.len() as int) =~= self.subs@);
        self.subs = kept;
    }

    /// The subscription IDs client `id` holds, oldest first.
    pub fn list_subs(&self, id: &Ident32) -> (r: Vec<Ident32>)
        ensures
            r@ == self.subs_of(*id),
    {
        let ghost pick = sub_owned_by(*id);
        let ghost second = sub_part();
        let mut out: Vec<Ident32> = Vec::new();
        let mut i: usize = 0;
        while i < self.subs.len()
            invariant
                0 <= i <= self.subs@.len(),
                pick == sub_owned_by(*id),
                second == sub_part(),
                out@ == self.subs@.subrange(0, i as int).filter(pick).map_values(second),
            decreases self.subs@.len() - i,
        {
            let (o, x) = self.subs[i];
            proof {
                assert(self.subs@.subrange(0, i + 1) =~= self.subs@.subrange(0, i as int).push(self.subs@[i as int]));
                self.subs@.subrange(0, i as int).lemma_filter_push(self.subs@[i as int], pick);
            }
            if o == *id {
                out.push(x);
            }
            assert(out@ =~= self.subs@.subrange(0, i + 1).filter(pick).map_values(second));
            i = i + 1;
        }
        assert(self.subs@.subrange(0, self.subs@.len() as int) =~= self.subs@);
        out
    }

    /// Drop client `id`'s records of address `a`; the others keep their order.
    pub fn remove_addr(&mut self, id: &Ident32, a: &Address)
        ensures
            final(self).clients() == old(self).clients(),
            final(self).up() == old(self).up(),
            final(self).subs() == old(self).subs(),
            final(self).addrs() == old(self).addrs().filter(not_record(*id, *a)),
    {
        let ghost keep = not_record(*id, *a);
        let mut kept: Vec<(Ident32, Address)> = Vec::new();
        let mut i: usize = 0;
        while i < self.addrs.len()
            invariant
                0 <= i <= self.addrs@.len(),
                self.addrs@ == old(self).addrs@,
                self.clients@ == old(self).clients@,
                self.up@ == old(self).up@,
                self.subs@ == old(self).subs@,
                keep == not_record(*id, *a),
                kept@ == self.addrs@.subrange(0, i as int).filter(keep),
            decreases self.addrs@.len() - i,
        {
            let (owner, x) = self.addrs[i];
            proof {
                assert(self.addrs@.subrange(0, i + 1) =~= self.addrs@.subrange(0, i as int).push(self.addrs@[i as int]));
                self.addrs@.subrange(0, i as int).lemma_filter_push(self.addrs@[i as int], keep);
            }
            if !(owner == *id && x == *a) {
                kept.push((owner, x));
            }
            i = i + 1;
        }
        assert(self.addrs@.subrange(0, self.addrs@.len() as int) =~= self.addrs@);
        self.addrs = kept;
    }
}

/// An online client gets a copy of a flood sent from `sender`: every one
/// does when `mirror` is set, otherwise all but those whose address is
/// `sender`.
pub open spec fn gets_flood_copy(c: (Ident32, Address), sender: Address, mirror: bool) -> bool {
    mirror || c.1 != sender
}

/// The online clients, given as ID and primary address, that receive a
/// copy of a flood that the client with address `sender` sends, in order.
pub fn flood_copy_targets(online: &Vec<(Ident32, Address)>, sender: &Address, mirror: bool) -> (r: Vec<Ident32>)
    ensures
        r@ == online@.filter(|c: (Ident32, Address)| gets_flood_copy(c, *sender, mirror)).map_values(
            |c: (Ident32, Address)| c.0,
        ),
{
    let ghost pick = |c: (Ident32, Address)| gets_flood_copy(c, *sender, mirror);
    let ghost first = |c: (Ident32, Address)| c.0;
    let mut out: Vec<Ident32> = Vec::new();
    let mut i: usize = 0;
    while i < online.len()
        invariant
            0 <= i <= online@.len(),
            pick == (|c: (Ident32, Address)| gets_flood_copy(c, *sender, mirror)),
            first == (|c: (Ident32, Address)| c.0),
            out@ == online@.subrange(0, i as int).filter(pick).map_values(first),
        decreases online@.len() - i,
    {
        let (id, addr) = online[i];
        proof {
            assert(online@.subrange(0, i + 1) =~= online@.subrange(0, i as int).push(online@[i as int]));
            online@.subrange(0, i as int).lemma_filter_push(online@[i as int], pick);
        }
        if mirror || addr != *sender {
            out.push(id);
        }
        assert(out@ =~= online@.subrange(0, i + 1).filter(pick).map_values(first));
        i = i + 1;
    }
    assert(online@.subrange(0, online@.len() as int) =~= online@);
    out
}

/// The answer is the error `e`.
pub open spec fn is_error(r: ServerPing, e: ClientError) -> bool {
    r matches ServerPing::Error(x) && x == e
}

/// What an address request of client `id` does: `CREATE` records
/// `given.new_addr` and answers with it; `LIST` answers with the client's
/// addresses; the others read an address from `body` (a missing one is
/// refused): `DESTROY` drops the client's records of it; `UP` and `DOWN`
/// mark an address the client owns up or down and refuse another.
pub open spec fn addr_done(
    b: ClientRegistry,
    a: ClientRegistry,
    op: u8,
    id: Ident32,
    body: Seq<u8>,
    given: Provided,
    r: ServerPing,
) -> bool {
    &&& a.clients() == b.clients()
    &&& a.subs() == b.subs()
    &&& if op == CREATE {
        a.addrs() == b.addrs().push((id, given.new_addr)) && a.up() == b.up()
            && (r matches ServerPing::AddrList(l) && l@ == seq![given.new_addr])
    } else if op == LIST {
        a.addrs() == b.addrs() && a.up() == b.up() && (r matches ServerPing::AddrList(l) && l@ == b.addrs_of(id))
    } else if body.len() < 32 {
        is_error(r, ClientError::MissingField) && a.addrs() == b.addrs() && a.up() == b.up()
    } else {
        exists|x: Address| #[trigger] at(body, 0, address_bytes(x)) && if op == DESTROY {
            r is Acknowledged && a.up() == b.up() && a.addrs() == b.addrs().filter(not_record(id, x))
        } else if !b.owns(id, x) {
            is_error(r, ClientError::InvalidAuth) && a.addrs() == b.addrs() && a.up() == b.up()
        } else {
            r is Acknowledged && a.addrs() == b.addrs() && a.up() == if op == UP {
                b.up().insert(x)
            } else {
                b.up().remove(x)
            }
        }
    }
}

/// What a subscription request of client `id` does: `ADD` records
/// subscription `given.sub_id` and answers with it and the socket address
/// `given.bind`; `DELETE` reads a subscription ID from `body` (a missing
/// one is refused) and drops the client's subscription of that ID.
pub open spec fn sub_done(
    b: ClientRegistry,
    a: ClientRegistry,
    op: u8,
    id: Ident32,
    body: Seq<u8>,
    given: Provided,
    r: ServerPing,
) -> bool {
    &&& a.clients() == b.clients()
    &&& a.addrs() == b.addrs()
    &&& a.up() == b.up()
    &&& if op == ADD {
        a.subs() == b.subs().push((id, given.sub_id)) && (r matches ServerPing::Subscription { sub_id, sub_bind }
            && sub_id == given.sub_id && sub_bind@ == given.bind@)
    } else if body.len() < 32 {
        is_error(r, ClientError::MissingField) && a.subs() == b.subs()
    } else {
        exists|s: Ident32| #[trigger] at(body, 0, ident_bytes(s)) && r is Acknowledged && a.subs() == b.subs().filter(
            not_sub(id, s),
        )
    }
}

/// A copy of the bytes.
fn copy_bytes(v: &Vec<u8>) -> (r: Vec<u8>)
    ensures
        r@ == v@,
{
    let mut out: Vec<u8> = Vec::new();
    put_slice(&mut out, v.as_slice());
    out
}

/// The subscription is held by client `id`.
pub open spec fn sub_owned_by(id: Ident32) -> spec_fn((Ident32, Ident32)) -> bool {
    |p: (Ident32, Ident32)| p.0 == id
}

/// The subscription ID of a record.
pub open spec fn sub_part() -> spec_fn((Ident32, Ident32)) -> Ident32 {
    |p: (Ident32, Ident32)| p.1
}

/// A record that is not client `id`'s subscription `sub`.
pub open spec fn not_sub(id: Ident32, sub: Ident32) -> spec_fn((Ident32, Ident32)) -> bool {
    |p: (Ident32, Ident32)| !(p.0 == id && p.1 == sub)
}

/// A record that is not client `id`'s record of address `a`.
pub open spec fn not_record(id: Ident32, a: Address) -> spec_fn((Ident32, Address)) -> bool {
    |p: (Ident32, Address)| !(p.0 == id && p.1 == a)
}

/// With client IDs unique, a registered client's ID goes with one token
/// only: credentials with its ID are registered exactly when they carry
/// its token.
pub proof fn lemma_token_decides(reg: ClientRegistry, a: ClientAuth, t: Ident32)
    requires
        reg.wf(),
        reg.clients().contains(a),
    ensures
        reg.clients().contains(ClientAuth { client_id: a.client_id, token: t }) <==> t == a.token,
{
    let b = ClientAuth { client_id: a.client_id, token: t };
    if reg.clients().contains(b) {
        let i = choose|i: int| 0 <= i < reg.clients().len() && reg.clients()[i] == a;
        let j = choose|j: int| 0 <= j < reg.clients().len() && reg.clients()[j] == b;
        if i != j {
            assert(reg.clients()[i].client_id != reg.clients()[j].client_id);
        }
    }
}

/// The namespace and operator of a mode word the router answers.
pub open spec fn split_mode_spec(modes: u16) -> Option<(u8, u8)> {
    let ns = (modes / 256) as u8;
    let op = (modes % 256) as u8;
    if crate::micro::valid_pair(ns, op) {
        Some((ns, op))
    } else {
        None
    }
}

/// The identifiers' bytes one after the other.
pub open spec fn idents_concat(list: Seq<Ident32>) -> Seq<u8>
    decreases list.len(),
{
    if list.len() == 0 {
        Seq::empty()
    } else {
        idents_concat(list.drop_last()) + ident_bytes(list.last())
    }
}

/// A byte string without zero bytes, ended by a zero byte.
pub open spec fn cstring_bytes(b: Seq<u8>) -> Seq<u8> {
    b + seq![0u8]
}

/// The byte string holds no zero byte.
pub open spec fn no_nul(b: Seq<u8>) -> bool {
    forall|i: int| 0 <= i < b.len() ==> b[i] != 0
}

/// The one-byte code of a client error.
pub open spec fn error_code(e: ClientError) -> u8 {
    match e {
        ClientError::InvalidMode => 1,
        ClientError::MissingField => 2,
        ClientError::InvalidAuth => 3,
        ClientError::Unsupported => 4,
    }
}

/// The bytes of a router answer: a type byte, then its fields. Lists carry
/// their length as a big-endian `u32`; an error is framed as a
/// length-prefixed code; socket addresses end with a zero byte.
pub open spec fn ping_bytes(p: ServerPing) -> Seq<u8> {
    match p {
        ServerPing::Acknowledged => seq![1u8],
        ServerPing::Update { available_subscriptions } => seq![2u8] + be32(
            available_subscriptions@.len() as u32,
        ) + idents_concat(available_subscriptions@),
        ServerPing::Error(e) => seq![3u8] + be32(1) + seq![error_code(e)],
        ServerPing::Timeout => seq![4u8],
        ServerPing::IncompatibleVersion { router, client } => seq![5u8] + router@ + client@,
        ServerPing::Subscription { sub_id, sub_bind } => seq![6u8] + ident_bytes(sub_id)
            + cstring_bytes(sub_bind@),
        ServerPing::AddrList(list) => seq![7u8] + be32(list@.len() as u32) + addresses_concat(list@),
        ServerPing::SendSocket { socket_bind } => seq![8u8] + cstring_bytes(socket_bind@),
    }
}

/// The answer can be written: lists fit their length field and socket
/// addresses hold no zero byte.
pub open spec fn ping_wf(p: ServerPing) -> bool {
    match p {
        ServerPing::Update { available_subscriptions } => available_subscriptions@.len() <= u32::MAX,
        ServerPing::Subscription { sub_bind, .. } => no_nul(sub_bind@),
        ServerPing::AddrList(list) => list@.len() <= u32::MAX,
        ServerPing::SendSocket { socket_bind } => no_nul(socket_bind@),
        _ => true,
    }
}

fn put_idents(buf: &mut Vec<u8>, list: &Vec<Ident32>)
    requires
        list@.len() <= u32::MAX,
    ensures
        final(buf)@ == old(buf)@ + be32(list@.len() as u32) + idents_concat(list@),
{
    put_u32(buf, list.len() as u32);
    let ghost start = buf@;
    let mut i: usize = 0;
    while i < list.len()
        invariant
            0 <= i <= list@.len(),
            buf@ == start + idents_concat(list@.subrange(0, i as int)),
        decreases list@.len() - i,
    {
        put_bytes32(buf, &list[i].0);
        proof {
            let s = list@.subrange(0, i + 1);
            assert(s.drop_last() =~= list@.subrange(0, i as int));
        }
        i = i + 1;
    }
    assert(list@.subrange(0, list@.len() as int) =~= list@);
}

fn put_addresses(buf: &mut Vec<u8>, list: &Vec<Address>)
    requires
        list@.len() <= u32::MAX,
    ensures
        final(buf)@ == old(buf)@ + be32(list@.len() as u32) + addresses_concat(list@),
{
    put_u32(buf, list.len() as u32);
    let ghost start = buf@;
    let mut i: usize = 0;
    while i < list.len()
        invariant
            0 <= i <= list@.len(),
            buf@ == start + addresses_concat(list@.subrange(0, i as int)),
        decreases list@.len() - i,
    {
        put_bytes32(buf, &list[i].0);
        proof {
            let s = list@.subrange(0, i + 1);
            assert(s.drop_last() =~= list@.subrange(0, i as int));
        }
        i = i + 1;
    }
    assert(list@.subrange(0, list@.len() as int) =~= list@);
}

/// Read `n` addresses at `pos`; also gives the position after them.
fn take_addresses(buf: &[u8], pos: usize, n: u32) -> (r: Option<(Vec<Address>, usize)>)
    ensures
        r matches Some((l, p)) ==> l@.len() == n && at(buf@, pos as int, addresses_concat(l@)) && p == pos + 32 * n
            && addresses_concat(l@).len() == 32 * n,
        r is Some <==> pos + 32 * n <= buf@.len(),
{
    let mut list: Vec<Address> = Vec::new();
    let mut i: u32 = 0;
    let mut p: usize = pos;
    assert(pos <= buf@.len() ==> buf@.subrange(pos as int, pos as int) =~= addresses_concat(list@));
    if pos > buf.len() {
        return None;
    }
    while i < n
        invariant
            0 <= i <= n,
            list@.len() == i,
            p == pos + 32 * i,
            pos + 32 * i <= buf@.len(),
            pos <= buf@.len(),
            at(buf@, pos as int, addresses_concat(list@)),
            addresses_concat(list@).len() == 32 * i,
        decreases n - i,
    {
        let a = match take_address(buf, p) {
            Some(a) => a,
            None => return None,
        };
        assert(buf@.len() == buf.len());
        let ghost before = list@;
        list.push(a);
        proof {
            assert(list@.drop_last() =~= before);
            lemma_at_concat(buf@, pos as int, addresses_concat(before), address_bytes(a));
        }
        i = i + 1;
        p = p + 32;
    }
    Some((list, p))
}

/// Read `n` identifiers at `pos`; also gives the position after them.
fn take_idents(buf: &[u8], pos: usize, n: u32) -> (r: Option<(Vec<Ident32>, usize)>)
    ensures
        r matches Some((l, p)) ==> l@.len() == n && at(buf@, pos as int, idents_concat(l@)) && p == pos + 32 * n
            && idents_concat(l@).len() == 32 * n,
        r is Some <==> pos + 32 * n <= buf@.len(),
{
    let mut list: Vec<Ident32> = Vec::new();
    let mut i: u32 = 0;
    let mut p: usize = pos;
    assert(pos <= buf@.len() ==> buf@.subrange(pos as int, pos as int) =~= idents_concat(list@));
    if pos > buf.len() {
        return None;
    }
    while i < n
        invariant
            0 <= i <= n,
            list@.len() == i,
            p == pos + 32 * i,
            pos + 32 * i <= buf@.len(),
            pos <= buf@.len(),
            at(buf@, pos as int, idents_concat(list@)),
            idents_concat(list@).len() == 32 * i,
        decreases n - i,
    {
        let a = match take_ident(buf, p) {
            Some(a) => a,
            None => return None,
        };
        assert(buf@.len() == buf.len());
        let ghost before = list@;
        list.push(a);
        proof {
            assert(list@.drop_last() =~= before);
            lemma_at_concat(buf@, pos as int, idents_concat(before), ident_bytes(a));
        }
        i = i + 1;
        p = p + 32;
    }
    Some((list, p))
}

/// Read a zero-ended byte string at `pos`; also gives the position after
/// its zero byte.
fn take_cstring(buf: &[u8], pos: usize) -> (r: Option<(Vec<u8>, usize)>)
    ensures
        r matches Some((b, p)) ==> no_nul(b@) && at(buf@, pos as int, cstring_bytes(b@)) && p == pos + b@.len() + 1,
        r is None ==> forall|i: int| pos <= i < buf@.len() ==> buf@[i] != 0,
        r matches Some((b, p)) ==> pos + b@.len() < buf@.len() && buf@[pos + b@.len()] == 0,
{
    if pos > buf.len() {
        return None;
    }
    let mut out: Vec<u8> = Vec::new();
    let mut i: usize = pos;
    while i < buf.len() && buf[i] != 0
        invariant
            pos <= i <= buf@.len(),
            out@ == buf@.subrange(pos as int, i as int),
            no_nul(out@),
        decreases buf@.len() - i,
    {
        out.push(buf[i]);
        assert(out@ =~= buf@.subrange(pos as int, i + 1));
        i = i + 1;
    }
    if i == buf.len() {
        assert forall|k: int| pos <= k < buf@.len() implies buf@[k] != 0 by {
            assert(out@[k - pos] == buf@[k]);
        }
        return None;
    }
    assert(buf@.subrange(pos as int, i + 1) =~= cstring_bytes(out@));
    Some((out, i + 1))
}

impl ServerPing {
    /// Append the answer's bytes.
    pub fn generate(&self, buf: &mut Vec<u8>)
        requires
            ping_wf(*self),
        ensures
            final(buf)@ == old(buf)@ + ping_bytes(*self),
    {
        match self {
            ServerPing::Acknowledged => put_u8(buf, 1),
            ServerPing::Update { available_subscriptions } => {
                put_u8(buf, 2);
                put_idents(buf, available_subscriptions);
                assert(final(buf)@ =~= old(buf)@ + ping_bytes(*self));
            },
            ServerPing::Error(e) => {
                put_u8(buf, 3);
                put_u32(buf, 1);
                let code: u8 = match e {
                    ClientError::InvalidMode => 1,
                    ClientError::MissingField => 2,
                    ClientError::InvalidAuth => 3,
                    ClientError::Unsupported => 4,
                };
                put_u8(buf, code);
                assert(final(buf)@ =~= old(buf)@ + ping_bytes(*self));
            },
            ServerPing::Timeout => put_u8(buf, 4),
            ServerPing::IncompatibleVersion { router, client } => {
                put_u8(buf, 5);
                put_u8(buf, router[0]);
                put_u8(buf, router[1]);
                put_u8(buf, client[0]);
                put_u8(buf, client[1]);
                assert(final(buf)@ =~= old(buf)@ + ping_bytes(*self));
            },
            ServerPing::Subscription { sub_id, sub_bind } => {
                put_u8(buf, 6);
                put_bytes32(buf, &sub_id.0);
                put_slice(buf, sub_bind.as_slice());
                put_u8(buf, 0);
                assert(final(buf)@ =~= old(buf)@ + ping_bytes(*self));
            },
            ServerPing::AddrList(list) => {
                put_u8(buf, 7);
                put_addresses(buf, list);
                assert(final(buf)@ =~= old(buf)@ + ping_bytes(*self));
            },
            ServerPing::SendSocket { socket_bind } => {
                put_u8(buf, 8);
                put_slice(buf, socket_bind.as_slice());
                put_u8(buf, 0);
                assert(final(buf)@ =~= old(buf)@ + ping_bytes(*self));
            },
        }
    }

    /// Read an answer from the start of `buf`; gives the answer and the
    /// number of bytes it took. An unknown type byte, an unknown error code
    /// and bytes that end early are refused.
    pub fn parse(buf: &[u8]) -> (r: Result<(ServerPing, usize), EncodingError>)
        ensures
            r matches Ok((p, n)) ==> ping_wf(p) && at(buf@, 0, ping_bytes(p)) && n == ping_bytes(p).len(),
            buf@.len() == 0 || !(1 <= buf@[0] <= 8) ==> r is Err,
            buf@.len() > 0 && buf@[0] == 1 ==> (r matches Ok((p, n)) && p is Acknowledged),
            buf@.len() > 0 && buf@[0] == 4 ==> (r matches Ok((p, n)) && p is Timeout),
            buf@.len() > 0 && (buf@[0] == 2 || buf@[0] == 7) ==> (r is Ok <==> buf@.len() >= 5
                && 5 + 32 * be32_value(buf@, 1) <= buf@.len()),
            buf@.len() > 0 && buf@[0] == 3 ==> (r is Ok <==> buf@.len() >= 6 && be32_value(buf@, 1) == 1
                && 1 <= buf@[5] <= 4),
            buf@.len() > 0 && buf@[0] == 5 ==> (r is Ok <==> buf@.len() >= 5),
            buf@.len() > 0 && buf@[0] == 6 ==> (r is Ok <==> exists|i: int| 33 <= i < buf@.len() && buf@[i] == 0),
            buf@.len() > 0 && buf@[0] == 8 ==> (r is Ok <==> exists|i: int| 1 <= i < buf@.len() && buf@[i] == 0),
            r matches Err(e) ==> e == EncodingError::Parsing,
    {
        if buf.len() == 0 {
            return Err(EncodingError::Parsing);
        }
        let tag = buf[0];
        let ghost one = seq![tag];
        assert(buf@.subrange(0, 1) =~= one);
        if tag == 1 {
            Ok((ServerPing::Acknowledged, 1))
        } else if tag == 4 {
            Ok((ServerPing::Timeout, 1))
        } else if tag == 2 || tag == 7 {
            let n = match take_u32(buf, 1) {
                Some(n) => n,
                None => return Err(EncodingError::Parsing),
            };
            proof {
                lemma_at_concat(buf@, 0, one, be32(n));
            }
            if tag == 2 {
                let (list, p) = match take_idents(buf, 5, n) {
                    Some(x) => x,
                    None => return Err(EncodingError::Parsing),
                };
                proof {
                    lemma_at_concat(buf@, 0, one + be32(n), idents_concat(list@));
                }
                Ok((ServerPing::Update { available_subscriptions: list }, p))
            } else {
                let (list, p) = match take_addresses(buf, 5, n) {
                    Some(x) => x,
                    None => return Err(EncodingError::Parsing),
                };
                proof {
                    lemma_at_concat(buf@, 0, one + be32(n), addresses_concat(list@));
                }
                Ok((ServerPing::AddrList(list), p))
            }
        } else if tag == 3 {
            match take_u32(buf, 1) {
                Some(1) => {},
                _ => return Err(EncodingError::Parsing),
            }
            if buf.len() < 6 {
                return Err(EncodingError::Parsing);
            }
            let e = if buf[5] == 1 {
                ClientError::InvalidMode
            } else if buf[5] == 2 {
                ClientError::MissingField
            } else if buf[5] == 3 {
                ClientError::InvalidAuth
            } else if buf[5] == 4 {
                ClientError::Unsupported
            } else {
                return Err(EncodingError::Parsing);
            };
            proof {
                assert(buf@.subrange(0, 6) =~= seq![3u8] + be32(1) + seq![error_code(e)]);
            }
            Ok((ServerPing::Error(e), 6))
        } else if tag == 5 {
            if buf.len() < 5 {
                return Err(EncodingError::Parsing);
            }
            let router = [buf[1], buf[2]];
            let client = [buf[3], buf[4]];
            proof {
                assert(buf@.subrange(0, 5) =~= seq![5u8] + router@ + client@);
            }
            Ok((ServerPing::IncompatibleVersion { router, client }, 5))
        } else if tag == 6 {
            let sub_id = match take_ident(buf, 1) {
                Some(i) => i,
                None => return Err(EncodingError::Parsing),
            };
            let (sub_bind, p) = match take_cstring(buf, 33) {
                Some(x) => x,
                None => return Err(EncodingError::Parsing),
            };
            proof {
                lemma_at_concat(buf@, 0, one, ident_bytes(sub_id));
                lemma_at_concat(buf@, 0, one + ident_bytes(sub_id), cstring_bytes(sub_bind@));
            }
            Ok((ServerPing::Subscription { sub_id, sub_bind }, p))
        } else if tag == 8 {
            let (socket_bind, p) = match take_cstring(buf, 1) {
                Some(x) => x,
                None => return Err(EncodingError::Parsing),
            };
            proof {
                lemma_at_concat(buf@, 0, one, cstring_bytes(socket_bind@));
            }
            Ok((ServerPing::SendSocket { socket_bind }, p))
        } else {
            Err(EncodingError::Parsing)
        }
    }
}

/// Two zero-ended byte strings at one place are the same.
proof fn lemma_cstring_unique(s: Seq<u8>, x: Seq<u8>, y: Seq<u8>)
    requires
        no_nul(x),
        no_nul(y),
        at(s, 0, cstring_bytes(x)),
        at(s, 0, cstring_bytes(y)),
    ensures
        x == y,
{
    assert forall|i: int| 0 <= i <= x.len() implies s[i] == cstring_bytes(x)[i] by {
        assert(s.subrange(0, x.len() as int + 1)[i] == cstring_bytes(x)[i]);
    }
    assert forall|i: int| 0 <= i <= y.len() implies s[i] == cstring_bytes(y)[i] by {
        assert(s.subrange(0, y.len() as int + 1)[i] == cstring_bytes(y)[i]);
    }
    if x.len() < y.len() {
        assert(s[x.len() as int] == 0);
        assert(y[x.len() as int] != 0);
    } else if y.len() < x.len() {
        assert(s[y.len() as int] == 0);
        assert(x[y.len() as int] != 0);
    }
    assert forall|i: int| 0 <= i < x.len() implies x[i] == y[i] by {
        assert(s[i] == cstring_bytes(x)[i]);
        assert(s[i] == cstring_bytes(y)[i]);
    }
    assert(x =~= y);
}

/// A zero-ended byte string at the start has its zero byte in the bytes.
proof fn lemma_cstring_found(s: Seq<u8>, x: Seq<u8>)
    requires
        at(s, 0, cstring_bytes(x)),
    ensures
        s[x.len() as int] == 0,
{
    assert(s.subrange(0, x.len() as int + 1)[x.len() as int] == cstring_bytes(x)[x.len() as int]);
}

} // verus!
