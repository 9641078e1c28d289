//! The route table: which neighbour, over which endpoint, leads to an
//! address, learned from announcements and scored by hop count, freshness
//! and bandwidth. Only entries over a live peering session are offered.
use vstd::prelude::*;
use crate::types::Address;

verus! {

/// One way to reach an address.
#[derive(Clone, Copy, Debug)]
pub struct RouteEntry {
    pub address: Address,
    /// The endpoint (transport driver) the neighbour sits behind.
    pub endpoint: usize,
    /// The neighbour within that endpoint.
    pub neighbour: u16,
    pub hop_count: u8,
    /// Time of the last announcement that refreshed this entry, in seconds.
    pub last_seen: u64,
    /// Bandwidth estimate of the link.
    pub bandwidth: u64,
    /// Loaded from storage and not refreshed since.
    pub stale: bool,
}

/// Where an address is.
#[derive(Clone, Copy, Debug, PartialEq, Eq, Structural)]
pub enum RouteType {
    /// On this router.
    Local,
    /// Behind neighbour `.1` of endpoint `.0`.
    Remote(usize, u16),
}

/// `a` is preferred to `b`: fewer hops, then seen more recently, then more
/// bandwidth.
pub open spec fn better(a: RouteEntry, b: RouteEntry) -> bool {
    ||| a.hop_count < b.hop_count
    ||| a.hop_count == b.hop_count && a.last_seen > b.last_seen
    ||| a.hop_count == b.hop_count && a.last_seen == b.last_seen && a.bandwidth > b.bandwidth
}

/// The first entry for `addr` over neighbour `neighbour` of `endpoint`.
pub open spec fn first_route(s: Seq<RouteEntry>, addr: Address, endpoint: usize, neighbour: u16) -> Option<int> {
    if exists|i: int| 0 <= i < s.len() && same_route(s[i], addr, endpoint, neighbour) {
        Some(choose|i: int| 0 <= i < s.len() && same_route(s[i], addr, endpoint, neighbour)
            && forall|j: int| 0 <= j < i ==> !same_route(#[trigger] s[j], addr, endpoint, neighbour))
    } else {
        None
    }
}

/// The entry is for `addr` over neighbour `neighbour` of `endpoint`.
pub open spec fn same_route(e: RouteEntry, addr: Address, endpoint: usize, neighbour: u16) -> bool {
    e.address == addr && e.endpoint == endpoint && e.neighbour == neighbour
}

/// The entry was last refreshed more than `ttl` seconds before `now`.
pub open spec fn expired(e: RouteEntry, now: u64, ttl: u64) -> bool {
    e.last_seen < now && now - e.last_seen > ttl
}

/// One more hop, saturating at the largest count.
pub open spec fn next_hop(hop_count: u8) -> u8 {
    if hop_count == u8::MAX {
        u8::MAX
    } else {
        (hop_count + 1) as u8
    }
}

/// The table: local addresses, learned entries and live sessions.
pub struct RouteTable {
    local: Vec<Address>,
    entries: Vec<RouteEntry>,
    sessions: Vec<(usize, u16)>,
}

impl RouteTable {
    pub closed spec fn local(&self) -> Set<Address> {
        Set::new(|a: Address| self.local@.contains(a))
    }

    pub closed spec fn entries(&self) -> Seq<RouteEntry> {
        self.entries@
    }

    pub closed spec fn sessions(&self) -> Set<(usize, u16)> {
        Set::new(|s: (usize, u16)| self.sessions@.contains(s))
    }

    /// An entry that a lookup of `addr` may return: for that address, not
    /// stale, over a live session.
    pub open spec fn usable(&self, e: RouteEntry, addr: Address) -> bool {
        e.address == addr && !e.stale && self.sessions().contains((e.endpoint, e.neighbour))
    }

    /// No usable entry for `addr`.
    pub open spec fn no_route(&self, addr: Address) -> bool {
        forall|i: int| 0 <= i < self.entries().len() ==> !self.usable(#[trigger] self.entries()[i], addr)
    }

    /// Entry `i` is the one a lookup of `addr` picks: usable, no usable
    /// entry is preferred to it, and it is preferred to every usable entry
    /// before it (ties go to the earliest entry).
    pub open spec fn best_index(&self, addr: Address, i: int) -> bool {
        &&& 0 <= i < self.entries().len()
        &&& self.usable(self.entries()[i], addr)
        &&& forall|j: int| 0 <= j < self.entries().len() && self.usable(#[trigger] self.entries()[j], addr)
            ==> !better(self.entries()[j], self.entries()[i])
        &&& forall|j: int| 0 <= j < i && self.usable(#[trigger] self.entries()[j], addr)
            ==> better(self.entries()[i], self.entries()[j])
    }

    /// Neighbour `n` of endpoint `e` is behind the entry a lookup of `addr`
    /// picks.
    pub open spec fn best_route(&self, addr: Address, e: usize, n: u16) -> bool {
        exists|i: int| #[trigger] self.best_index(addr, i)
            && self.entries()[i].endpoint == e && self.entries()[i].neighbour == n
    }

    /// What `update` makes of the entries.
    pub open spec fn updated(
        old_entries: Seq<RouteEntry>,
        addr: Address,
        endpoint: usize,
        neighbour: u16,
        hop_count: u8,
        now: u64,
        bandwidth: u64,
    ) -> Seq<RouteEntry> {
        let e = RouteEntry {
            address: addr,
            endpoint,
            neighbour,
            hop_count: next_hop(hop_count),
            last_seen: now,
            bandwidth,
            stale: false,
        };
        match first_route(old_entries, addr, endpoint, neighbour) {
            Some(i) => old_entries.update(i, e),
            None => old_entries.push(e),
        }
    }

    /// An empty table.
    pub fn new() -> (r: Self)
        ensures
            r.local() == Set::<Address>::empty(),
            r.entries() == Seq::<RouteEntry>::empty(),
            r.sessions() == Set::<(usize, u16)>::empty(),
    {
        let r = RouteTable { local: Vec::new(), entries: Vec::new(), sessions: Vec::new() };
        assert(r.local() =~= Set::<Address>::empty());
        assert(r.sessions() =~= Set::<(usize, u16)>::empty());
        r
    }

    /// True when `addr` is one of this router's addresses.
    pub fn is_local(&self, addr: &Address) -> (r: bool)
        ensures
            r == self.local().contains(*addr),
    {
        let mut i: usize = 0;
        while i < self.local.len()
            invariant
                0 <= i <= self.local@.len(),
                forall|j: int| 0 <= j < i ==> self.local@[j] != *addr,
            decreases self.local@.len() - i,
        {
            if self.local[i] == *addr {
                assert(self.local@.contains(self.local@[i as int]));
                return true;
            }
            i = i + 1;
        }
        false
    }

    /// Make `addr` one of this router's addresses.
    pub fn add_local(&mut self, addr: Address)
        ensures
            final(self).local() == old(self).local().insert(addr),
            final(self).entries() == old(self).entries(),
            final(self).sessions() == old(self).sessions(),
    {
        if !self.is_local(&addr) {
            self.local.push(addr);
            assert forall|x: Address| self.local@.contains(x) <==> (old(self).local@.contains(x) || x == addr) by {
                if old(self).local@.contains(x) {
                    let k = choose|k: int| 0 <= k < old(self).local@.len() && old(self).local@[k] == x;
                    assert(self.local@[k] == x);
                }
                if x == addr {
                    assert(self.local@[self.local@.len() - 1] == x);
                }
                if self.local@.contains(x) && x != addr {
                    let k = choose|k: int| 0 <= k < self.local@.len() && self.local@[k] == x;
                    assert(old(self).local@[k] == x);
                }
            }
        }
        assert(self.local() =~= old(self).local().insert(addr));
        assert(self.sessions() =~= old(self).sessions());
    }

    /// True when a session to neighbour `neighbour` of `endpoint` is live.
    pub fn has_session(&self, endpoint: usize, neighbour: u16) -> (r: bool)
        ensures
            r == self.sessions().contains((endpoint, neighbour)),
    {
        let mut i: usize = 0;
        while i < self.sessions.len()
            invariant
                0 <= i <= self.sessions@.len(),
                forall|j: int| 0 <= j < i ==> self.sessions@[j] != (endpoint, neighbour),
            decreases self.sessions@.len() - i,
        {
            let (e, n) = self.sessions[i];
            if e == endpoint && n == neighbour {
                assert(self.sessions@.contains(self.sessions@[i as int]));
                return true;
            }
            i = i + 1;
        }
        false
    }

    /// A session to neighbour `neighbour` of `endpoint` is now live.
    pub fn add_session(&mut self, endpoint: usize, neighbour: u16)
        ensures
            final(self).sessions() == old(self).sessions().insert((endpoint, neighbour)),
            final(self).local() == old(self).local(),
            final(self).entries() == old(self).entries(),
    {
        if !self.has_session(endpoint, neighbour) {
            self.sessions.push((endpoint, neighbour));
            let s = (endpoint, neighbour);
            assert forall|x: (usize, u16)| self.sessions@.contains(x) <==> (old(self).sessions@.contains(x) || x == s) by {
                if old(self).sessions@.contains(x) {
                    let k = choose|k: int| 0 <= k < old(self).sessions@.len() && old(self).sessions@[k] == x;
                    assert(self.sessions@[k] == x);
                }
                if x == s {
                    assert(self.sessions@[self.sessions@.len() - 1] == x);
                }
                if self.sessions@.contains(x) && x != s {
                    let k = choose|k: int| 0 <= k < self.sessions@.len() && self.sessions@[k] == x;
                    assert(old(self).sessions@[k] == x);
                }
            }
        }
        assert(self.sessions() =~= old(self).sessions().insert((endpoint, neighbour)));
        assert(self.local() =~= old(self).local());
    }

    /// The session to neighbour `neighbour` of `endpoint` has ended: it is
    /// no longer live, and the entries learned over it are dropped.
    pub fn remove_session(&mut self, endpoint: usize, neighbour: u16)
        ensures
            final(self).sessions() == old(self).sessions().remove((endpoint, neighbour)),
            final(self).local() == old(self).local(),
            final(self).entries() == old(self).entries().filter(
                |e: RouteEntry| !(e.endpoint == endpoint && e.neighbour == neighbour),
            ),
    {
        let ghost keep_s = |x: (usize, u16)| x != (endpoint, neighbour);
        let ghost keep_e = |e: RouteEntry| !(e.endpoint == endpoint && e.neighbour == neighbour);
        let mut sessions: Vec<(usize, u16)> = Vec::new();
        let mut i: usize = 0;
        while i < self.sessions.len()
            invariant
                0 <= i <= self.sessions@.len(),
                self.sessions@ == old(self).sessions@,
                keep_s == (|x: (usize, u16)| x != (endpoint, neighbour)),
                sessions@ == self.sessions@.subrange(0, i as int).filter(keep_s),
            decreases self.sessions@.len() - i,
        {
            let (e, n) = self.sessions[i];
            proof {
                assert(self.sessions@.subrange(0, i + 1) =~= self.sessions@.subrange(0, i as int).push(self.sessions@[i as int]));
                self.sessions@.subrange(0, i as int).lemma_filter_push(self.sessions@[i as int], keep_s);
            }
            if !(e == endpoint && n == neighbour) {
                sessions.push((e, n));
            }
            i = i + 1;
        }
        let mut entries: Vec<RouteEntry> = Vec::new();
        let mut j: usize = 0;
        while j < self.entries.len()
            invariant
                0 <= j <= self.entries@.len(),
                self.entries@ == old(self).entries@,
                keep_e == (|e: RouteEntry| !(e.endpoint == endpoint && e.neighbour == neighbour)),
                entries@ == self.entries@.subrange(0, j as int).filter(keep_e),
            decreases self.entries@.len() - j,
        {
            let e = self.entries[j];
            proof {
                assert(self.entries@.subrange(0, j + 1) =~= self.entries@.subrange(0, j as int).push(self.entries@[j as int]));
                self.entries@.subrange(0, j as int).lemma_filter_push(self.entries@[j as int], keep_e);
            }
            if !(e.endpoint == endpoint && e.neighbour == neighbour) {
                entries.push(e);
            }
            j = j + 1;
        }
        proof {
            assert(self.sessions@.subrange(0, self.sessions@.len() as int) =~= self.sessions@);
            assert(self.entries@.subrange(0, self.entries@.len() as int) =~= self.entries@);
            let old_s = old(self).sessions@;
            assert forall|x: (usize, u16)| sessions@.contains(x) <==> (old_s.contains(x) && x != (endpoint, neighbour)) by {
                if old_s.contains(x) && x != (endpoint, neighbour) {
                    let k = choose|k: int| 0 <= k < old_s.len() && old_s[k] == x;
                    old_s.lemma_filter_contains(keep_s, k);
                }
                if sessions@.contains(x) {
                    old_s.lemma_filter_contains_rev(keep_s, x);
                    let k = choose|k: int| 0 <= k < sessions@.len() && sessions@[k] == x;
                    old_s.lemma_filter_pred(keep_s, k);
                }
            }
        }
        self.sessions = sessions;
        self.entries = entries;
        assert(self.sessions() =~= old(self).sessions().remove((endpoint, neighbour)));
    }

    /// Learn from an announcement of `addr` received from neighbour
    /// `neighbour` of `endpoint` that had travelled `hop_count` hops: the
    /// entry over that neighbour is refreshed, or added last.
    pub fn update(
        &mut self,
        addr: Address,
        endpoint: usize,
        neighbour: u16,
        hop_count: u8,
        now: u64,
        bandwidth: u64,
    )
        ensures
            final(self).entries() == RouteTable::updated(
                old(self).entries(),
                addr,
                endpoint,
                neighbour,
                hop_count,
                now,
                bandwidth,
            ),
            final(self).local() == old(self).local(),
            final(self).sessions() == old(self).sessions(),
    {
        let hop = if hop_count == 255 { 255 } else { hop_count + 1 };
        let e = RouteEntry {
            address: addr,
            endpoint,
            neighbour,
            hop_count: hop,
            last_seen: now,
            bandwidth,
            stale: false,
        };
        let mut i: usize = 0;
        while i < self.entries.len()
            invariant
                0 <= i <= self.entries@.len(),
                self.entries@ == old(self).entries@,
                self.local@ == old(self).local@,
                self.sessions@ == old(self).sessions@,
                e == (RouteEntry {
                    address: addr,
                    endpoint,
                    neighbour,
                    hop_count: next_hop(hop_count),
                    last_seen: now,
                    bandwidth,
                    stale: false,
                }),
                forall|j: int| 0 <= j < i ==> !same_route(#[trigger] self.entries@[j], addr, endpoint, neighbour),
            decreases self.entries@.len() - i,
        {
            let x = self.entries[i];
            if x.address == addr && x.endpoint == endpoint && x.neighbour == neighbour {
                proof {
                    let s = old(self).entries@;
                    assert(same_route(s[i as int], addr, endpoint, neighbour));
                    let p = |k: int| 0 <= k < s.len() && same_route(s[k], addr, endpoint, neighbour)
                        && forall|j: int| 0 <= j < k ==> !same_route(#[trigger] s[j], addr, endpoint, neighbour);
                    assert(p(i as int));
                    let k = choose|k: int| 0 <= k < s.len() && same_route(s[k], addr, endpoint, neighbour)
                        && forall|j: int| 0 <= j < k ==> !same_route(#[trigger] s[j], addr, endpoint, neighbour);
                    assert(first_route(s, addr, endpoint, neighbour) == Some(k));
                    if k < i {
                        assert(!same_route(s[k], addr, endpoint, neighbour));
                    }
                    if k > i {
                        assert(!same_route(s[i as int], addr, endpoint, neighbour));
                    }
                    assert(k == i);
                }
                self.entries.set(i, e);
                return;
            }
            i = i + 1;
        }
        self.entries.push(e);
    }

    /// Load an entry from storage: it is kept stale, and so not offered,
    /// until an announcement refreshes it.
    pub fn seed(&mut self, e: RouteEntry)
        ensures
            final(self).entries() == old(self).entries().push(RouteEntry { stale: true, ..e }),
            final(self).local() == old(self).local(),
            final(self).sessions() == old(self).sessions(),
    {
        self.entries.push(RouteEntry { stale: true, ..e });
    }

    /// Some entry is for `addr`.
    pub open spec fn known(&self, addr: Address) -> bool {
        exists|i: int| 0 <= i < self.entries().len() && (#[trigger] self.entries()[i]).address == addr
    }

    /// The addresses the table has entries for, each once, in the order
    /// they were first learned.
    pub fn known_addresses(&self) -> (r: Vec<Address>)
        ensures
            forall|a: Address| r@.contains(a) <==> self.known(a),
            forall|i: int, j: int| 0 <= i < j < r@.len() ==> r@[i] != r@[j],
    {
        let mut out: Vec<Address> = Vec::new();
        let mut i: usize = 0;
        while i < self.entries.len()
            invariant
                0 <= i <= self.entries@.len(),
                forall|a: Address| out@.contains(a) <==> exists|k: int| 0 <= k < i && (#[trigger] self.entries@[k]).address == a,
                forall|x: int, y: int| 0 <= x < y < out@.len() ==> out@[x] != out@[y],
            decreases self.entries@.len() - i,
        {
            let a = self.entries[i].address;
            let mut k: usize = 0;
            let mut seen = false;
            while k < out.len()
                invariant
                    0 <= k <= out@.len(),
                    !seen ==> forall|x: int| 0 <= x < k ==> out@[x] != a,
                    seen ==> out@.contains(a),
                decreases out@.len() - k,
            {
                if out[k] == a {
                    seen = true;
                    assert(out@[k as int] == a);
                }
                k = k + 1;
            }
            if !seen {
                let ghost before = out@;
                out.push(a);
                proof {
                    assert forall|b: Address| out@.contains(b) <==> exists|m: int| 0 <= m < i + 1 && (#[trigger] self.entries@[m]).address == b by {
                        if out@.contains(b) {
                            let x = choose|x: int| 0 <= x < out@.len() && out@[x] == b;
                            if x < before.len() {
                                assert(before[x] == b);
                                assert(before.contains(b));
                            } else {
                                assert(self.entries@[i as int].address == b);
                            }
                        }
                        if exists|m: int| 0 <= m < i + 1 && (#[trigger] self.entries@[m]).address == b {
                            let m = choose|m: int| 0 <= m < i + 1 && (#[trigger] self.entries@[m]).address == b;
                            if m < i {
                                assert(before.contains(b));
                                let x = choose|x: int| 0 <= x < before.len() && before[x] == b;
                                assert(out@[x] == b);
                            } else {
                                assert(out@[before.len() as int] == b);
                            }
                        }
                    }
                }
            } else {
                proof {
                    assert forall|b: Address| out@.contains(b) <==> exists|m: int| 0 <= m < i + 1 && (#[trigger] self.entries@[m]).address == b by {
                        if exists|m: int| 0 <= m < i + 1 && (#[trigger] self.entries@[m]).address == b {
                            let m = choose|m: int| 0 <= m < i + 1 && (#[trigger] self.entries@[m]).address == b;
                            if m == i {
                                assert(b == a);
                            }
                        }
                    }
                }
            }
            i = i + 1;
        }
        proof {
            assert forall|b: Address| out@.contains(b) <==> self.known(b) by {
                if out@.contains(b) {
                    let k = choose|k: int| 0 <= k < self.entries@.len() && (#[trigger] self.entries@[k]).address == b;
                    assert(self.entries()[k].address == b);
                }
                if self.known(b) {
                    let m = choose|m: int| 0 <= m < self.entries().len() && (#[trigger] self.entries()[m]).address == b;
                    assert(self.entries@[m].address == b);
                }
            }
        }
        out
    }

    /// True when some entry is for `addr`.
    pub fn is_known(&self, addr: &Address) -> (r: bool)
        ensures
            r == self.known(*addr),
    {
        let mut i: usize = 0;
        while i < self.entries.len()
            invariant
                0 <= i <= self.entries@.len(),
                forall|k: int| 0 <= k < i ==> (#[trigger] self.entries@[k]).address != *addr,
            decreases self.entries@.len() - i,
        {
            if self.entries[i].address == *addr {
                assert(self.entries()[i as int].address == *addr);
                return true;
            }
            i = i + 1;
        }
        false
    }

    /// Where `addr` is: here when it is a local address; otherwise behind
    /// the best usable entry for it, if there is one.
    pub fn reachable(&self, addr: &Address) -> (r: Option<RouteType>)
        ensures
            self.local().contains(*addr) ==> r == Some(RouteType::Local),
            !self.local().contains(*addr) ==> match r {
                None => self.no_route(*addr),
                Some(RouteType::Local) => false,
                Some(RouteType::Remote(e, n)) => self.best_route(*addr, e, n),
            },
            r matches Some(RouteType::Remote(e, n)) ==> self.sessions().contains((e, n)),
    {
        if self.is_local(addr) {
            return Some(RouteType::Local);
        }
        let mut best: Option<usize> = None;
        let mut i: usize = 0;
        while i < self.entries.len()
            invariant
                0 <= i <= self.entries@.len(),
                match best {
                    None => forall|j: int| 0 <= j < i ==> !self.usable(#[trigger] self.entries@[j], *addr),
                    Some(b) => b < i && self.usable(self.entries@[b as int], *addr)
                        && (forall|j: int| 0 <= j < i && self.usable(#[trigger] self.entries@[j], *addr)
                            ==> !better(self.entries@[j], self.entries@[b as int]))
                        && (forall|j: int| 0 <= j < b && self.usable(#[trigger] self.entries@[j], *addr)
                            ==> better(self.entries@[b as int], self.entries@[j])),
                },
            decreases self.entries@.len() - i,
        {
            let x = self.entries[i];
            if x.address == *addr && !x.stale && self.has_session(x.endpoint, x.neighbour) {
                match best {
                    None => {
                        best = Some(i);
                    },
                    Some(b) => {
                        let y = self.entries[b];
                        let x_better = x.hop_count < y.hop_count || (x.hop_count == y.hop_count
                            && x.last_seen > y.last_seen) || (x.hop_count == y.hop_count
                            && x.last_seen == y.last_seen && x.bandwidth > y.bandwidth);
                        if x_better {
                            best = Some(i);
                        }
                    },
                }
            }
            i = i + 1;
        }
        match best {
            None => None,
            Some(b) => {
                let x = self.entries[b];
                assert(self.entries()[b as int] == x);
                assert(self.best_index(*addr, b as int));
                Some(RouteType::Remote(x.endpoint, x.neighbour))
            },
        }
    }

    /// Drop the entries last refreshed more than `ttl` seconds before
    /// `now`; the others keep their order.
    pub fn expire(&mut self, now: u64, ttl: u64)
        ensures
            final(self).entries() == old(self).entries().filter(|e: RouteEntry| !expired(e, now, ttl)),
            final(self).local() == old(self).local(),
            final(self).sessions() == old(self).sessions(),
    {
        let ghost keep = |e: RouteEntry| !expired(e, now, ttl);
        let mut entries: Vec<RouteEntry> = Vec::new();
        let mut j: usize = 0;
        while j < self.entries.len()
            invariant
                0 <= j <= self.entries@.len(),
                self.entries@ == old(self).entries@,
                keep == (|e: RouteEntry| !expired(e, now, ttl)),
                entries@ == self.entries@.subrange(0, j as int).filter(keep),
            decreases self.entries@.len() - j,
        {
            let e = self.entries[j];
            proof {
                assert(self.entries@.subrange(0, j + 1) =~= self.entries@.subrange(0, j as int).push(self.entries@[j as int]));
                self.entries@.subrange(0, j as int).lemma_filter_push(self.entries@[j as int], keep);
            }
            if !(e.last_seen < now && now - e.last_seen > ttl) {
                entries.push(e);
            }
            j = j + 1;
        }
        assert(self.entries@.subrange(0, self.entries@.len() as int) =~= self.entries@);
        self.entries = entries;
    }
}

/// A lookup has one answer: only one entry can be the one it picks, so
/// every best route of an address is the same neighbour.
pub proof fn lemma_best_route_unique(t: RouteTable, addr: Address, e1: usize, n1: u16, e2: usize, n2: u16)
    requires
        t.best_route(addr, e1, n1),
        t.best_route(addr, e2, n2),
    ensures
        e1 == e2 && n1 == n2,
{
    let i1 = choose|i: int| #[trigger] t.best_index(addr, i) && t.entries()[i].endpoint == e1
        && t.entries()[i].neighbour == n1;
    let i2 = choose|i: int| #[trigger] t.best_index(addr, i) && t.entries()[i].endpoint == e2
        && t.entries()[i].neighbour == n2;
    if i1 < i2 {
        assert(better(t.entries()[i2], t.entries()[i1]));
    } else if i2 < i1 {
        assert(better(t.entries()[i1], t.entries()[i2]));
    }
}

} // verus!
