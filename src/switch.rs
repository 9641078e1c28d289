//! The frame switch: for each frame received it decides, once per frame
//! ID, whether to learn a route, deliver locally, re-flood, forward to one
//! neighbour, or hold the frame until a route is known.
use vstd::prelude::*;
use crate::envelope::InMemoryEnvelope;
use crate::header::{fields, ANNOUNCE};
use crate::journal::{position_of, seq_hash, seq_num, targets, views, FrameView, Journal};
use crate::routes::{RouteTable, RouteType};
use crate::types::{Address, Ident32, Recipient};

verus! {

/// What the switch decided for a frame; the caller carries it out.
#[derive(Clone, Copy, Debug)]
pub enum SwitchAction {
    /// Already handled once: dropped.
    Drop,
    /// An announcement: the route table learned from it.
    RouteUpdated,
    /// A flooded frame: hand it to the collector, then re-flood it to
    /// every endpoint but neighbour `.1` of endpoint `.0`.
    CollectAndReflood(usize, u16),
    /// Addressed to this router: hand it to the collector.
    Collect,
    /// Forward it to neighbour `.1` of endpoint `.0`.
    Dispatch(usize, u16),
    /// No route to the address yet: the frame waits in the journal.
    Held(Address),
    /// No route, and the frame has no sequence ID to be held under.
    Unroutable(Address),
}

/// An announcement: the announce mode, addressed to no one or broadcast.
pub open spec fn is_announce(modes: u16, recipient: Option<Recipient>) -> bool {
    modes == ANNOUNCE && (recipient is None || recipient == Some(Recipient::Broadcast))
}

/// Handle one frame with ID `frame_id` received from neighbour `neighbour`
/// of endpoint `endpoint` at time `now`. The journal is asked once whether
/// the ID is new; if it is, it is recorded before anything else is decided,
/// so that every re-flood comes after it.
pub fn switch_frame(
    journal: &mut Journal,
    routes: &mut RouteTable,
    env: InMemoryEnvelope,
    frame_id: Ident32,
    endpoint: usize,
    neighbour: u16,
    now: u64,
    bandwidth: u64,
) -> (r: SwitchAction)
    requires
        old(journal).wf(),
    ensures
        final(journal).wf(),
        final(journal).seen() == old(journal).seen().insert(frame_id),
        final(journal).manifests() == old(journal).manifests(),
        final(routes).local() == old(routes).local(),
        final(routes).sessions() == old(routes).sessions(),
        old(journal).seen().contains(frame_id) ==> {
            &&& r == SwitchAction::Drop
            &&& final(journal).seen_list() == old(journal).seen_list()
            &&& final(journal).frames() == old(journal).frames()
            &&& final(routes).entries() == old(routes).entries()
        },
        !old(journal).seen().contains(frame_id) ==> ({
            let h = fields(env.header);
            match h.recipient {
                Some(Recipient::Target(a)) => {
                    &&& final(routes).entries() == old(routes).entries()
                    &&& old(routes).local().contains(a) ==> r == SwitchAction::Collect
                    &&& !old(routes).local().contains(a) ==> match r {
                        SwitchAction::Dispatch(e, n) => old(routes).best_route(a, e, n)
                            && old(routes).sessions().contains((e, n)),
                        SwitchAction::Held(b) => b == a && old(routes).no_route(a) && h.seq_id is Some
                            && match position_of(old(journal).frames(), seq_hash(env@), seq_num(env@)) {
                                Some(i) => final(journal).frames() == old(journal).frames().update(i, env@),
                                None => final(journal).frames() == old(journal).frames().push(env@),
                            },
                        SwitchAction::Unroutable(b) => b == a && old(routes).no_route(a) && h.seq_id is None,
                        _ => false,
                    }
                    &&& !(r is Held) ==> final(journal).frames() == old(journal).frames()
                },
                _ => {
                    &&& final(journal).frames() == old(journal).frames()
                    &&& is_announce(h.modes, h.recipient) ==> r == SwitchAction::RouteUpdated
                        && final(routes).entries() == RouteTable::updated(
                        old(routes).entries(),
                        h.sender,
                        endpoint,
                        neighbour,
                        0,
                        now,
                        bandwidth,
                    )
                    &&& !is_announce(h.modes, h.recipient) ==> r == SwitchAction::CollectAndReflood(
                        endpoint,
                        neighbour,
                    ) && final(routes).entries() == old(routes).entries()
                },
            }
        }),
{
    if !journal.is_unknown(&frame_id) {
        journal.save_as_known(&frame_id);
        return SwitchAction::Drop;
    }
    journal.save_as_known(&frame_id);
    let recipient = env.header.get_recipient();
    match recipient {
        Some(Recipient::Target(a)) => {
            if routes.is_local(&a) {
                return SwitchAction::Collect;
            }
            match routes.reachable(&a) {
                Some(RouteType::Local) => SwitchAction::Collect,
                Some(RouteType::Remote(e, n)) => SwitchAction::Dispatch(e, n),
                None => {
                    if env.header.get_seq_id().is_some() {
                        journal.queue_frame(env);
                        SwitchAction::Held(a)
                    } else {
                        SwitchAction::Unroutable(a)
                    }
                },
            }
        },
        _ => {
            if env.header.get_modes() == ANNOUNCE && !matches!(recipient, Some(Recipient::Namespace(_))) {
                let sender = env.header.get_sender();
                routes.update(sender, endpoint, neighbour, 0, now, bandwidth);
                SwitchAction::RouteUpdated
            } else {
                SwitchAction::CollectAndReflood(endpoint, neighbour)
            }
        },
    }
}

/// A link to one neighbour over one endpoint, with the state of its
/// outgoing buffer.
#[derive(Clone, Copy, Debug, PartialEq, Eq, Structural)]
pub struct Edge {
    pub endpoint: usize,
    pub neighbour: u16,
    pub buffer_full: bool,
}

/// A flooded frame goes out on this edge: not the one it came in on, and
/// not one whose outgoing buffer is full.
pub open spec fn floods_to(e: Edge, endpoint: usize, neighbour: u16) -> bool {
    !(e.endpoint == endpoint && e.neighbour == neighbour) && !e.buffer_full
}

/// The edges to re-flood a frame on that came in from neighbour
/// `neighbour` of endpoint `endpoint`, in the given order.
pub fn reflood_targets(edges: &Vec<Edge>, endpoint: usize, neighbour: u16) -> (r: Vec<Edge>)
    ensures
        r@ == edges@.filter(|e: Edge| floods_to(e, endpoint, neighbour)),
{
    let ghost pick = |e: Edge| floods_to(e, endpoint, neighbour);
    let mut out: Vec<Edge> = Vec::new();
    let mut i: usize = 0;
    while i < edges.len()
        invariant
            0 <= i <= edges@.len(),
            pick == (|e: Edge| floods_to(e, endpoint, neighbour)),
            out@ == edges@.subrange(0, i as int).filter(pick),
        decreases edges@.len() - i,
    {
        let e = edges[i];
        proof {
            assert(edges@.subrange(0, i + 1) =~= edges@.subrange(0, i as int).push(e));
            edges@.subrange(0, i as int).lemma_filter_push(e, pick);
        }
        if !(e.endpoint == endpoint && e.neighbour == neighbour) && !e.buffer_full {
            out.push(e);
        }
        i = i + 1;
    }
    assert(edges@.subrange(0, edges@.len() as int) =~= edges@);
    out
}

/// The frames of a list of frames paired with the edge to send each on.
pub open spec fn sent_views(r: Seq<(InMemoryEnvelope, usize, u16)>) -> Seq<FrameView> {
    r.map_values(|t: (InMemoryEnvelope, usize, u16)| t.0@)
}

/// Once a route to `addr` is known, take the frames waiting for it out of
/// the journal, oldest first, each with the edge that the route table
/// picks. When `addr` is local or has no usable route, nothing leaves the
/// journal. A frame whose send fails goes back with `queue_frame`.
pub fn drain_pending(journal: &mut Journal, routes: &RouteTable, addr: &Address) -> (r: Vec<(InMemoryEnvelope, usize, u16)>)
    requires
        old(journal).wf(),
    ensures
        final(journal).wf(),
        final(journal).seen() == old(journal).seen(),
        final(journal).manifests() == old(journal).manifests(),
        (routes.local().contains(*addr) || routes.no_route(*addr)) ==> r@.len() == 0
            && final(journal).frames() == old(journal).frames(),
        !(routes.local().contains(*addr) || routes.no_route(*addr)) ==> exists|e: usize, n: u16| {
            &&& #[trigger] routes.best_route(*addr, e, n)
            &&& forall|i: int| 0 <= i < r@.len() ==> (#[trigger] r@[i]).1 == e && r@[i].2 == n
            &&& sent_views(r@) == old(journal).frames().filter(|f: FrameView| targets(f, *addr))
            &&& final(journal).frames() == old(journal).frames().filter(|f: FrameView| !targets(f, *addr))
        },
{
    match routes.reachable(addr) {
        Some(RouteType::Remote(e, n)) => {
            let taken = journal.take_pending_to(addr);
            let mut out: Vec<(InMemoryEnvelope, usize, u16)> = Vec::new();
            let mut i: usize = 0;
            while i < taken.len()
                invariant
                    0 <= i <= taken@.len(),
                    out@.len() == i,
                    forall|a: int| 0 <= a < i ==> (#[trigger] out@[a]).1 == e && out@[a].2 == n,
                    sent_views(out@) == views(taken@).subrange(0, i as int),
                decreases taken@.len() - i,
            {
                out.push((taken[i].copy(), e, n));
                assert(sent_views(out@) =~= views(taken@).subrange(0, i + 1));
                i = i + 1;
            }
            assert(views(taken@).subrange(0, taken@.len() as int) =~= views(taken@));
            out
        },
        _ => Vec::new(),
    }
}

} // verus!
