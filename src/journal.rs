//! The journal's in-memory state: the set of frame IDs already handled,
//! and carrier frames held until their recipient becomes reachable.
//! Persisting it is left to the caller.
use vstd::prelude::*;
use crate::codec::put_slice;
use crate::envelope::InMemoryEnvelope;
use crate::header::{fields, CarrierFrameHeader};
use crate::types::{Address, Ident32, Recipient};

verus! {

/// A frame as the journal sees it: its header and its bytes.
pub type FrameView = (CarrierFrameHeader, Seq<u8>);

/// The sequence hash of a frame that has a sequence ID.
pub open spec fn seq_hash(f: FrameView) -> Ident32 {
    fields(f.0).seq_id->0.hash
}

/// The number within its sequence of a frame that has a sequence ID.
pub open spec fn seq_num(f: FrameView) -> u32 {
    fields(f.0).seq_id->0.num
}

/// The frame is addressed to `addr`.
pub open spec fn targets(f: FrameView, addr: Address) -> bool {
    fields(f.0).recipient == Some(Recipient::Target(addr))
}

/// The frames of a list of envelopes.
pub open spec fn views(s: Seq<InMemoryEnvelope>) -> Seq<FrameView> {
    s.map_values(|e: InMemoryEnvelope| e@)
}

/// The first position in `s` of a frame with this hash and number.
pub open spec fn position_of(s: Seq<FrameView>, hash: Ident32, num: u32) -> Option<int> {
    if exists|i: int| 0 <= i < s.len() && seq_hash(s[i]) == hash && seq_num(s[i]) == num {
        Some(choose|i: int| 0 <= i < s.len() && seq_hash(s[i]) == hash && seq_num(s[i]) == num)
    } else {
        None
    }
}

/// Every frame has a sequence ID, and no two share a hash and a number.
pub open spec fn frames_wf(s: Seq<FrameView>) -> bool {
    &&& forall|i: int| 0 <= i < s.len() ==> (#[trigger] fields(s[i].0)).seq_id is Some
    &&& forall|i: int, j: int|
        0 <= i < s.len() && 0 <= j < s.len() && i != j && seq_hash(#[trigger] s[i]) == seq_hash(#[trigger] s[j])
            ==> seq_num(s[i]) != seq_num(s[j])
}

pub proof fn lemma_insert_to_set<A>(s: Seq<A>, k: int, x: A)
    requires
        0 <= k <= s.len(),
    ensures
        s.insert(k, x).to_set() == s.to_set().insert(x),
{
    let t = s.insert(k, x);
    assert forall|y: A| t.contains(y) <==> (s.contains(y) || y == x) by {
        if t.contains(y) {
            let a = choose|a: int| 0 <= a < t.len() && t[a] == y;
            if a < k {
                assert(s[a] == y);
            } else if a > k {
                assert(s[a - 1] == y);
            }
        }
        if s.contains(y) {
            let a = choose|a: int| 0 <= a < s.len() && s[a] == y;
            if a < k {
                assert(t[a] == y);
            } else {
                assert(t[a + 1] == y);
            }
        }
        if y == x {
            assert(t[k] == y);
        }
    }
    assert(t.to_set() =~= s.to_set().insert(x));
}

/// Total bytes of the frames.
pub open spec fn total_bytes(s: Seq<FrameView>) -> nat
    decreases s.len(),
{
    if s.len() == 0 {
        0
    } else {
        total_bytes(s.drop_last()) + s.last().1.len()
    }
}

/// The frames left when, oldest first, frames of sequences without a
/// manifest are dropped while the bytes still to free, `excess`, are more
/// than zero; each dropped frame frees its own bytes.
pub open spec fn gc_keep(s: Seq<FrameView>, manifested: Set<Ident32>, excess: int) -> Seq<FrameView>
    decreases s.len(),
{
    if s.len() == 0 {
        s
    } else if excess > 0 && !manifested.contains(seq_hash(s[0])) {
        gc_keep(s.drop_first(), manifested, excess - s[0].1.len())
    } else {
        seq![s[0]] + gc_keep(s.drop_first(), manifested, excess)
    }
}

proof fn lemma_gc_keep_nothing_due(s: Seq<FrameView>, m: Set<Ident32>, excess: int)
    requires
        excess <= 0,
    ensures
        gc_keep(s, m, excess) == s,
    decreases s.len(),
{
    if s.len() > 0 {
        lemma_gc_keep_nothing_due(s.drop_first(), m, excess);
        assert(seq![s[0]] + s.drop_first() =~= s);
    }
}

/// A stream manifest held for a sequence: who sent it, to whom, the
/// manifest bytes, and whether it was passed on.
#[derive(Clone, Debug)]
pub struct ManifestData {
    pub hash: Ident32,
    pub sender: Address,
    pub recipient: Recipient,
    pub manifest: Vec<u8>,
    pub forwarded: bool,
}

/// A manifest record as the journal sees it.
pub type ManifestView = (Ident32, Address, Recipient, Seq<u8>, bool);

/// The view of a manifest record.
pub open spec fn manifest_view(m: ManifestData) -> ManifestView {
    (m.hash, m.sender, m.recipient, m.manifest@, m.forwarded)
}

/// The first position of the record of sequence `hash`.
pub open spec fn manifest_position(s: Seq<ManifestView>, hash: Ident32) -> Option<int> {
    if exists|i: int| 0 <= i < s.len() && s[i].0 == hash {
        Some(choose|i: int| 0 <= i < s.len() && s[i].0 == hash && forall|j: int| 0 <= j < i ==> (#[trigger] s[j]).0 != hash)
    } else {
        None
    }
}

/// Frame IDs already handled, and frames waiting for a route.
pub struct Journal {
    seen: Vec<Ident32>,
    frames: Vec<InMemoryEnvelope>,
    manifests: Vec<ManifestData>,
}

impl Journal {
    /// The frame IDs already handled.
    pub closed spec fn seen(&self) -> Set<Ident32> {
        Set::new(|x: Ident32| self.seen@.contains(x))
    }

    /// The frame IDs already handled, in the order they were recorded.
    pub closed spec fn seen_list(&self) -> Seq<Ident32> {
        self.seen@
    }

    /// `after` is what `save_as_known(frame_id)` makes of `before`.
    pub open spec fn saved(before: Journal, after: Journal, frame_id: Ident32) -> bool {
        &&& after.seen() == before.seen().insert(frame_id)
        &&& after.frames() == before.frames()
        &&& after.manifests() == before.manifests()
        &&& before.seen().contains(frame_id) ==> after.seen_list() == before.seen_list()
    }

    /// The sequences whose manifest is held.
    pub open spec fn manifested(&self) -> Set<Ident32> {
        Set::new(|h: Ident32| exists|i: int| 0 <= i < self.manifests().len() && (#[trigger] self.manifests()[i]).0 == h)
    }

    /// The manifest records, oldest first.
    pub closed spec fn manifests(&self) -> Seq<ManifestView> {
        self.manifests@.map_values(|m: ManifestData| manifest_view(m))
    }

    /// The waiting frames, oldest first.
    pub closed spec fn frames(&self) -> Seq<FrameView> {
        views(self.frames@)
    }

    /// The journal's invariant.
    pub open spec fn wf(&self) -> bool {
        frames_wf(self.frames())
    }

    /// An empty journal.
    pub fn new() -> (r: Self)
        ensures
            r.wf(),
            r.seen() == Set::<Ident32>::empty(),
            r.frames() == Seq::<FrameView>::empty(),
    {
        let r = Journal { seen: Vec::new(), frames: Vec::new(), manifests: Vec::new() };
        assert(r.seen() =~= Set::<Ident32>::empty());
        assert(views(r.frames@) =~= Seq::<FrameView>::empty());
        r
    }

    /// True when `frame_id` has not been handled yet.
    pub fn is_unknown(&self, frame_id: &Ident32) -> (r: bool)
        ensures
            r == !self.seen().contains(*frame_id),
    {
        let mut i: usize = 0;
        while i < self.seen.len()
            invariant
                0 <= i <= self.seen@.len(),
                forall|j: int| 0 <= j < i ==> self.seen@[j] != *frame_id,
            decreases self.seen@.len() - i,
        {
            if self.seen[i] == *frame_id {
                assert(self.seen@.contains(self.seen@[i as int]));
                return false;
            }
            i = i + 1;
        }
        true
    }

    /// Record `frame_id` as handled. Recording an ID that is already there
    /// leaves the journal as it was.
    pub fn save_as_known(&mut self, frame_id: &Ident32)
        ensures
            Journal::saved(*old(self), *final(self), *frame_id),
    {
        if self.is_unknown(frame_id) {
            self.seen.push(*frame_id);
            assert forall|x: Ident32| self.seen@.contains(x) <==> (old(self).seen@.contains(x) || x == *frame_id) by {
                if old(self).seen@.contains(x) {
                    let k = choose|k: int| 0 <= k < old(self).seen@.len() && old(self).seen@[k] == x;
                    assert(self.seen@[k] == x);
                }
                if x == *frame_id {
                    assert(self.seen@[self.seen@.len() - 1] == x);
                }
                if self.seen@.contains(x) && x != *frame_id {
                    let k = choose|k: int| 0 <= k < self.seen@.len() && self.seen@[k] == x;
                    assert(old(self).seen@[k] == x);
                }
            }
            assert(self.seen() =~= old(self).seen().insert(*frame_id));
        } else {
            assert(old(self).seen().insert(*frame_id) =~= old(self).seen());
        }
    }

    /// Hold a frame until its recipient is reachable. A frame with the same
    /// sequence hash and number replaces the one held, in its place;
    /// otherwise the frame goes last.
    pub fn queue_frame(&mut self, envelope: InMemoryEnvelope)
        requires
            old(self).wf(),
            fields(envelope.header).seq_id is Some,
        ensures
            final(self).wf(),
            final(self).seen() == old(self).seen(),
            final(self).manifests() == old(self).manifests(),
            match position_of(old(self).frames(), seq_hash(envelope@), seq_num(envelope@)) {
                Some(i) => final(self).frames() == old(self).frames().update(i, envelope@),
                None => final(self).frames() == old(self).frames().push(envelope@),
            },
    {
        let q = envelope.header.get_seq_id().unwrap();
        let ghost old_frames = views(self.frames@);
        let mut i: usize = 0;
        while i < self.frames.len()
            invariant
                0 <= i <= self.frames@.len(),
                self.frames@ == old(self).frames@,
                self.seen@ == old(self).seen@,
                self.manifests@ == old(self).manifests@,
                old_frames == views(self.frames@),
                q == fields(envelope.header).seq_id->0,
                fields(envelope.header).seq_id is Some,
                frames_wf(old_frames),
                forall|j: int| 0 <= j < i ==> !(seq_hash(#[trigger] old_frames[j]) == q.hash
                    && seq_num(old_frames[j]) == q.num),
            decreases self.frames@.len() - i,
        {
            assert(old_frames[i as int] == self.frames@[i as int]@);
            let p = self.frames[i].header.get_seq_id().unwrap();
            if p.hash == q.hash && p.num == q.num {
                self.frames.set(i, envelope);
                proof {
                    assert(old_frames[i as int] == old(self).frames@[i as int]@);
                    let nf = old_frames.update(i as int, envelope@);
                    assert forall|a: int| 0 <= a < nf.len() implies (#[trigger] fields(nf[a].0)).seq_id is Some by {
                        if a == i {
                            assert(nf[a].0 == envelope.header);
                        } else {
                            assert(nf[a] == old_frames[a]);
                            assert(fields(old_frames[a].0).seq_id is Some);
                        }
                    }
                    assert forall|a: int, b: int|
                        0 <= a < nf.len() && 0 <= b < nf.len() && a != b && seq_hash(#[trigger] nf[a]) == seq_hash(#[trigger] nf[b])
                        implies seq_num(nf[a]) != seq_num(nf[b]) by {
                        assert(seq_hash(nf[i as int]) == seq_hash(old_frames[i as int]));
                        assert(seq_num(nf[i as int]) == seq_num(old_frames[i as int]));
                        if a != i {
                            assert(nf[a] == old_frames[a]);
                        }
                        if b != i {
                            assert(nf[b] == old_frames[b]);
                        }
                    }
                    let k = position_of(old_frames, q.hash, q.num)->0;
                    assert(0 <= k < old_frames.len() && seq_hash(old_frames[k]) == q.hash && seq_num(old_frames[k]) == q.num);
                    assert(k == i);
                    assert(views(self.frames@) =~= old_frames.update(i as int, envelope@));
                }
                return;
            }
            i = i + 1;
        }
        self.frames.push(envelope);
        proof {
            assert(views(self.frames@) =~= old_frames.push(envelope@));
            assert(position_of(old_frames, q.hash, q.num) is None);
        }
    }

    /// The waiting frames of sequence `hash`, by ascending number.
    pub fn load_pending_for(&self, hash: &Ident32) -> (r: Vec<InMemoryEnvelope>)
        requires
            self.wf(),
        ensures
            forall|i: int, j: int| 0 <= i < j < r@.len() ==> seq_num(r@[i]@) < seq_num(r@[j]@),
            forall|f: FrameView|
                views(r@).contains(f) <==> (self.frames().contains(f) && seq_hash(f) == *hash),
    {
        let ghost fr = views(self.frames@);
        let ghost pick = |f: FrameView| seq_hash(f) == *hash;
        let mut out: Vec<InMemoryEnvelope> = Vec::new();
        let mut i: usize = 0;
        proof {
            assert(views(out@).to_set() =~= fr.subrange(0, 0).to_set().filter(pick));
        }
        while i < self.frames.len()
            invariant
                0 <= i <= self.frames@.len(),
                fr == views(self.frames@),
                frames_wf(fr),
                pick == (|f: FrameView| seq_hash(f) == *hash),
                forall|a: int, b: int| 0 <= a < b < out@.len() ==> seq_num(out@[a]@) < seq_num(out@[b]@),
                forall|a: int| 0 <= a < out@.len() ==> exists|j: int| 0 <= j < i && fr[j] == #[trigger] out@[a]@,
                forall|a: int| 0 <= a < out@.len() ==> (#[trigger] fields(out@[a].header)).seq_id is Some,
                forall|a: int| 0 <= a < out@.len() ==> seq_hash(#[trigger] out@[a]@) == *hash,
                views(out@).to_set() == fr.subrange(0, i as int).to_set().filter(pick),
            decreases self.frames@.len() - i,
        {
            let e = &self.frames[i];
            assert(fr[i as int] == e@);
            assert(fields(fr[i as int].0).seq_id is Some);
            let q = e.header.get_seq_id().unwrap();
            proof {
                assert(fr.subrange(0, i + 1) =~= fr.subrange(0, i as int).push(fr[i as int]));
                fr.subrange(0, i as int).lemma_push_to_set_commute(fr[i as int]);
            }
            if q.hash == *hash {
                let mut k: usize = 0;
                while k < out.len() && out[k].header.get_seq_id().unwrap().num < q.num
                    invariant
                        0 <= k <= out@.len(),
                        forall|a: int| 0 <= a < k ==> seq_num(#[trigger] out@[a]@) < q.num,
                        forall|a: int| 0 <= a < out@.len() ==> (#[trigger] fields(out@[a].header)).seq_id is Some,
                    decreases out@.len() - k,
                {
                    k = k + 1;
                }
                let ghost before = out@;
                out.insert(k, e.copy());
                proof {
                    assert forall|a: int| 0 <= a < before.len() implies seq_num(#[trigger] before[a]@) != q.num by {
                        let j = choose|j: int| 0 <= j < i && fr[j] == #[trigger] before[a]@;
                        assert(seq_hash(fr[j]) == seq_hash(fr[i as int]));
                    }
                    assert forall|a: int| k <= a < before.len() implies seq_num(#[trigger] before[a]@) > q.num by {
                        assert(seq_num(before[k as int]@) >= q.num);
                        if a > k {
                            assert(seq_num(before[k as int]@) < seq_num(before[a]@));
                        }
                    }
                    assert(views(out@) =~= views(before).insert(k as int, fr[i as int]));
                    lemma_insert_to_set(views(before), k as int, fr[i as int]);
                    assert(views(out@).to_set() =~= fr.subrange(0, i + 1).to_set().filter(pick));
                    assert forall|a: int| 0 <= a < out@.len() implies exists|j: int| 0 <= j < i + 1 && fr[j] == #[trigger] out@[a]@ by {
                        if a < k {
                            assert(out@[a] == before[a]);
                        } else if a > k {
                            assert(out@[a] == before[a - 1]);
                        } else {
                            assert(fr[i as int] == out@[a]@);
                        }
                    }
                    assert forall|a: int, b: int| 0 <= a < b < out@.len() implies seq_num(out@[a]@) < seq_num(out@[b]@) by {
                        if b < k {
                            assert(out@[a] == before[a] && out@[b] == before[b]);
                        } else if b == k {
                            assert(out@[a] == before[a]);
                        } else if a < k {
                            assert(out@[a] == before[a] && out@[b] == before[b - 1]);
                        } else if a == k {
                            assert(out@[b] == before[b - 1]);
                        } else {
                            assert(out@[a] == before[a - 1] && out@[b] == before[b - 1]);
                        }
                    }
                }
            } else {
                proof {
                    assert(views(out@).to_set() =~= fr.subrange(0, i + 1).to_set().filter(pick));
                }
            }
            i = i + 1;
        }
        proof {
            assert(fr.subrange(0, fr.len() as int) =~= fr);
            assert forall|f: FrameView|
                views(out@).contains(f) <==> (fr.contains(f) && seq_hash(f) == *hash) by {
                assert(views(out@).to_set().contains(f) == views(out@).contains(f));
                assert(fr.to_set().contains(f) == fr.contains(f));
            }
        }
        out
    }

    /// Take out the waiting frames addressed to `addr`, oldest first, so
    /// that they can be sent now that a route is known; the others stay in
    /// their order.
    pub fn take_pending_to(&mut self, addr: &Address) -> (r: Vec<InMemoryEnvelope>)
        requires
            old(self).wf(),
        ensures
            final(self).wf(),
            final(self).seen() == old(self).seen(),
            final(self).manifests() == old(self).manifests(),
            views(r@) == old(self).frames().filter(|f: FrameView| targets(f, *addr)),
            final(self).frames() == old(self).frames().filter(|f: FrameView| !targets(f, *addr)),
    {
        let ghost fr = views(self.frames@);
        let ghost go = |f: FrameView| targets(f, *addr);
        let ghost stay = |f: FrameView| !targets(f, *addr);
        let mut taken: Vec<InMemoryEnvelope> = Vec::new();
        let mut kept: Vec<InMemoryEnvelope> = Vec::new();
        let mut i: usize = 0;
        while i < self.frames.len()
            invariant
                0 <= i <= self.frames@.len(),
                self.frames@ == old(self).frames@,
                self.seen@ == old(self).seen@,
                fr == views(self.frames@),
                go == (|f: FrameView| targets(f, *addr)),
                stay == (|f: FrameView| !targets(f, *addr)),
                views(taken@) == fr.subrange(0, i as int).filter(go),
                views(kept@) == fr.subrange(0, i as int).filter(stay),
                frames_wf(fr),
                frames_wf(views(kept@)),
                forall|a: int| 0 <= a < kept@.len() ==> exists|j: int| 0 <= j < i && fr[j] == #[trigger] views(kept@)[a],
            decreases self.frames@.len() - i,
        {
            assert(fr[i as int] == self.frames@[i as int]@);
            proof {
                assert(fr.subrange(0, i + 1) =~= fr.subrange(0, i as int).push(fr[i as int]));
                fr.subrange(0, i as int).lemma_filter_push(fr[i as int], go);
                fr.subrange(0, i as int).lemma_filter_push(fr[i as int], stay);
            }
            let is_target = match self.frames[i].header.get_recipient() {
                Some(Recipient::Target(a)) => a == *addr,
                _ => false,
            };
            if is_target {
                taken.push(self.frames[i].copy());
                assert(views(taken@) =~= fr.subrange(0, i as int).filter(go).push(fr[i as int]));
            } else {
                let ghost before = views(kept@);
                kept.push(self.frames[i].copy());
                proof {
                    assert(views(kept@) =~= before.push(fr[i as int]));
                    assert forall|a: int| 0 <= a < before.len() && seq_hash(before[a]) == seq_hash(fr[i as int])
                        implies seq_num(before[a]) != seq_num(fr[i as int]) by {
                        let j = choose|j: int| 0 <= j < i && fr[j] == #[trigger] views(kept@)[a];
                        assert(views(kept@)[a] == before[a]);
                    }
                    assert forall|a: int| 0 <= a < kept@.len() implies exists|j: int| 0 <= j < i + 1 && fr[j] == #[trigger] views(kept@)[a] by {
                        if a < before.len() {
                            assert(views(kept@)[a] == before[a]);
                        } else {
                            assert(fr[i as int] == views(kept@)[a]);
                        }
                    }
                }
            }
            i = i + 1;
        }
        assert(fr.subrange(0, fr.len() as int) =~= fr);
        self.frames = kept;
        taken
    }

    /// Hold the manifest that `env` carries for its sequence: its sender,
    /// its recipient and its payload, not yet passed on. A record of the
    /// same sequence is replaced in its place; otherwise it goes last.
    pub fn queue_manifest(&mut self, env: &InMemoryEnvelope)
        requires
            env.wf(),
            fields(env.header).seq_id is Some,
            fields(env.header).recipient is Some,
        ensures
            ({
                let h = fields(env.header).seq_id->0.hash;
                let rec = (h, fields(env.header).sender, fields(env.header).recipient->0, env.payload(), false);
                match manifest_position(old(self).manifests(), h) {
                    Some(i) => final(self).manifests() == old(self).manifests().update(i, rec),
                    None => final(self).manifests() == old(self).manifests().push(rec),
                }
            }),
            final(self).frames() == old(self).frames(),
            final(self).seen() == old(self).seen(),
            final(self).seen_list() == old(self).seen_list(),
            final(self).wf() == old(self).wf(),
    {
        let hash = env.header.get_seq_id().unwrap().hash;
        let mut manifest: Vec<u8> = Vec::new();
        put_slice(&mut manifest, env.get_payload_slice());
        let rec = ManifestData {
            hash,
            sender: env.header.get_sender(),
            recipient: env.header.get_recipient().unwrap(),
            manifest,
            forwarded: false,
        };
        let ghost old_m = self.manifests();
        let mut i: usize = 0;
        while i < self.manifests.len() && self.manifests[i].hash != hash
            invariant
                0 <= i <= self.manifests@.len(),
                old_m == self.manifests@.map_values(|m: ManifestData| manifest_view(m)),
                forall|j: int| 0 <= j < i ==> (#[trigger] old_m[j]).0 != hash,
            decreases self.manifests@.len() - i,
        {
            assert(old_m[i as int] == manifest_view(self.manifests@[i as int]));
            i = i + 1;
        }
        if i < self.manifests.len() {
            proof {
                assert(old_m[i as int] == manifest_view(self.manifests@[i as int]));
                let k = manifest_position(old_m, hash)->0;
                if k < i {
                    assert(old_m[k].0 != hash);
                }
                if k > i {
                    assert(old_m[i as int].0 != hash);
                }
            }
            self.manifests.set(i, rec);
            assert(self.manifests() =~= old_m.update(i as int, manifest_view(rec)));
        } else {
            self.manifests.push(rec);
            assert(self.manifests() =~= old_m.push(manifest_view(rec)));
        }
    }

    /// True when the manifest of sequence `hash` is held.
    pub fn has_manifest(&self, hash: &Ident32) -> (r: bool)
        ensures
            r == self.manifested().contains(*hash),
    {
        let ghost m = self.manifests();
        let mut i: usize = 0;
        while i < self.manifests.len()
            invariant
                0 <= i <= self.manifests@.len(),
                m == self.manifests@.map_values(|x: ManifestData| manifest_view(x)),
                forall|j: int| 0 <= j < i ==> (#[trigger] m[j]).0 != *hash,
            decreases self.manifests@.len() - i,
        {
            assert(m[i as int] == manifest_view(self.manifests@[i as int]));
            if self.manifests[i].hash == *hash {
                return true;
            }
            i = i + 1;
        }
        false
    }

    /// Total bytes of the waiting frames.
    pub fn total_bytes(&self) -> (r: u128)
        ensures
            r == total_bytes(self.frames()),
    {
        let ghost fr = views(self.frames@);
        let mut sum: u128 = 0;
        let mut i: usize = 0;
        while i < self.frames.len()
            invariant
                0 <= i <= self.frames@.len(),
                fr == views(self.frames@),
                sum == total_bytes(fr.subrange(0, i as int)),
                sum <= i * 0x1_0000_0000_0000_0000,
            decreases self.frames@.len() - i,
        {
            assert(fr[i as int] == self.frames@[i as int]@);
            assert(fr.subrange(0, i + 1).drop_last() =~= fr.subrange(0, i as int));
            assert(self.frames@.len() <= usize::MAX);
            sum = sum + self.frames[i].buffer.len() as u128;
            i = i + 1;
        }
        assert(fr.subrange(0, fr.len() as int) =~= fr);
        sum
    }

    /// When the waiting frames take more than `quota_high` bytes, drop the
    /// oldest frames of sequences without a manifest until they take at
    /// most `quota_low` bytes, or no such frame is left.
    pub fn collect_garbage(&mut self, quota_high: u128, quota_low: u128)
        requires
            old(self).wf(),
        ensures
            final(self).wf(),
            final(self).seen() == old(self).seen(),
            final(self).manifests() == old(self).manifests(),
            total_bytes(old(self).frames()) <= quota_high ==> final(self).frames() == old(self).frames(),
            total_bytes(old(self).frames()) > quota_high ==> final(self).frames() == gc_keep(
                old(self).frames(),
                old(self).manifested(),
                total_bytes(old(self).frames()) - quota_low,
            ),
    {
        let total = self.total_bytes();
        if total <= quota_high || total <= quota_low {
            proof {
                if total <= quota_low {
                    lemma_gc_keep_nothing_due(self.frames(), self.manifested(), total - quota_low);
                }
            }
            return;
        }
        let ghost fr = views(self.frames@);
        let ghost m = self.manifested();
        let ghost mut ex: int = total - quota_low;
        let mut left: u128 = total - quota_low;
        let mut kept: Vec<InMemoryEnvelope> = Vec::new();
        let mut i: usize = 0;
        proof {
            assert(fr.subrange(0, fr.len() as int) =~= fr);
            assert(views(kept@) + fr =~= fr);
        }
        while i < self.frames.len()
            invariant
                0 <= i <= self.frames@.len(),
                self.frames@ == old(self).frames@,
                self.seen@ == old(self).seen@,
                self.manifests@ == old(self).manifests@,
                fr == views(self.frames@),
                m == self.manifested(),
                left == (if ex > 0 { ex } else { 0 }),
                views(kept@) + gc_keep(fr.subrange(i as int, fr.len() as int), m, ex) == gc_keep(fr, m, total - quota_low),
                frames_wf(fr),
                frames_wf(views(kept@)),
                forall|a: int| 0 <= a < kept@.len() ==> exists|j: int| 0 <= j < i && fr[j] == #[trigger] views(kept@)[a],
            decreases self.frames@.len() - i,
        {
            assert(fr[i as int] == self.frames@[i as int]@);
            assert(fields(fr[i as int].0).seq_id is Some);
            let q = self.frames[i].header.get_seq_id().unwrap();
            let ghost rest = fr.subrange(i as int, fr.len() as int);
            proof {
                assert(rest.drop_first() =~= fr.subrange(i + 1, fr.len() as int));
                assert(rest[0] == fr[i as int]);
            }
            if left > 0 && !self.has_manifest(&q.hash) {
                let l = self.frames[i].buffer.len() as u128;
                left = if l >= left { 0 } else { left - l };
                proof {
                    ex = ex - fr[i as int].1.len();
                }
            } else {
                let ghost before = views(kept@);
                kept.push(self.frames[i].copy());
                proof {
                    assert(views(kept@) =~= before.push(fr[i as int]));
                    assert(views(kept@) + gc_keep(fr.subrange(i + 1, fr.len() as int), m, ex) =~= before + (seq![fr[i as int]] + gc_keep(fr.subrange(i + 1, fr.len() as int), m, ex)));
                    assert forall|a: int| 0 <= a < before.len() && seq_hash(before[a]) == seq_hash(fr[i as int])
                        implies seq_num(before[a]) != seq_num(fr[i as int]) by {
                        let j = choose|j: int| 0 <= j < i && fr[j] == #[trigger] views(kept@)[a];
                        assert(views(kept@)[a] == before[a]);
                    }
                    assert forall|a: int| 0 <= a < kept@.len() implies exists|j: int| 0 <= j < i + 1 && fr[j] == #[trigger] views(kept@)[a] by {
                        if a < before.len() {
                            assert(views(kept@)[a] == before[a]);
                        } else {
                            assert(fr[i as int] == views(kept@)[a]);
                        }
                    }
                }
            }
            i = i + 1;
        }
        proof {
            assert(fr.subrange(fr.len() as int, fr.len() as int) =~= Seq::<FrameView>::empty());
            assert(views(kept@) + Seq::<FrameView>::empty() =~= views(kept@));
        }
        self.frames = kept;
    }

    /// Drop every waiting frame of sequence `hash`; the others keep their
    /// order.
    pub fn purge_sequence(&mut self, hash: &Ident32)
        requires
            old(self).wf(),
        ensures
            final(self).wf(),
            final(self).seen() == old(self).seen(),
            final(self).manifests() == old(self).manifests(),
            final(self).frames() == old(self).frames().filter(|f: FrameView| seq_hash(f) != *hash),
    {
        let ghost fr = views(self.frames@);
        let mut kept: Vec<InMemoryEnvelope> = Vec::new();
        let mut i: usize = 0;
        while i < self.frames.len()
            invariant
                0 <= i <= self.frames@.len(),
                self.frames@ == old(self).frames@,
                self.seen@ == old(self).seen@,
                fr == views(self.frames@),
                views(kept@) == fr.subrange(0, i as int).filter(|f: FrameView| seq_hash(f) != *hash),
                frames_wf(fr),
                frames_wf(views(kept@)),
                forall|a: int| 0 <= a < kept@.len() ==> exists|j: int| 0 <= j < i && fr[j] == #[trigger] views(kept@)[a],
            decreases self.frames@.len() - i,
        {
            assert(fr[i as int] == self.frames@[i as int]@);
            assert(fields(fr[i as int].0).seq_id is Some);
            let q = self.frames[i].header.get_seq_id().unwrap();
            proof {
                assert(fr.subrange(0, i + 1) =~= fr.subrange(0, i as int).push(fr[i as int]));
                fr.subrange(0, i as int).lemma_filter_push(fr[i as int], |f: FrameView| seq_hash(f) != *hash);
            }
            if !(q.hash == *hash) {
                let ghost before = views(kept@);
                kept.push(self.frames[i].copy());
                proof {
                    assert(fr[i as int] == self.frames@[i as int]@);
                    assert(views(kept@) =~= before.push(fr[i as int]));
                    assert forall|a: int| 0 <= a < before.len() && seq_hash(before[a]) == seq_hash(fr[i as int])
                        implies seq_num(before[a]) != seq_num(fr[i as int]) by {
                        let j = choose|j: int| 0 <= j < i && fr[j] == #[trigger] views(kept@)[a];
                        assert(views(kept@)[a] == before[a]);
                    }
                    assert forall|a: int| 0 <= a < kept@.len() implies exists|j: int| 0 <= j < i + 1 && fr[j] == #[trigger] views(kept@)[a] by {
                        if a < before.len() {
                            assert(views(kept@)[a] == before[a]);
                        } else {
                            assert(fr[i as int] == views(kept@)[a]);
                        }
                    }
                }
            }
            i = i + 1;
        }
        assert(fr.subrange(0, fr.len() as int) =~= fr);
        self.frames = kept;
    }
}

/// Recording a frame ID twice leaves the journal exactly as recording it
/// once does.
pub proof fn lemma_save_as_known_idempotent(j0: Journal, j1: Journal, j2: Journal, frame_id: Ident32)
    requires
        Journal::saved(j0, j1, frame_id),
        Journal::saved(j1, j2, frame_id),
    ensures
        j2.seen_list() == j1.seen_list(),
        j2.seen() == j1.seen(),
        j2.frames() == j1.frames(),
{
}

} // verus!
