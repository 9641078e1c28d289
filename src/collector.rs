//! Reassembly of multi-frame messages: frames of one sequence are kept by
//! ascending number until every number from zero to the last is there.
use vstd::prelude::*;
use crate::codec::put_slice;
use crate::envelope::InMemoryEnvelope;
use crate::header::{fields, header_bytes, CarrierFrameHeader, DATA};
use crate::journal::{lemma_insert_to_set, seq_hash, seq_num, views, FrameView};
use crate::types::{Address, Ident32, Recipient, SequenceIdV1};

verus! {

/// A message put together from all frames of its sequence.
#[derive(Clone, Debug)]
pub struct Message {
    /// The sequence hash shared by the frames.
    pub id: Ident32,
    pub sender: Address,
    pub recipient: Option<Recipient>,
    pub payload: Vec<u8>,
    /// When the message was put together, in seconds.
    pub received: u64,
}

/// The number of the last frame of the frame's sequence.
pub open spec fn seq_max(f: FrameView) -> u32 {
    fields(f.0).seq_id->0.max
}

/// The payload bytes of a frame.
pub open spec fn payload_of(f: FrameView) -> Seq<u8> {
    f.1.subrange(header_bytes(f.0).len() as int, f.1.len() as int)
}

/// The payloads of the frames, one after the other.
pub open spec fn concat_payloads(s: Seq<FrameView>) -> Seq<u8>
    decreases s.len(),
{
    if s.len() == 0 {
        Seq::empty()
    } else {
        concat_payloads(s.drop_last()) + payload_of(s.last())
    }
}

/// A well-formed frame of sequence `hash`.
pub open spec fn frame_of(e: InMemoryEnvelope, hash: Ident32) -> bool {
    e.wf() && fields(e.header).seq_id is Some && seq_hash(e@) == hash
}

/// Frames of sequence `hash` held by strictly ascending number.
pub open spec fn buffer_wf(s: Seq<InMemoryEnvelope>, hash: Ident32) -> bool {
    &&& forall|i: int| 0 <= i < s.len() ==> frame_of(#[trigger] s[i], hash)
    &&& forall|i: int, j: int| 0 <= i < j < s.len() ==> seq_num(s[i]@) < seq_num(s[j]@)
}

/// Every number from zero up to the last frame's number is there, and the
/// last frame is the one that closes the sequence.
pub open spec fn complete(s: Seq<FrameView>) -> bool {
    &&& s.len() > 0
    &&& forall|i: int| 0 <= i < s.len() ==> seq_num(#[trigger] s[i]) == i
    &&& seq_num(s.last()) == seq_max(s.last())
}

/// Add `new` to the frames of its sequence, in its place by number, unless
/// a frame with its number is already there.
#[verifier::rlimit(40)]
pub fn insert_frame(buf: &mut Vec<InMemoryEnvelope>, new: InMemoryEnvelope)
    requires
        frame_of(new, seq_hash(new@)),
        buffer_wf(old(buf)@, seq_hash(new@)),
    ensures
        buffer_wf(final(buf)@, seq_hash(new@)),
        (exists|i: int| 0 <= i < old(buf)@.len() && seq_num(old(buf)@[i]@) == seq_num(new@))
            ==> final(buf)@ == old(buf)@,
        !(exists|i: int| 0 <= i < old(buf)@.len() && seq_num(old(buf)@[i]@) == seq_num(new@))
            ==> views(final(buf)@).to_set() == views(old(buf)@).to_set().insert(new@),
{
    let ghost hash = seq_hash(new@);
    let q = new.header.get_seq_id().unwrap();
    let mut k: usize = 0;
    while k < buf.len() && buf[k].header.get_seq_id().unwrap().num < q.num
        invariant
            0 <= k <= buf@.len(),
            buffer_wf(buf@, hash),
            buf@ == old(buf)@,
            forall|a: int| 0 <= a < k ==> seq_num(#[trigger] buf@[a]@) < q.num,
        decreases buf@.len() - k,
    {
        k = k + 1;
    }
    if k < buf.len() && buf[k].header.get_seq_id().unwrap().num == q.num {
        return;
    }
    let ghost before = buf@;
    proof {
        assert forall|a: int| 0 <= a < before.len() implies seq_num(#[trigger] before[a]@) != q.num by {
            if a > k {
                assert(seq_num(before[k as int]@) < seq_num(before[a]@));
            }
        }
    }
    buf.insert(k, new);
    proof {
        assert forall|a: int, b: int| 0 <= a < b < buf@.len() implies seq_num(buf@[a]@) < seq_num(buf@[b]@) by {
            if b < k {
                assert(buf@[a] == before[a] && buf@[b] == before[b]);
            } else if b == k {
                assert(buf@[a] == before[a]);
            } else if a < k {
                assert(buf@[a] == before[a] && buf@[b] == before[b - 1]);
            } else if a == k {
                assert(buf@[b] == before[b - 1]);
                assert(seq_num(before[k as int]@) >= q.num);
                if b - 1 > k {
                    assert(seq_num(before[k as int]@) < seq_num(before[b - 1]@));
                }
            } else {
                assert(buf@[a] == before[a - 1] && buf@[b] == before[b - 1]);
            }
        }
        assert forall|a: int| 0 <= a < buf@.len() implies frame_of(#[trigger] buf@[a], hash) by {
            if a < k {
                assert(buf@[a] == before[a]);
            } else if a > k {
                assert(buf@[a] == before[a - 1]);
            }
        }
        assert(views(buf@) =~= views(before).insert(k as int, new@));
        lemma_insert_to_set(views(before), k as int, new@);
    }
}

/// The message of a complete sequence: the first frame's sender and
/// recipient, the payloads by ascending number, and `now` as the time it
/// was received; nothing while the sequence is incomplete.
pub fn assemble(buf: &Vec<InMemoryEnvelope>, hash: Ident32, now: u64) -> (r: Option<Message>)
    requires
        buffer_wf(buf@, hash),
    ensures
        r is Some <==> complete(views(buf@)),
        r matches Some(m) ==> m.id == hash && m.received == now && m.sender == fields(buf@[0].header).sender
            && m.recipient == fields(buf@[0].header).recipient
            && m.payload@ == concat_payloads(views(buf@)),
{
    let n = buf.len();
    if n == 0 {
        return None;
    }
    assert(frame_of(buf@[n - 1], hash));
    let last = buf[n - 1].header.get_seq_id().unwrap();
    if last.num != last.max || last.num as usize != n - 1 {
        proof {
            if complete(views(buf@)) {
                assert(views(buf@)[n - 1] == buf@[n - 1]@);
            }
        }
        return None;
    }
    proof {
        assert forall|i: int| 0 <= i < buf@.len() implies seq_num(#[trigger] views(buf@)[i]) == i by {
            lemma_ascending_from_zero(buf@, hash, i);
        }
        assert(views(buf@).last() == buf@[n - 1]@);
    }
    let mut payload: Vec<u8> = Vec::new();
    let mut i: usize = 0;
    while i < n
        invariant
            0 <= i <= n,
            n == buf@.len(),
            buffer_wf(buf@, hash),
            payload@ == concat_payloads(views(buf@).subrange(0, i as int)),
        decreases n - i,
    {
        assert(frame_of(buf@[i as int], hash));
        let slice = buf[i].get_payload_slice();
        put_slice(&mut payload, slice);
        proof {
            let s = views(buf@).subrange(0, i + 1);
            assert(s.drop_last() =~= views(buf@).subrange(0, i as int));
            assert(s.last() == buf@[i as int]@);
        }
        i = i + 1;
    }
    assert(views(buf@).subrange(0, n as int) =~= views(buf@));
    assert(frame_of(buf@[0], hash));
    let first = &buf[0];
    let id = first.header.get_seq_id().unwrap().hash;
    Some(Message {
        id,
        sender: first.header.get_sender(),
        recipient: first.header.get_recipient(),
        payload,
        received: now,
    })
}

/// Add `new` to the frames of its sequence (see `insert_frame`), then give
/// the message if the sequence is now complete (see `assemble`).
pub fn join_frames(buf: &mut Vec<InMemoryEnvelope>, new: InMemoryEnvelope, now: u64) -> (r: Option<Message>)
    requires
        frame_of(new, seq_hash(new@)),
        buffer_wf(old(buf)@, seq_hash(new@)),
    ensures
        buffer_wf(final(buf)@, seq_hash(new@)),
        (exists|i: int| 0 <= i < old(buf)@.len() && seq_num(old(buf)@[i]@) == seq_num(new@))
            ==> final(buf)@ == old(buf)@,
        !(exists|i: int| 0 <= i < old(buf)@.len() && seq_num(old(buf)@[i]@) == seq_num(new@))
            ==> views(final(buf)@).to_set() == views(old(buf)@).to_set().insert(new@),
        r is Some <==> complete(views(final(buf)@)),
        r matches Some(m) ==> m.id == seq_hash(new@) && m.received == now && m.sender == fields(final(buf)@[0].header).sender
            && m.recipient == fields(final(buf)@[0].header).recipient
            && m.payload@ == concat_payloads(views(final(buf)@)),
{
    let q = new.header.get_seq_id().unwrap();
    insert_frame(buf, new);
    assemble(buf, q.hash, now)
}

/// A sequence hash with its assembly buffer and the time a frame last
/// arrived for it.
pub type Slot = (Ident32, Vec<InMemoryEnvelope>, u64);

/// No two slots share a hash.
pub open spec fn unique_hashes(s: Seq<Slot>) -> bool {
    forall|i: int, j: int| 0 <= i < s.len() && 0 <= j < s.len() && i != j ==> (#[trigger] s[i]).0 != (#[trigger] s[j]).0
}

/// The frames held for hash `g` in the slots, or none.
pub open spec fn lookup(s: Seq<Slot>, g: Ident32) -> Seq<FrameView> {
    if exists|i: int| 0 <= i < s.len() && (#[trigger] s[i]).0 == g {
        views(s[choose|i: int| 0 <= i < s.len() && (#[trigger] s[i]).0 == g].1@)
    } else {
        Seq::empty()
    }
}

proof fn lemma_lookup_at(s: Seq<Slot>, i: int, g: Ident32)
    requires
        unique_hashes(s),
        0 <= i < s.len(),
        s[i].0 == g,
    ensures
        lookup(s, g) == views(s[i].1@),
{
    let j = choose|j: int| 0 <= j < s.len() && (#[trigger] s[j]).0 == g;
    if j != i {
        assert(s[i].0 != s[j].0);
    }
}

proof fn lemma_unique_remove(s: Seq<Slot>, k: int)
    requires
        unique_hashes(s),
        0 <= k < s.len(),
    ensures
        unique_hashes(s.remove(k)),
{
    let t = s.remove(k);
    assert forall|i: int, j: int| 0 <= i < t.len() && 0 <= j < t.len() && i != j implies (#[trigger] t[i]).0 != (#[trigger] t[j]).0 by {
        let a = if i < k { i } else { i + 1 };
        let b = if j < k { j } else { j + 1 };
        assert(t[i] == s[a] && t[j] == s[b]);
    }
}

proof fn lemma_lookup_remove(s: Seq<Slot>, k: int, g: Ident32)
    requires
        unique_hashes(s),
        0 <= k < s.len(),
        s[k].0 != g,
    ensures
        lookup(s.remove(k), g) == lookup(s, g),
{
    let t = s.remove(k);
    lemma_unique_remove(s, k);
    if exists|i: int| 0 <= i < s.len() && (#[trigger] s[i]).0 == g {
        let i = choose|i: int| 0 <= i < s.len() && (#[trigger] s[i]).0 == g;
        lemma_lookup_at(s, i, g);
        let a = if i < k { i } else { i - 1 };
        assert(t[a] == s[i]);
        lemma_lookup_at(t, a, g);
    } else {
        assert forall|i: int| 0 <= i < t.len() implies (#[trigger] t[i]).0 != g by {
            let a = if i < k { i } else { i + 1 };
            assert(t[i] == s[a]);
        }
    }
}

proof fn lemma_lookup_push(s: Seq<Slot>, x: Slot, g: Ident32)
    requires
        unique_hashes(s),
        forall|i: int| 0 <= i < s.len() ==> (#[trigger] s[i]).0 != x.0,
    ensures
        unique_hashes(s.push(x)),
        g != x.0 ==> lookup(s.push(x), g) == lookup(s, g),
        lookup(s.push(x), x.0) == views(x.1@),
{
    let t = s.push(x);
    assert forall|i: int, j: int| 0 <= i < t.len() && 0 <= j < t.len() && i != j implies (#[trigger] t[i]).0 != (#[trigger] t[j]).0 by {
        if i < s.len() {
            assert(t[i] == s[i]);
        }
        if j < s.len() {
            assert(t[j] == s[j]);
        }
    }
    lemma_lookup_at(t, s.len() as int, x.0);
    if g != x.0 {
        if exists|i: int| 0 <= i < s.len() && (#[trigger] s[i]).0 == g {
            let i = choose|i: int| 0 <= i < s.len() && (#[trigger] s[i]).0 == g;
            lemma_lookup_at(s, i, g);
            assert(t[i] == s[i]);
            lemma_lookup_at(t, i, g);
        } else {
            assert forall|i: int| 0 <= i < t.len() implies (#[trigger] t[i]).0 != g by {
                if i < s.len() {
                    assert(t[i] == s[i]);
                }
            }
        }
    }
}

/// `b1` is buffer `b0` with frame `f` added: unchanged when a frame of
/// its number is there, otherwise with `f` too; by ascending number.
pub open spec fn added(b0: Seq<FrameView>, f: FrameView, b1: Seq<FrameView>) -> bool {
    &&& (exists|i: int| 0 <= i < b0.len() && seq_num(b0[i]) == seq_num(f)) ==> b1 == b0
    &&& !(exists|i: int| 0 <= i < b0.len() && seq_num(b0[i]) == seq_num(f)) ==> b1.to_set()
        == b0.to_set().insert(f)
    &&& forall|i: int, j: int| 0 <= i < j < b1.len() ==> seq_num(b1[i]) < seq_num(b1[j])
}

/// No frame arrived for the slot for more than `ttl` seconds before `now`.
pub open spec fn idle(x: Slot, now: u64, ttl: u64) -> bool {
    x.2 + ttl < now
}

/// A slot that had a frame within `ttl` seconds before `now`.
pub open spec fn is_busy(now: u64, ttl: u64) -> spec_fn(Slot) -> bool {
    |x: Slot| !idle(x, now, ttl)
}

/// A slot that had no frame for more than `ttl` seconds before `now`.
pub open spec fn is_idle(now: u64, ttl: u64) -> spec_fn(Slot) -> bool {
    |x: Slot| idle(x, now, ttl)
}

/// Keeping some slots keeps their buffers well formed and their hashes
/// distinct.
proof fn lemma_filter_keeps(s: Seq<Slot>, p: spec_fn(Slot) -> bool, now: u64, ttl: u64)
    requires
        unique_hashes(s),
        forall|i: int| 0 <= i < s.len() ==> buffer_wf((#[trigger] s[i]).1@, s[i].0),
    ensures
        unique_hashes(s.filter(p)),
        forall|i: int| 0 <= i < s.filter(p).len() ==> buffer_wf((#[trigger] s.filter(p)[i]).1@, s.filter(p)[i].0),
    decreases s.len(),
{
    let f = s.filter(p);
    assert forall|i: int| 0 <= i < f.len() implies buffer_wf((#[trigger] f[i]).1@, f[i].0) by {
        s.lemma_filter_contains_rev(p, f[i]);
        let j = choose|j: int| 0 <= j < s.len() && s[j] == f[i];
        assert(f.contains(f[i]));
    }
    if s.len() > 0 {
        let t = s.drop_last();
        assert(s =~= t.push(s.last()));
        assert forall|i: int, j: int| 0 <= i < t.len() && 0 <= j < t.len() && i != j implies (#[trigger] t[i]).0 != (#[trigger] t[j]).0 by {
            assert(t[i] == s[i] && t[j] == s[j]);
        }
        assert forall|i: int| 0 <= i < t.len() implies buffer_wf((#[trigger] t[i]).1@, t[i].0) by {
            assert(t[i] == s[i]);
        }
        lemma_filter_keeps(t, p, now, ttl);
        t.lemma_filter_push(s.last(), p);
        let g = t.filter(p);
        if p(s.last()) {
            assert forall|i: int| 0 <= i < g.len() implies (#[trigger] g[i]).0 != s.last().0 by {
                assert(g.contains(g[i]));
                t.lemma_filter_contains_rev(p, g[i]);
                let j = choose|j: int| 0 <= j < t.len() && t[j] == g[i];
                assert(s[j] == t[j]);
                assert(s[j].0 != s[s.len() - 1].0);
            }
            assert forall|i: int, j: int| 0 <= i < f.len() && 0 <= j < f.len() && i != j implies (#[trigger] f[i]).0 != (#[trigger] f[j]).0 by {
                if i < g.len() && j < g.len() {
                    assert(f[i] == g[i] && f[j] == g[j]);
                } else if i < g.len() {
                    assert(f[i] == g[i]);
                } else {
                    assert(f[j] == g[j]);
                }
            }
        }
    }
}

/// Assembly buffers, one per sequence hash.
pub struct Collector {
    pending: Vec<Slot>,
}

impl Collector {
    /// The buffers with their hashes.
    pub closed spec fn buffers(&self) -> Seq<Slot> {
        self.pending@
    }

    /// Each buffer holds well-formed frames of its own hash by ascending
    /// number, and no two buffers share a hash.
    pub open spec fn wf(&self) -> bool {
        &&& forall|i: int| 0 <= i < self.buffers().len() ==> buffer_wf((#[trigger] self.buffers()[i]).1@, self.buffers()[i].0)
        &&& unique_hashes(self.buffers())
    }

    /// The frames held for sequence `h`, by ascending number.
    pub open spec fn buffer_for(&self, h: Ident32) -> Seq<FrameView> {
        lookup(self.buffers(), h)
    }

    pub fn new() -> (r: Self)
        ensures
            r.wf(),
            forall|h: Ident32| r.buffer_for(h) == Seq::<FrameView>::empty(),
    {
        Collector { pending: Vec::new() }
    }

    /// Some buffer is kept for hash `h`.
    pub open spec fn has_slot(&self, h: Ident32) -> bool {
        exists|i: int| 0 <= i < self.buffers().len() && (#[trigger] self.buffers()[i]).0 == h
    }

    /// Take out the buffer of hash `h`, or an empty one.
    fn take_buffer(&mut self, h: &Ident32) -> (r: Vec<InMemoryEnvelope>)
        requires
            old(self).wf(),
        ensures
            final(self).wf(),
            !final(self).has_slot(*h),
            views(r@) == old(self).buffer_for(*h),
            buffer_wf(r@, *h),
            forall|g: Ident32| g != *h ==> final(self).buffer_for(g) == old(self).buffer_for(g),
    {
        let ghost old_p = self.pending@;
        let mut k: usize = 0;
        while k < self.pending.len() && self.pending[k].0 != *h
            invariant
                0 <= k <= self.pending@.len(),
                self.pending@ == old_p,
                forall|j: int| 0 <= j < k ==> (#[trigger] self.pending@[j]).0 != *h,
            decreases self.pending@.len() - k,
        {
            k = k + 1;
        }
        if k == self.pending.len() {
            return Vec::new();
        }
        let (_, b, _) = self.pending.remove(k);
        proof {
            lemma_lookup_at(old_p, k as int, *h);
            lemma_unique_remove(old_p, k as int);
            assert forall|g: Ident32| g != *h implies lookup(self.pending@, g) == lookup(old_p, g) by {
                lemma_lookup_remove(old_p, k as int, g);
            }
            assert forall|i: int| 0 <= i < self.pending@.len() implies (#[trigger] self.pending@[i]).0 != *h by {
                if i >= k {
                    assert(self.pending@[i] == old_p[i + 1]);
                    assert(old_p[i + 1].0 != old_p[k as int].0);
                }
            }
            assert forall|i: int| 0 <= i < self.pending@.len() implies buffer_wf((#[trigger] self.pending@[i]).1@, self.pending@[i].0) by {
                if i >= k {
                    assert(self.pending@[i] == old_p[i + 1]);
                }
            }
        }
        b
    }

    /// Keep `buf` as the buffer of hash `h`, which has none.
    fn put_buffer(&mut self, h: Ident32, buf: Vec<InMemoryEnvelope>, now: u64)
        requires
            old(self).wf(),
            !old(self).has_slot(h),
            buffer_wf(buf@, h),
        ensures
            final(self).wf(),
            final(self).buffer_for(h) == views(buf@),
            forall|g: Ident32| g != h ==> final(self).buffer_for(g) == old(self).buffer_for(g),
    {
        let ghost old_p = self.pending@;
        let ghost x = (h, buf, now);
        self.pending.push((h, buf, now));
        proof {
            assert forall|g: Ident32| g != h implies lookup(self.pending@, g) == lookup(old_p, g) by {
                lemma_lookup_push(old_p, x, g);
            }
            lemma_lookup_push(old_p, x, h);
            assert forall|i: int| 0 <= i < self.pending@.len() implies buffer_wf((#[trigger] self.pending@[i]).1@, self.pending@[i].0) by {
                if i < old_p.len() {
                    assert(self.pending@[i] == old_p[i]);
                }
            }
        }
    }

    /// Take out the buffers that had no frame for more than `ttl` seconds
    /// before `now`, so that their frames can be held in the journal; the
    /// other buffers stay, in their order.
    #[verifier::rlimit(60)]
    pub fn evict_idle(&mut self, now: u64, ttl: u64) -> (r: Vec<Slot>)
        requires
            old(self).wf(),
        ensures
            final(self).wf(),
            final(self).buffers() == old(self).buffers().filter(is_busy(now, ttl)),
            r@ == old(self).buffers().filter(is_idle(now, ttl)),
            forall|k: int| 0 <= k < r@.len() ==> buffer_wf((#[trigger] r@[k]).1@, r@[k].0),
    {
        let ghost old_p = self.pending@;
        let ghost busy = is_busy(now, ttl);
        let ghost quiet = is_idle(now, ttl);
        let mut kept: Vec<Slot> = Vec::new();
        let mut out: Vec<Slot> = Vec::new();
        let ghost mut i: int = 0;
        while self.pending.len() > 0
            invariant
                0 <= i <= old_p.len(),
                self.pending@ == old_p.subrange(i, old_p.len() as int),
                busy == is_busy(now, ttl),
                quiet == is_idle(now, ttl),
                kept@ == old_p.subrange(0, i).filter(busy),
                out@ == old_p.subrange(0, i).filter(quiet),
            decreases self.pending@.len(),
        {
            let x = self.pending.remove(0);
            proof {
                assert(x == old_p[i]);
                assert(old_p.subrange(0, i + 1) =~= old_p.subrange(0, i).push(old_p[i]));
                old_p.subrange(0, i).lemma_filter_push(old_p[i], busy);
                old_p.subrange(0, i).lemma_filter_push(old_p[i], quiet);
                assert(self.pending@ =~= old_p.subrange(i + 1, old_p.len() as int));
            }
            if x.2 as u128 + ttl as u128 >= now as u128 {
                kept.push(x);
            } else {
                out.push(x);
            }
            proof {
                i = i + 1;
            }
        }
        proof {
            assert(old_p.subrange(0, old_p.len() as int) =~= old_p);
            lemma_filter_keeps(old_p, busy, now, ttl);
            lemma_filter_keeps(old_p, quiet, now, ttl);
        }
        self.pending = kept;
        out
    }

    /// Add a frame to the buffer of its sequence, creating the buffer if
    /// needed. When the sequence is then complete the buffer is dropped and
    /// the message returned.
    pub fn queue(&mut self, env: InMemoryEnvelope, now: u64) -> (r: Option<Message>)
        requires
            old(self).wf(),
            frame_of(env, seq_hash(env@)),
        ensures
            final(self).wf(),
            forall|h: Ident32| h != seq_hash(env@) ==> final(self).buffer_for(h) == old(self).buffer_for(h),
            ({
                let h = seq_hash(env@);
                let b0 = old(self).buffer_for(h);
                exists|b1: Seq<FrameView>| {
                    &&& #[trigger] added(b0, env@, b1)
                    &&& match r {
                        Some(m) => complete(b1) && m.id == h && m.received == now && m.payload@ == concat_payloads(b1)
                            && final(self).buffer_for(h) == Seq::<FrameView>::empty(),
                        None => !complete(b1) && final(self).buffer_for(h) == b1,
                    }
                }
            }),
    {
        let q = env.header.get_seq_id().unwrap();
        let ghost f = env@;
        let mut buf = self.take_buffer(&q.hash);
        let ghost old_buf = buf;
        let ghost b0 = views(buf@);
        let r = join_frames(&mut buf, env, now);
        proof {
            let b1 = views(buf@);
            if exists|i: int| 0 <= i < b0.len() && seq_num(b0[i]) == seq_num(f) {
                let i = choose|i: int| 0 <= i < b0.len() && seq_num(b0[i]) == seq_num(f);
                assert(seq_num(old_buf@[i]@) == seq_num(f));
            } else {
                assert forall|i: int| 0 <= i < old_buf@.len() implies seq_num(old_buf@[i]@) != seq_num(f) by {
                    assert(b0[i] == old_buf@[i]@);
                }
            }
            assert forall|i: int, j: int| 0 <= i < j < b1.len() implies seq_num(b1[i]) < seq_num(b1[j]) by {
                assert(b1[i] == buf@[i]@ && b1[j] == buf@[j]@);
            }
            assert(added(b0, f, b1));
        }
        match r {
            Some(m) => {
                proof {
                    assert(!self.has_slot(q.hash));
                    assert(lookup(self.pending@, q.hash) == Seq::<FrameView>::empty());
                }
                Some(m)
            },
            None => {
                self.put_buffer(q.hash, buf, now);
                None
            },
        }
    }
}

/// The number of frames that `len` payload bytes take in chunks of
/// `chunk`: one at least.
pub open spec fn frame_count(len: nat, chunk: nat) -> nat
    decreases len,
{
    if len <= chunk || chunk == 0 {
        1
    } else {
        1 + frame_count((len - chunk) as nat, chunk)
    }
}

proof fn lemma_frame_count_positive(len: nat, chunk: nat)
    ensures
        frame_count(len, chunk) >= 1,
        len > chunk && chunk > 0 ==> frame_count(len, chunk) >= 2,
    decreases len,
{
    if len > chunk && chunk > 0 {
        lemma_frame_count_positive((len - chunk) as nat, chunk);
    }
}

/// The number of frames for `len` bytes in chunks of `chunk`.
fn count_frames(len: usize, chunk: usize) -> (r: usize)
    requires
        chunk > 0,
        frame_count(len as nat, chunk as nat) <= u32::MAX,
    ensures
        r == frame_count(len as nat, chunk as nat),
{
    let mut n: usize = 1;
    let mut rem: usize = len;
    while rem > chunk
        invariant
            chunk > 0,
            rem <= len,
            n >= 1,
            (n - 1) + frame_count(rem as nat, chunk as nat) == frame_count(len as nat, chunk as nat),
            frame_count(len as nat, chunk as nat) <= u32::MAX,
        decreases rem,
    {
        proof {
            lemma_frame_count_positive(rem as nat, chunk as nat);
            lemma_frame_count_positive((rem - chunk) as nat, chunk as nat);
        }
        rem = rem - chunk;
        n = n + 1;
    }
    n
}

/// `r` is `payload` cut into data frames from `sender` to `recipient` under
/// sequence `hash`, of at most `chunk` payload bytes each, numbered from
/// zero; put back together in order, their payloads are `payload`.
pub open spec fn sliced(
    r: Seq<InMemoryEnvelope>,
    sender: Address,
    recipient: Recipient,
    hash: Ident32,
    payload: Seq<u8>,
    chunk: u16,
) -> bool {
    &&& r.len() == frame_count(payload.len(), chunk as nat)
    &&& buffer_wf(r, hash)
    &&& complete(views(r))
    &&& concat_payloads(views(r)) == payload
    &&& forall|i: int| 0 <= i < r.len() ==> {
        &&& fields((#[trigger] r[i]).header).modes == DATA
        &&& fields(r[i].header).sender == sender
        &&& fields(r[i].header).recipient == Some(recipient)
        &&& payload_of(r[i]@).len() <= chunk
    }
}

/// Cut `payload` into data frames of at most `chunk` payload bytes, numbered
/// from zero, all under sequence `hash`; the last frame's number closes the
/// sequence. Put back together in order, their payloads are `payload`.
pub fn slice_message(
    sender: Address,
    recipient: Recipient,
    hash: Ident32,
    payload: &[u8],
    chunk: u16,
) -> (r: Vec<InMemoryEnvelope>)
    requires
        chunk > 0,
        frame_count(payload@.len(), chunk as nat) <= u32::MAX,
    ensures
        sliced(r@, sender, recipient, hash, payload@, chunk),
{
    let len = payload.len();
    let c = chunk as usize;
    let n = count_frames(len, c);
    let max = (n - 1) as u32;
    let mut out: Vec<InMemoryEnvelope> = Vec::new();
    let mut pos: usize = 0;
    let mut i: usize = 0;
    while i < n
        invariant
            0 <= i <= n,
            n == frame_count(len as nat, c as nat),
            n >= 1,
            n <= u32::MAX,
            max == n - 1,
            c == chunk,
            c > 0,
            len == payload@.len(),
            pos <= len,
            i < n ==> i + frame_count((len - pos) as nat, c as nat) == n,
            i == n ==> pos == len,
            out@.len() == i,
            forall|a: int| 0 <= a < i ==> frame_of(#[trigger] out@[a], hash) && seq_num(out@[a]@) == a
                && seq_max(out@[a]@) == max,
            forall|a: int| 0 <= a < i ==> {
                &&& fields((#[trigger] out@[a]).header).modes == DATA
                &&& fields(out@[a].header).sender == sender
                &&& fields(out@[a].header).recipient == Some(recipient)
                &&& payload_of(out@[a]@).len() <= chunk
            },
            concat_payloads(views(out@)) == payload@.subrange(0, pos as int),
        decreases n - i,
    {
        proof {
            lemma_frame_count_positive((len - pos) as nat, c as nat);
            if len - pos > c {
                lemma_frame_count_positive((len - pos - c) as nat, c as nat);
            }
        }
        let end = if len - pos > c { pos + c } else { len };
        let mut body: Vec<u8> = Vec::new();
        put_slice(&mut body, &payload[pos..end]);
        let q = SequenceIdV1 { hash, num: i as u32, max };
        let header = CarrierFrameHeader::new_blockdata_frame(sender, recipient, q, (end - pos) as u16);
        let env = match InMemoryEnvelope::from_header_and_payload(header, body) {
            Ok(e) => e,
            Err(_) => {
                assert(false);
                return out;
            },
        };
        let ghost before = out@;
        out.push(env);
        proof {
            assert(payload_of(env@) =~= payload@.subrange(pos as int, end as int));
            assert(views(out@).drop_last() =~= views(before));
            assert(payload@.subrange(0, end as int) =~= payload@.subrange(0, pos as int) + payload@.subrange(pos as int, end as int));
            assert(out@[i as int] == env);
        }
        pos = end;
        i = i + 1;
    }
    proof {
        assert(payload@.subrange(0, len as int) =~= payload@);
        assert forall|a: int| 0 <= a < out@.len() implies seq_num(#[trigger] views(out@)[a]) == a by {
            assert(views(out@)[a] == out@[a]@);
        }
        assert(views(out@).last() == out@[n - 1]@);
    }
    out
}

/// The frames are held by strictly ascending number.
pub open spec fn ascending(s: Seq<FrameView>) -> bool {
    forall|i: int, j: int| 0 <= i < j < s.len() ==> seq_num(s[i]) < seq_num(s[j])
}

/// Arrival order does not matter: two buffers kept by ascending number
/// that hold the same frames are the same buffer, and give the same
/// payload.
pub proof fn lemma_assembly_order_free(a: Seq<FrameView>, b: Seq<FrameView>)
    requires
        ascending(a),
        ascending(b),
        a.to_set() == b.to_set(),
    ensures
        a == b,
        concat_payloads(a) == concat_payloads(b),
    decreases a.len(),
{
    if a.len() == 0 {
        if b.len() > 0 {
            assert(b.to_set().contains(b[0]));
        }
        assert(b.len() == 0);
        assert(a =~= b);
    } else {
        assert(a.to_set().contains(a.last()));
        assert(b.len() > 0) by {
            if b.len() == 0 {
                assert(b.to_set() =~= Set::<FrameView>::empty());
            }
        }
        assert(b.to_set().contains(b.last()));
        let i = choose|i: int| 0 <= i < b.len() && b[i] == a.last();
        let j = choose|j: int| 0 <= j < a.len() && a[j] == b.last();
        if j < a.len() - 1 {
            assert(seq_num(a[j]) < seq_num(a.last()));
        }
        if i < b.len() - 1 {
            assert(seq_num(b[i]) < seq_num(b.last()));
        }
        assert(a.last() == b.last());
        let a2 = a.drop_last();
        let b2 = b.drop_last();
        assert forall|x: FrameView| a2.to_set().contains(x) <==> b2.to_set().contains(x) by {
            if a2.to_set().contains(x) {
                let k = choose|k: int| 0 <= k < a2.len() && a2[k] == x;
                assert(a.to_set().contains(x));
                let m = choose|m: int| 0 <= m < b.len() && b[m] == x;
                assert(seq_num(a[k]) < seq_num(a.last()));
                if m == b.len() - 1 {
                    assert(false);
                }
                assert(b2[m] == x);
            }
            if b2.to_set().contains(x) {
                let k = choose|k: int| 0 <= k < b2.len() && b2[k] == x;
                assert(b.to_set().contains(x));
                let m = choose|m: int| 0 <= m < a.len() && a[m] == x;
                assert(seq_num(b[k]) < seq_num(b.last()));
                if m == a.len() - 1 {
                    assert(false);
                }
                assert(a2[m] == x);
            }
        }
        assert(a2.to_set() =~= b2.to_set());
        lemma_assembly_order_free(a2, b2);
        assert(a =~= a2.push(a.last()));
        assert(b =~= b2.push(b.last()));
    }
}

/// Strictly ascending numbers that end at `len - 1` are `0, 1, 2, ...`.
proof fn lemma_ascending_from_zero(s: Seq<InMemoryEnvelope>, hash: Ident32, i: int)
    requires
        buffer_wf(s, hash),
        s.len() > 0,
        seq_num(s.last()@) == s.len() - 1,
        0 <= i < s.len(),
    ensures
        seq_num(s[i]@) == i,
    decreases s.len() - i,
{
    if i < s.len() - 1 {
        lemma_ascending_from_zero(s, hash, i + 1);
        lemma_ascending_lower_bound(s, hash, i);
    }
}

proof fn lemma_ascending_lower_bound(s: Seq<InMemoryEnvelope>, hash: Ident32, i: int)
    requires
        buffer_wf(s, hash),
        0 <= i < s.len(),
    ensures
        seq_num(s[i]@) >= i,
    decreases i,
{
    if i > 0 {
        lemma_ascending_lower_bound(s, hash, i - 1);
        assert(seq_num(s[i - 1]@) < seq_num(s[i]@));
    }
}

} // verus!
