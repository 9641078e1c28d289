//! Sizing shared by the endpoints' bounded send queues.
use vstd::prelude::*;

verus! {

/// Slots of a channel buffer for chunks of `T` bytes: 8 MiB worth of
/// chunks, so 8 slots of 1 MiB or 8192 slots of 1 KiB.
pub fn size_commonbuf_t<const T: usize>() -> (r: usize)
    requires
        T > 0,
    ensures
        r == 8_388_608int / (T as int),
{
    8_388_608 / T
}

/// The endpoints of a router, by ID. An ID is the endpoint's position;
/// removing an endpoint leaves its slot empty, so the other IDs stay valid.
pub struct DriverMap<T> {
    slots: Vec<Option<T>>,
}

impl<T> DriverMap<T> {
    /// The slots, by ID.
    pub closed spec fn slots(&self) -> Seq<Option<T>> {
        self.slots@
    }

    /// An empty map.
    pub fn new() -> (r: Self)
        ensures
            r.slots() == Seq::<Option<T>>::empty(),
    {
        DriverMap { slots: Vec::new() }
    }

    /// Add an endpoint; gives its ID, the next one in order.
    pub fn add(&mut self, ep: T) -> (r: usize)
        ensures
            r == old(self).slots().len(),
            final(self).slots() == old(self).slots().push(Some(ep)),
    {
        let id = self.slots.len();
        self.slots.push(Some(ep));
        id
    }

    /// Remove the endpoint with ID `id`; its slot stays, empty.
    pub fn remove(&mut self, id: usize)
        requires
            id < old(self).slots().len(),
        ensures
            final(self).slots() == old(self).slots().update(id as int, None),
    {
        self.slots.set(id, None);
    }

    /// The endpoint with ID `id`, which must not have been removed.
    pub fn get(&self, id: usize) -> (r: &T)
        requires
            id < self.slots().len(),
            self.slots()[id as int] is Some,
        ensures
            Some(*r) == self.slots()[id as int],
    {
        match &self.slots[id] {
            Some(ep) => ep,
            None => vstd::pervasive::unreached(),
        }
    }

    /// The IDs of the endpoints that were not removed, in order.
    pub fn get_ids(&self) -> (r: Vec<usize>)
        ensures
            forall|i: int, j: int| 0 <= i < j < r@.len() ==> r@[i] < r@[j],
            forall|id: usize| r@.contains(id) <==> (id < self.slots().len() && self.slots()[id as int] is Some),
    {
        let mut out: Vec<usize> = Vec::new();
        let mut i: usize = 0;
        while i < self.slots.len()
            invariant
                0 <= i <= self.slots@.len(),
                forall|a: int, b: int| 0 <= a < b < out@.len() ==> out@[a] < out@[b],
                forall|a: int| 0 <= a < out@.len() ==> out@[a] < i,
                forall|id: usize| out@.contains(id) <==> (id < i && self.slots@[id as int] is Some),
            decreases self.slots@.len() - i,
        {
            if self.slots[i].is_some() {
                let ghost before = out@;
                out.push(i);
                proof {
                    assert forall|id: usize| out@.contains(id) <==> (id < i + 1 && self.slots@[id as int] is Some) by {
                        if id == i {
                            assert(out@[out@.len() - 1] == id);
                        } else if out@.contains(id) {
                            let k = choose|k: int| 0 <= k < out@.len() && out@[k] == id;
                            if k == before.len() {
                                assert(out@[k] == i);
                            }
                            assert(before[k] == id);
                            assert(before.contains(id));
                        } else if before.contains(id) {
                            let k = choose|k: int| 0 <= k < before.len() && before[k] == id;
                            assert(out@[k] == id);
                        }
                    }
                }
            }
            i = i + 1;
        }
        out
    }
}

} // verus!
