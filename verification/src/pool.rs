//! The generational arena that owns the objects of a scene.
//!
//! A pool is a growable row of slots. A slot is vacant or holds one object, and
//! carries a generation that goes up by one every time its object is removed.
//! A handle names a slot together with the generation it had when the object
//! was put there, so a handle kept from before a removal no longer matches.

use crate::handle::Handle;
use vstd::prelude::*;

verus! {

struct Slot<T> {
    generation: u32,
    payload: Option<T>,
}

/// A generational arena. Its view is the map from the valid handles to the
/// objects they refer to.
pub struct HandlePool<T> {
    slots: Vec<Slot<T>>,
    free: Vec<u32>,
    live: usize,
}

impl<T> View for HandlePool<T> {
    type V = Map<Handle, T>;

    closed spec fn view(&self) -> Map<Handle, T> {
        Map::new(|h: Handle| self.holds(h), |h: Handle| self.slots@[h.index as int].payload->0)
    }
}

impl<T> HandlePool<T> {
    spec fn holds(&self, h: Handle) -> bool {
        &&& (h.index as int) < self.slots@.len()
        &&& self.slots@[h.index as int].generation == h.generation
        &&& self.slots@[h.index as int].payload is Some
    }

    /// The invariant of the pool. `new` establishes it and every method keeps it.
    pub closed spec fn wf(&self) -> bool {
        &&& self.slots@.len() <= u32::MAX
        &&& forall|i: int| 0 <= i < self.slots@.len() ==> (#[trigger] self.slots@[i]).generation >= 1
        &&& forall|k: int|
            0 <= k < self.free@.len() ==> (#[trigger] self.free@[k] as int) < self.slots@.len()
                && self.slots@[self.free@[k] as int].payload is None
        &&& self.free@.no_duplicates()
        &&& self.live + self.free@.len() <= self.slots@.len()
        &&& self@.dom().finite()
        &&& self.live == self@.dom().len()
    }

    /// Whether `h` can never be valid again: its slot has moved on to a later
    /// generation, or has been withdrawn from use. The handle of an object
    /// that was removed is stale, and a stale handle stays stale.
    pub closed spec fn is_stale(&self, h: Handle) -> bool {
        &&& (h.index as int) < self.slots@.len()
        &&& {
            ||| h.generation < self.slots@[h.index as int].generation
            ||| {
                &&& h.generation == self.slots@[h.index as int].generation
                &&& self.slots@[h.index as int].payload is None
                &&& !self.free@.contains(h.index)
            }
        }
    }

    /// Whether one more object can be stored: a vacant slot waits for reuse,
    /// or the row of slots can still grow within the range of a handle's index.
    pub closed spec fn spec_has_room(&self) -> bool {
        self.free@.len() > 0 || self.slots@.len() < u32::MAX
    }

    /// The number of slots, vacant or not. It never goes down, and goes up by
    /// one where an object is stored while no vacant slot waits for reuse.
    pub closed spec fn slot_count(&self) -> nat {
        self.slots@.len()
    }

    /// While fewer slots exist than a handle's index can tell apart, there is
    /// room.
    pub proof fn room_below_limit(&self)
        requires
            self.slot_count() < u32::MAX,
        ensures
            self.spec_has_room(),
    {
    }

    /// Whether every vacant slot is as new: of the first generation, and
    /// waiting for reuse. A pool is so as long as nothing was removed from it.
    pub closed spec fn is_pristine(&self) -> bool {
        forall|i: int|
            0 <= i < self.slots@.len() && (#[trigger] self.slots@[i]).payload is None
                ==> self.slots@[i].generation == 1 && self.free@.contains(i as u32)
    }

    /// Whether an object can be put under the handle `h` in a pristine pool:
    /// `h` is of a generation an arena gives out, its index is in range, and
    /// no valid handle has the same index.
    pub open spec fn can_place(&self, h: Handle) -> bool {
        &&& h.generation >= 1
        &&& h.index < u32::MAX
        &&& forall|x: Handle| self@.contains_key(x) ==> x.index != h.index
    }

    /// Two valid handles with the same index are one handle; every valid
    /// handle is of a generation from one on, and its index is the place of a
    /// slot.
    pub proof fn valid_handles_differ_by_index(&self, a: Handle, b: Handle)
        requires
            self.wf(),
            self@.contains_key(a),
        ensures
            a.generation >= 1,
            a.index < u32::MAX,
            a.index < self.slot_count(),
            self@.contains_key(b) && a.index == b.index ==> a == b,
    {
    }

    /// The number of objects in the pool.
    pub open spec fn spec_len(&self) -> nat {
        self@.dom().len()
    }

    /// A stale handle is not valid.
    pub proof fn stale_is_invalid(&self, h: Handle)
        requires
            self.wf(),
            self.is_stale(h),
        ensures
            !self@.contains_key(h),
    {
    }

    /// No valid handle is the none handle.
    pub proof fn valid_is_some(&self, h: Handle)
        requires
            self.wf(),
            self@.contains_key(h),
        ensures
            h.spec_is_some(),
    {
    }

    /// An empty pool.
    pub fn new() -> (pool: Self)
        ensures
            pool.wf(),
            pool@ == Map::<Handle, T>::empty(),
            pool.slot_count() == 0,
            pool.spec_has_room(),
            pool.is_pristine(),
            forall|h: Handle| !pool.is_stale(h),
    {
        let pool = HandlePool { slots: Vec::new(), free: Vec::new(), live: 0 };
        assert(pool@ =~= Map::<Handle, T>::empty());
        pool
    }

    /// Whether one more object can be stored.
    #[verifier::when_used_as_spec(spec_has_room)]
    pub fn has_room(&self) -> (r: bool)
        requires
            self.wf(),
        ensures
            r == self.spec_has_room(),
    {
        self.free.len() > 0 || self.slots.len() < u32::MAX as usize
    }

    /// The number of slots, vacant or not.
    pub fn slots(&self) -> (r: usize)
        requires
            self.wf(),
        ensures
            r == self.slot_count(),
            r <= u32::MAX,
    {
        self.slots.len()
    }

    /// The number of objects in the pool.
    pub fn len(&self) -> (r: usize)
        requires
            self.wf(),
        ensures
            r == self.spec_len(),
    {
        self.live
    }

    /// Whether `h` refers to an object of the pool.
    pub fn is_valid_handle(&self, h: Handle) -> (r: bool)
        requires
            self.wf(),
        ensures
            r == self@.contains_key(h),
    {
        let i: usize = h.index as usize;
        i < self.slots.len() && self.slots[i].generation == h.generation
            && self.slots[i].payload.is_some()
    }

    /// Stores `value` and returns its handle. A vacant slot is reused before
    /// the row of slots grows. The handle is new: it was not valid before and
    /// is none of the stale ones.
    pub fn insert(&mut self, value: T) -> (h: Handle)
        requires
            old(self).wf(),
            old(self).spec_has_room(),
        ensures
            final(self).wf(),
            h.spec_is_some(),
            !old(self)@.contains_key(h),
            !old(self).is_stale(h),
            final(self)@ == old(self)@.insert(h, value),
            old(self).slot_count() <= final(self).slot_count() <= old(self).slot_count() + 1,
            forall|x: Handle| old(self).is_stale(x) ==> final(self).is_stale(x),
    {
        let ghost before = *self;
        if self.free.len() > 0 {
            let index: u32 = self.free.pop().unwrap();
            let i: usize = index as usize;
            assert(before.free@[before.free@.len() - 1] == index);
            let generation: u32 = self.slots[i].generation;
            self.slots.set(i, Slot { generation, payload: Some(value) });
            self.live = self.live + 1;
            let h = Handle { index, generation };
            proof {
                assert(self@ =~= before@.insert(h, value));
                assert forall|k: int| 0 <= k < self.free@.len() implies (#[trigger] self.free@[k]
                    as int) < self.slots@.len() && self.slots@[self.free@[k] as int].payload
                    is None by {
                    assert(self.free@[k] == before.free@[k]);
                    assert(before.free@[k] != before.free@[before.free@.len() - 1]);
                }
                assert forall|x: Handle| before.is_stale(x) implies self.is_stale(x) by {
                    if x.index == index {
                        assert(before.free@.contains(index));
                    } else {
                        if !before.free@.contains(x.index) && self.free@.contains(x.index) {
                            let k = choose|k: int|
                                0 <= k < self.free@.len() && self.free@[k] == x.index;
                            assert(before.free@[k] == x.index);
                        }
                    }
                }
            }
            h
        } else {
            let index: u32 = self.slots.len() as u32;
            self.slots.push(Slot { generation: 1, payload: Some(value) });
            self.live = self.live + 1;
            let h = Handle { index, generation: 1 };
            proof {
                assert(self@ =~= before@.insert(h, value));
                assert forall|x: Handle| before.is_stale(x) implies self.is_stale(x) by {
                    assert(self.slots@[x.index as int] == before.slots@[x.index as int]);
                }
            }
            h
        }
    }

    /// Whether an object can be put under the handle `h`.
    pub fn is_placeable(&self, h: Handle) -> (r: bool)
        requires
            self.wf(),
            self.is_pristine(),
        ensures
            r == self.can_place(h),
    {
        if h.generation == 0 || h.index == u32::MAX {
            return false;
        }
        let i: usize = h.index as usize;
        if i < self.slots.len() && self.slots[i].payload.is_some() {
            proof {
                let x = Handle { index: h.index, generation: self.slots@[i as int].generation };
                assert(self@.contains_key(x));
            }
            return false;
        }
        true
    }

    /// Puts `value` into a pristine pool under the handle `h`, as a scene
    /// read back from a stream needs it. Slots that the row lacks up to the
    /// index of `h` are opened, vacant. Where `h` cannot be placed, `value`
    /// comes back and nothing changes.
    #[verifier::rlimit(40)]
    pub fn insert_at(&mut self, h: Handle, value: T) -> (r: Result<(), T>)
        requires
            old(self).wf(),
            old(self).is_pristine(),
        ensures
            final(self).wf(),
            final(self).is_pristine(),
            r is Ok <==> old(self).can_place(h),
            r is Ok ==> final(self)@ == old(self)@.insert(h, value),
            r matches Err(back) ==> back == value && final(self)@ == old(self)@,
    {
        let ghost before = *self;
        if h.generation == 0 || h.index == u32::MAX {
            return Err(value);
        }
        let i: usize = h.index as usize;
        if i < self.slots.len() {
            if self.slots[i].payload.is_some() {
                proof {
                    let x = Handle { index: h.index, generation: self.slots@[i as int].generation };
                    assert(self@.contains_key(x));
                }
                return Err(value);
            }
            let mut k: usize = 0;
            let waiting: usize = self.free.len();
            proof {
                assert(self.free@.contains(h.index));
            }
            while self.free[k] != h.index
                invariant
                    k < self.free@.len(),
                    waiting == self.free@.len(),
                    self.free@.contains(h.index),
                    forall|j: int| 0 <= j < k ==> self.free@[j] != h.index,
                decreases self.free@.len() - k,
            {
                proof {
                    let w = choose|w: int| 0 <= w < self.free@.len() && self.free@[w] == h.index;
                    assert(w > k);
                }
                k = k + 1;
            }
            let _ = self.free.remove(k);
            self.slots.set(i, Slot { generation: h.generation, payload: Some(value) });
            self.live = self.live + 1;
            proof {
                before.free@.remove_ensures(k as int);
                assert forall|j: int| 0 <= j < self.free@.len() implies (#[trigger] self.free@[j]
                    as int) < self.slots@.len() && self.slots@[self.free@[j] as int].payload
                    is None by {
                    let j0 = if j < k {
                        j
                    } else {
                        j + 1
                    };
                    assert(self.free@[j] == before.free@[j0]);
                    assert(before.free@[j0] != before.free@[k as int]);
                }
                assert(self.free@.no_duplicates()) by {
                    assert forall|a: int, b: int|
                        0 <= a < self.free@.len() && 0 <= b < self.free@.len() && a
                            != b implies self.free@[a] != self.free@[b] by {
                        let a0 = if a < k {
                            a
                        } else {
                            a + 1
                        };
                        let b0 = if b < k {
                            b
                        } else {
                            b + 1
                        };
                        assert(self.free@[a] == before.free@[a0]);
                        assert(self.free@[b] == before.free@[b0]);
                    }
                }
                assert(self@ =~= before@.insert(h, value));
                assert forall|j: int|
                    0 <= j < self.slots@.len() && (#[trigger] self.slots@[j]).payload
                        is None implies self.slots@[j].generation == 1 && self.free@.contains(
                    j as u32,
                ) by {
                    assert(before.slots@[j].payload is None);
                    let w = choose|w: int|
                        0 <= w < before.free@.len() && before.free@[w] == j as u32;
                    assert(w != k);
                    let w1 = if w < k {
                        w
                    } else {
                        w - 1
                    };
                    assert(self.free@[w1] == j as u32);
                }
            }
            Ok(())
        } else {
            while self.slots.len() < i
                invariant
                    self.wf(),
                    self.is_pristine(),
                    self@ == before@,
                    before.slots@.len() <= self.slots@.len() <= i,
                    i < u32::MAX,
                decreases i - self.slots@.len(),
            {
                let ghost then = *self;
                let n: u32 = self.slots.len() as u32;
                self.slots.push(Slot { generation: 1, payload: None });
                self.free.push(n);
                proof {
                    assert(!then.free@.contains(n)) by {
                        if then.free@.contains(n) {
                            let w = choose|w: int| 0 <= w < then.free@.len() && then.free@[w] == n;
                            assert((then.free@[w] as int) < then.slots@.len());
                        }
                    }
                    assert forall|j: int|
                        0 <= j < self.slots@.len() && (#[trigger] self.slots@[j]).payload
                            is None implies self.slots@[j].generation == 1 && self.free@.contains(
                        j as u32,
                    ) by {
                        if j < then.slots@.len() {
                            assert(then.slots@[j].payload is None);
                            let w = choose|w: int|
                                0 <= w < then.free@.len() && then.free@[w] == j as u32;
                            assert(self.free@[w] == j as u32);
                        } else {
                            assert(self.free@[then.free@.len() as int] == j as u32);
                        }
                    }
                    assert(self@ =~= then@);
                    assert forall|w: int| 0 <= w < self.free@.len() implies (#[trigger] self.free@[w]
                        as int) < self.slots@.len() && self.slots@[self.free@[w] as int].payload
                        is None by {
                        if w < then.free@.len() {
                            assert(self.free@[w] == then.free@[w]);
                        }
                    }
                }
            }
            let ghost grown = *self;
            self.slots.push(Slot { generation: h.generation, payload: Some(value) });
            self.live = self.live + 1;
            proof {
                assert(self@ =~= before@.insert(h, value));
                assert forall|w: int| 0 <= w < self.free@.len() implies (#[trigger] self.free@[w]
                    as int) < self.slots@.len() && self.slots@[self.free@[w] as int].payload
                    is None by {
                    assert(self.free@[w] == grown.free@[w]);
                }
                assert forall|j: int|
                    0 <= j < self.slots@.len() && (#[trigger] self.slots@[j]).payload
                        is None implies self.slots@[j].generation == 1 && self.free@.contains(
                    j as u32,
                ) by {
                    assert(grown.slots@[j].payload is None);
                }
            }
            Ok(())
        }
    }

    /// Takes the object of `h` out of the pool and returns it; returns nothing,
    /// and changes nothing, where `h` is not valid. The slot's generation goes
    /// up, so `h` is stale from then on.
    pub fn remove(&mut self, h: Handle) -> (r: Option<T>)
        requires
            old(self).wf(),
        ensures
            final(self).wf(),
            r == (if old(self)@.contains_key(h) {
                Some(old(self)@[h])
            } else {
                None
            }),
            final(self)@ == old(self)@.remove(h),
            old(self)@.contains_key(h) ==> final(self).is_stale(h),
            old(self).spec_has_room() ==> final(self).spec_has_room(),
            final(self).slot_count() == old(self).slot_count(),
            forall|x: Handle| old(self).is_stale(x) ==> final(self).is_stale(x),
    {
        let ghost before = *self;
        let i: usize = h.index as usize;
        if i >= self.slots.len() || self.slots[i].generation != h.generation
            || self.slots[i].payload.is_none() {
            assert(self@ =~= before@.remove(h));
            return None;
        }
        let generation: u32 = self.slots[i].generation;
        let taken: Option<T> = self.slots[i].payload.take();
        assert(taken == Some(before@[h]));
        assert(!before.free@.contains(h.index)) by {
            if before.free@.contains(h.index) {
                let k = choose|k: int| 0 <= k < before.free@.len() && before.free@[k] == h.index;
                assert(before.slots@[before.free@[k] as int].payload is None);
            }
        }
        if generation < u32::MAX {
            self.slots.set(i, Slot { generation: generation + 1, payload: None });
            self.free.push(h.index);
        }
        self.live = self.live - 1;
        proof {
            assert(self@ =~= before@.remove(h));
            assert forall|x: Handle| before.is_stale(x) implies self.is_stale(x) by {
                if x.index != h.index {
                    assert(self.slots@[x.index as int] == before.slots@[x.index as int]);
                    if self.free@.contains(x.index) && !before.free@.contains(x.index) {
                        let k = choose|k: int|
                            0 <= k < self.free@.len() && self.free@[k] == x.index;
                        assert(k < before.free@.len());
                        assert(before.free@[k] == x.index);
                    }
                }
            }
            assert(self.free@.no_duplicates());
        }
        taken
    }

    /// The object of `h`, if `h` is valid.
    pub fn get(&self, h: Handle) -> (r: Option<&T>)
        requires
            self.wf(),
        ensures
            r is Some <==> self@.contains_key(h),
            r matches Some(value) ==> *value == self@[h],
    {
        let i: usize = h.index as usize;
        if i < self.slots.len() && self.slots[i].generation == h.generation {
            self.slots[i].payload.as_ref()
        } else {
            None
        }
    }

    /// The object of `h`, open to change, if `h` is valid. Whatever is written
    /// through the reference replaces the object; nothing else changes.
    pub fn get_mut(&mut self, h: Handle) -> (r: Option<&mut T>)
        requires
            old(self).wf(),
        ensures
            final(self).wf(),
            r is Some <==> old(self)@.contains_key(h),
            r matches Some(value) ==> *value == old(self)@[h] && final(self)@ == old(self)@.insert(
                h,
                *final(value),
            ),
            r is None ==> final(self)@ == old(self)@,
            old(self).spec_has_room() == final(self).spec_has_room(),
            final(self).slot_count() == old(self).slot_count(),
            final(self).is_pristine() == old(self).is_pristine(),
            forall|x: Handle| old(self).is_stale(x) == final(self).is_stale(x),
    {
        let ghost before = *self;
        let i: usize = h.index as usize;
        if i < self.slots.len() && self.slots[i].generation == h.generation
            && self.slots[i].payload.is_some() {
            proof {
                assert forall|after: Self| before.differs_in_payload(after, h) implies #[trigger] after.wf()
                    && after@ == before@.insert(h, after.slots@[h.index as int].payload->0)
                    && after.spec_has_room() == before.spec_has_room() && after.slot_count()
                    == before.slot_count() && after.is_pristine() == before.is_pristine()
                    && (forall|x: Handle|
                    before.is_stale(x) == after.is_stale(x)) by {
                    before.payload_change_keeps_shape(after, h);
                }
            }
            self.slots[i].payload.as_mut()
        } else {
            None
        }
    }

    spec fn differs_in_payload(&self, after: Self, h: Handle) -> bool {
        &&& self.holds(h)
        &&& after.free@ == self.free@
        &&& after.live == self.live
        &&& after.slots@.len() == self.slots@.len()
        &&& after.slots@[h.index as int].generation == h.generation
        &&& after.slots@[h.index as int].payload is Some
        &&& forall|j: int|
            0 <= j < self.slots@.len() && j != h.index ==> after.slots@[j] == self.slots@[j]
    }

    proof fn payload_change_keeps_shape(&self, after: Self, h: Handle)
        requires
            self.wf(),
            self.differs_in_payload(after, h),
        ensures
            after.wf(),
            after@ == self@.insert(h, after.slots@[h.index as int].payload->0),
            after.spec_has_room() == self.spec_has_room(),
            after.slot_count() == self.slot_count(),
            after.is_pristine() == self.is_pristine(),
            forall|x: Handle| self.is_stale(x) == after.is_stale(x),
    {
        assert(after@ =~= self@.insert(h, after.slots@[h.index as int].payload->0));
        assert(after@.dom() =~= self@.dom());
        assert forall|k: int| 0 <= k < after.free@.len() implies (#[trigger] after.free@[k] as int)
            < after.slots@.len() && after.slots@[after.free@[k] as int].payload is None by {
            assert(self.slots@[self.free@[k] as int].payload is None);
        }
    }
}

} // verus!
