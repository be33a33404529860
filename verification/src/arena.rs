//! The order arena: a growable pool of order records plus a free list of
//! recycled slots. All order storage goes through the arena; orders are
//! addressed by stable integer indices, so growth never invalidates an
//! index.

use vstd::prelude::*;

use crate::order::Order;

verus! {

/// The arena. `slots` owns every order record by value; `free` holds the
/// indices of slots whose content is logically dead and may be overwritten.
/// An index must never be on the free list while a price-level queue still
/// references it; the engine's well-formedness predicate enforces that.
pub struct OrderArena {
    pub slots: Vec<Order>,
    pub free: Vec<usize>,
}

/// The free list is well formed: every entry addresses an existing slot and
/// no slot is listed twice.
pub open spec fn free_wf(a: OrderArena) -> bool {
    &&& forall|k: int| 0 <= k < a.free@.len() ==> (#[trigger] a.free@[k]) < a.slots@.len()
    &&& a.free@.no_duplicates()
}

impl OrderArena {
    /// An empty arena whose backing storage is pre-sized to `capacity`
    /// entries, so steady-state operation does not reallocate. Capacity is a
    /// latency concern only: the arena stays correct beyond it.
    pub fn with_capacity(capacity: usize) -> (a: OrderArena)
        ensures
            a.slots@ == Seq::<Order>::empty(),
            a.free@ == Seq::<usize>::empty(),
            free_wf(a),
    {
        OrderArena { slots: Vec::with_capacity(capacity), free: Vec::new() }
    }

    /// Store `o` in a free slot if one is available (overwriting its dead
    /// content), else append a new slot. Returns the index of the slot now
    /// holding `o`; all other slots are untouched.
    pub fn allocate(&mut self, o: Order) -> (idx: usize)
        requires
            free_wf(*old(self)),
            old(self).slots@.len() < usize::MAX,
        ensures
            free_wf(*final(self)),
            idx < final(self).slots@.len(),
            final(self).slots@[idx as int] == o,
            // The slot came off the free list or is brand new.
            old(self).free@.len() > 0 ==> idx == old(self).free@.last(),
            old(self).free@.len() == 0 ==> idx == old(self).slots@.len(),
            final(self).free@ == if old(self).free@.len() > 0 {
                old(self).free@.drop_last()
            } else {
                old(self).free@
            },
            final(self).slots@ == if old(self).free@.len() > 0 {
                old(self).slots@.update(idx as int, o)
            } else {
                old(self).slots@.push(o)
            },
            old(self).slots@.len() <= final(self).slots@.len(),
            forall|j: int| 0 <= j < final(self).slots@.len() && j != idx ==> final(self).slots@[j]
                == old(self).slots@[j],
    {
        match self.free.pop() {
            Some(idx) => {
                assert(old(self).free@.last() == idx);
                self.slots[idx] = o;
                idx
            },
            None => {
                let idx = self.slots.len();
                self.slots.push(o);
                idx
            },
        }
    }

    /// Return slot `idx` to the free list. The caller guarantees that no
    /// price-level queue still references the slot and that it is not
    /// already free; violating that would be a use-after-free-equivalent
    /// logic error.
    pub fn recycle(&mut self, idx: usize)
        requires
            free_wf(*old(self)),
            idx < old(self).slots@.len(),
            !old(self).free@.contains(idx),
        ensures
            free_wf(*final(self)),
            final(self).slots@ == old(self).slots@,
            final(self).free@ == old(self).free@.push(idx),
    {
        self.free.push(idx);
        proof {
            assert(self.free@.drop_last() == old(self).free@);
            assert(self.free@.no_duplicates()) by {
                assert forall|i: int, j: int|
                    0 <= i < self.free@.len() && 0 <= j < self.free@.len() && i != j implies
                    self.free@[i] != self.free@[j] by {
                    if i < self.free@.len() - 1 && j < self.free@.len() - 1 {
                        assert(old(self).free@[i] != old(self).free@[j]);
                    }
                }
            }
        }
    }

    /// Number of slots the arena has ever grown to.
    pub fn slot_count(&self) -> (n: usize)
        ensures
            n == self.slots@.len(),
    {
        self.slots.len()
    }

    /// Number of slots currently on the free list.
    pub fn free_count(&self) -> (n: usize)
        ensures
            n == self.free@.len(),
    {
        self.free.len()
    }
}

} // verus!
