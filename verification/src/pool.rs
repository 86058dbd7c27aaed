//! The pool: growable storage that hands out a handle for every value put
//! into it and finds the value again by that handle, until the value is
//! taken out.

use crate::arena::{
    arena_generation, arena_get, arena_insert, arena_new, arena_remove, arena_slots,
};
use crate::handle::Handle;
use generational_arena::Arena;
use vstd::prelude::*;

verus! {

/// Slot-based storage of values of type `V`. The arena allots the handles
/// and remembers, for each live handle, where in `items` its value lies.
pub struct Pool<V> {
    arena: Arena<usize>,
    /// The values, each at the position that the arena holds for its
    /// handle; `None` where a value was taken out.
    items: Vec<Option<V>>,
    /// The positions of `items` that are free to be used again.
    free: Vec<usize>,
    /// The arena's generation.
    generation: u64,
}

/// What each handle resolves to, given where the arena keeps each live
/// handle's value.
spec fn resolve<V>(slots: Map<(usize, u64), usize>, items: Seq<Option<V>>) -> Map<Handle, V> {
    Map::new(
        |h: Handle| slots.contains_key((h.slot, h.generation)),
        |h: Handle| items[slots[(h.slot, h.generation)] as int].unwrap(),
    )
}

/// Every live handle has a position of its own among `count` positions.
spec fn placed(slots: Map<(usize, u64), usize>, count: nat) -> bool {
    &&& forall|key: (usize, u64)| #[trigger] slots.contains_key(key) ==> slots[key] < count
    &&& forall|a: (usize, u64), b: (usize, u64)|
        #[trigger] slots.contains_key(a) && #[trigger] slots.contains_key(b) && slots[a]
            == slots[b] ==> a == b
}

/// The positions of live handles hold a value, and no live handle is of a
/// later generation than `generation`.
spec fn filled<V>(
    slots: Map<(usize, u64), usize>,
    items: Seq<Option<V>>,
    generation: u64,
) -> bool {
    forall|key: (usize, u64)| #[trigger]
        slots.contains_key(key) ==> items[slots[key] as int].is_some() && key.1 <= generation
}

/// The free positions are positions of `items` that hold nothing, each
/// listed once.
spec fn vacant<V>(free: Seq<usize>, items: Seq<Option<V>>) -> bool {
    &&& free.no_duplicates()
    &&& forall|i: int|
        0 <= i < free.len() ==> (#[trigger] free[i]) < items.len() && items[free[i] as int].is_none()
}

impl<V> Pool<V> {
    /// The pool's internal invariant. Every constructor establishes it and
    /// every method preserves it.
    pub closed spec fn wf(&self) -> bool {
        &&& placed(arena_slots(self.arena), self.items@.len())
        &&& filled(arena_slots(self.arena), self.items@, self.generation)
        &&& vacant(self.free@, self.items@)
        &&& self.generation == arena_generation(self.arena)
    }

    /// The pool as a map from the handles that resolve to the values they
    /// resolve to.
    pub closed spec fn view(&self) -> Map<Handle, V> {
        resolve(arena_slots(self.arena), self.items@)
    }

    /// `handle` is spent: it is of a generation that has passed and
    /// resolves to nothing. It will never resolve again.
    pub closed spec fn spent(&self, handle: Handle) -> bool {
        handle.generation < self.generation && !self@.contains_key(handle)
    }

    /// The pool has counted as many generations as it can, and takes
    /// nothing out any more.
    pub closed spec fn exhausted(&self) -> bool {
        self.generation == u64::MAX
    }

    /// A spent handle resolves to nothing.
    pub proof fn lemma_spent_does_not_resolve(&self, handle: Handle)
        requires
            self.spent(handle),
        ensures
            !self@.contains_key(handle),
    {
    }

    /// An empty pool: no handle resolves, and none is spent.
    pub fn new() -> (pool: Self)
        ensures
            pool.wf(),
            (pool@ == Map::<Handle, V>::empty()),
            !pool.exhausted(),
            forall|h: Handle| !pool.spent(h),
    {
        let pool = Pool { arena: arena_new(), items: Vec::new(), free: Vec::new(), generation: 0 };
        assert(pool@ =~= Map::<Handle, V>::empty());
        pool
    }

    /// Stores `value` and returns a handle that did not resolve before and
    /// now resolves to `value`; every other handle resolves as before. The
    /// handle is not one that was spent.
    pub fn insert(&mut self, value: V) -> (handle: Handle)
        requires
            old(self).wf(),
        ensures
            final(self).wf(),
            !old(self)@.contains_key(handle),
            !old(self).spent(handle),
            final(self)@ == old(self)@.insert(handle, value),
            final(self).exhausted() == old(self).exhausted(),
            forall|h: Handle| old(self).spent(h) ==> final(self).spent(h),
    {
        let position: usize = match self.free.pop() {
            Some(position) => {
                self.items[position] = Some(value);
                position
            },
            None => {
                self.items.push(Some(value));
                self.items.len() - 1
            },
        };
        let handle = arena_insert(&mut self.arena, position);
        assert(self@ =~= old(self)@.insert(handle, value));
        handle
    }

    /// The value that `handle` resolves to, or `None` if it resolves to
    /// nothing.
    pub fn get(&self, handle: Handle) -> (found: Option<&V>)
        requires
            self.wf(),
        ensures
            found == (if self@.contains_key(handle) {
                Some(&self@[handle])
            } else {
                None
            }),
    {
        match arena_get(&self.arena, handle) {
            Some(position) => match &self.items[position] {
                Some(value) => Some(value),
                None => None,
            },
            None => None,
        }
    }

    /// Exclusive access to the value that `handle` resolves to, or `None` if
    /// it resolves to nothing. Whatever the caller writes through the
    /// reference becomes the value of `handle`; nothing else changes.
    pub fn get_mut(&mut self, handle: Handle) -> (found: Option<&mut V>)
        requires
            old(self).wf(),
        ensures
            final(self).wf(),
            match found {
                Some(value) => {
                    &&& old(self)@.contains_key(handle)
                    &&& *value == old(self)@[handle]
                    &&& final(self)@ == old(self)@.insert(handle, *final(value))
                },
                None => !old(self)@.contains_key(handle) && final(self)@ == old(self)@,
            },
            final(self).exhausted() == old(self).exhausted(),
            forall|h: Handle| old(self).spent(h) <==> final(self).spent(h),
    {
        match arena_get(&self.arena, handle) {
            Some(position) => {
                proof {
                    let slots = arena_slots(self.arena);
                    assert forall|v: V|
                        resolve(slots, #[trigger] self.items@.update(position as int, Some(v)))
                            == self@.insert(handle, v) by {
                        assert(resolve(slots, self.items@.update(position as int, Some(v)))
                            =~= self@.insert(handle, v));
                    }
                }
                match &mut self.items[position] {
                    Some(value) => Some(value),
                    None => None,
                }
            },
            None => None,
        }
    }

    /// Takes out the value that `handle` resolves to and returns it. From
    /// then on `handle` is spent. Returns `None`, and changes nothing, if
    /// `handle` resolves to nothing, or if the pool is exhausted.
    pub fn remove(&mut self, handle: Handle) -> (removed: Option<V>)
        requires
            old(self).wf(),
        ensures
            final(self).wf(),
            removed.is_some() <==> old(self)@.contains_key(handle) && !old(self).exhausted(),
            match removed {
                Some(value) => {
                    &&& value == old(self)@[handle]
                    &&& final(self)@ == old(self)@.remove(handle)
                    &&& final(self).spent(handle)
                },
                None => final(self)@ == old(self)@ && final(self).exhausted() == old(
                    self,
                ).exhausted(),
            },
            forall|h: Handle| old(self).spent(h) ==> final(self).spent(h),
    {
        if self.generation == u64::MAX {
            return None;
        }
        match arena_remove(&mut self.arena, handle) {
            Some(position) => {
                let mut taken: Option<V> = None;
                core::mem::swap(&mut self.items[position], &mut taken);
                self.free.push(position);
                self.generation = self.generation + 1;
                assert(self@ =~= old(self)@.remove(handle));
                taken
            },
            None => None,
        }
    }
}

} // verus!
