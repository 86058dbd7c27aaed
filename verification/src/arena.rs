//! The slot allocator underneath the pool: `generational_arena::Arena`,
//! used with plain positions as its values. Nothing in this file is proved;
//! each contract restates what the allocator's implementation does.

use crate::handle::Handle;
use generational_arena::{Arena, Index};
use vstd::prelude::*;

verus! {

#[verifier::external_type_specification]
#[verifier::external_body]
#[verifier::reject_recursive_types(T)]
pub struct ExArena<T>(Arena<T>);

/// The occupied slots of an arena: for each slot that holds a value, the
/// pair of its position and the generation it was filled in, mapped to the
/// value it holds.
pub uninterp spec fn arena_slots(arena: Arena<usize>) -> Map<(usize, u64), usize>;

/// The generation of an arena: the number that it gives to the handles it
/// hands out, and raises whenever a slot is vacated.
pub uninterp spec fn arena_generation(arena: Arena<usize>) -> u64;

/// `Arena::new`: a fresh arena has no occupied slot and is in generation
/// zero.
#[verifier::external_body]
pub(crate) fn arena_new() -> (arena: Arena<usize>)
    ensures
        (arena_slots(arena) == Map::<(usize, u64), usize>::empty()),
        arena_generation(arena) == 0,
{
    Arena::new()
}

/// `Arena::insert`: stores `value` in a slot that was free, growing the
/// arena if no slot is free, and returns the handle made of that slot's
/// position and the arena's generation, which stays as it is. No other
/// slot changes. The allocator gives up only when memory is exhausted.
#[verifier::external_body]
pub(crate) fn arena_insert(arena: &mut Arena<usize>, value: usize) -> (handle: Handle)
    ensures
        !arena_slots(*old(arena)).contains_key((handle.slot, handle.generation)),
        arena_slots(*final(arena)) == arena_slots(*old(arena)).insert(
            (handle.slot, handle.generation),
            value,
        ),
        handle.generation == arena_generation(*old(arena)),
        arena_generation(*final(arena)) == arena_generation(*old(arena)),
{
    let (slot, generation) = arena.insert(value).into_raw_parts();
    Handle { slot, generation }
}

/// `Arena::get`: the value in the slot that `handle` names, if that slot is
/// occupied and was filled in the generation that `handle` carries.
#[verifier::external_body]
pub(crate) fn arena_get(arena: &Arena<usize>, handle: Handle) -> (found: Option<usize>)
    ensures
        found == (if arena_slots(*arena).contains_key((handle.slot, handle.generation)) {
            Some(arena_slots(*arena)[(handle.slot, handle.generation)])
        } else {
            None
        }),
{
    arena.get(Index::from_raw_parts(handle.slot, handle.generation)).copied()
}

/// `Arena::remove`: if the slot that `handle` names is occupied and was
/// filled in the generation that `handle` carries, the slot is vacated, its
/// value is returned and the arena's generation goes up by one; otherwise
/// nothing changes. The generation is counted in a `u64`, which must have
/// room for the step.
#[verifier::external_body]
pub(crate) fn arena_remove(arena: &mut Arena<usize>, handle: Handle) -> (removed: Option<usize>)
    requires
        arena_generation(*old(arena)) < u64::MAX,
    ensures
        removed == (if arena_slots(*old(arena)).contains_key((handle.slot, handle.generation)) {
            Some(arena_slots(*old(arena))[(handle.slot, handle.generation)])
        } else {
            None
        }),
        arena_slots(*final(arena)) == arena_slots(*old(arena)).remove(
            (handle.slot, handle.generation),
        ),
        arena_generation(*final(arena)) == (if removed.is_some() {
            (arena_generation(*old(arena)) + 1) as u64
        } else {
            arena_generation(*old(arena))
        }),
{
    arena.remove(Index::from_raw_parts(handle.slot, handle.generation))
}

} // verus!
