//! Handles: the identifiers by which pool entries are addressed.

use vstd::prelude::*;

verus! {

/// Identifies one entry of a pool: a slot position together with the
/// generation the slot had when the entry was stored. Two handles are equal
/// exactly when both parts are equal.
#[derive(Clone, Copy, Debug, PartialEq, Eq, Hash, Structural)]
pub struct Handle {
    pub(crate) slot: usize,
    pub(crate) generation: u64,
}

impl Handle {
    /// The slot position and the generation tag of this handle.
    pub closed spec fn parts(self) -> (usize, u64) {
        (self.slot, self.generation)
    }

    /// Builds the handle with the given slot position and generation tag.
    pub fn from_raw_parts(slot: usize, generation: u64) -> (handle: Handle)
        ensures
            handle.parts() == (slot, generation),
    {
        Handle { slot, generation }
    }

    /// Splits the handle into its slot position and generation tag.
    pub fn into_raw_parts(self) -> (parts: (usize, u64))
        ensures
            parts == self.parts(),
    {
        (self.slot, self.generation)
    }

    /// A handle is determined by its parts: handles with the same slot
    /// position and generation tag are the same handle.
    pub proof fn lemma_parts_determine_handle(a: Handle, b: Handle)
        requires
            a.parts() == b.parts(),
        ensures
            a == b,
    {
    }
}

} // verus!
