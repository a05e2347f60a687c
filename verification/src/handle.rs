//! Generational handles.

use vstd::prelude::*;

verus! {

/// A reference to a slot of an arena: the slot's index and the generation the
/// slot had when the handle was given out.
///
/// The pair `(0, 0)` is the "none" handle. An arena never gives out a handle of
/// generation zero, so the none handle refers to nothing in any arena.
#[derive(Clone, Copy, Debug, PartialEq, Eq, Structural, Hash)]
pub struct Handle {
    pub index: u32,
    pub generation: u32,
}

impl Handle {
    /// The none handle, as a specification value.
    pub open spec fn spec_none() -> Handle {
        Handle { index: 0, generation: 0 }
    }

    /// Whether this is the none handle.
    pub open spec fn spec_is_none(self) -> bool {
        self.index == 0 && self.generation == 0
    }

    /// Whether this is anything but the none handle.
    pub open spec fn spec_is_some(self) -> bool {
        !self.spec_is_none()
    }

    /// The handle of the given index and generation.
    pub fn new(index: u32, generation: u32) -> (h: Handle)
        ensures
            h == (Handle { index, generation }),
    {
        Handle { index, generation }
    }

    /// The none handle.
    #[verifier::when_used_as_spec(spec_none)]
    pub fn none() -> (h: Handle)
        ensures
            h == Handle::spec_none(),
            h.spec_is_none(),
    {
        Handle { index: 0, generation: 0 }
    }

    /// Whether this is the none handle.
    #[verifier::when_used_as_spec(spec_is_none)]
    pub fn is_none(self) -> (r: bool)
        ensures
            r == self.spec_is_none(),
    {
        self.index == 0 && self.generation == 0
    }

    /// Whether this is anything but the none handle.
    #[verifier::when_used_as_spec(spec_is_some)]
    pub fn is_some(self) -> (r: bool)
        ensures
            r == self.spec_is_some(),
    {
        !self.is_none()
    }

    /// The index of the slot referred to.
    pub fn index(self) -> (r: u32)
        ensures
            r == self.index,
    {
        self.index
    }

    /// The generation the slot had when the handle was given out.
    pub fn generation(self) -> (r: u32)
        ensures
            r == self.generation,
    {
        self.generation
    }
}

impl Default for Handle {
    fn default() -> (h: Handle)
        ensures
            h == Handle::spec_none(),
    {
        Handle::none()
    }
}

} // verus!
