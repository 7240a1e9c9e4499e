//! Handles that tie entities to simulation bodies and colliders. A handle is
//! an index into the simulation's store with the generation of the slot, so a
//! handle of a removed object never names its successor.

use vstd::prelude::*;

verus! {

#[derive(Clone, Copy, PartialEq, Eq, Structural, Debug)]
pub struct Handle {
    pub index: usize,
    pub generation: u64,
}

/// The collider of an entity.
#[derive(Clone, Copy, Debug)]
pub struct Collider {
    pub handle: Handle,
}

impl Collider {
    pub fn new(handle: Handle) -> (c: Collider)
        ensures
            c.handle == handle,
    {
        Collider { handle }
    }
}

/// The rigid body of an entity.
#[derive(Clone, Copy, Debug)]
pub struct Body {
    pub handle: Handle,
}

impl Body {
    pub fn new(handle: Handle) -> (b: Body)
        ensures
            b.handle == handle,
    {
        Body { handle }
    }
}

} // verus!
