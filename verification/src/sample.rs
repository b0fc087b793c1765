//! An accepted point together with the resolution it was accepted at.

use vstd::prelude::*;

verus! {

/// The position of a sample and the resolution of the lattice it lies on,
/// which fixes the radius of the disk around it.
#[derive(PartialEq, Clone, Copy, Debug)]
pub struct Sample<T> {
    pub pos: T,
    resolution: i128,
}

impl<T: Copy> Sample<T> {
    /// Where the sample lies.
    pub closed spec fn position_spec(&self) -> T {
        self.pos
    }

    /// The number of lattice steps that make up the unit length.
    pub closed spec fn resolution_spec(&self) -> int {
        self.resolution as int
    }

    /// The sample at `pos` on a lattice of `resolution` steps to the unit
    /// length.
    pub fn new(pos: T, resolution: i128) -> (s: Self)
        ensures
            s.position_spec() == pos,
            s.resolution_spec() == resolution,
    {
        Sample { pos, resolution }
    }

    /// Where the sample lies.
    pub fn position(&self) -> (p: T)
        ensures
            p == self.position_spec(),
    {
        self.pos
    }

    /// The number of lattice steps that make up the unit length.
    pub fn resolution(&self) -> (r: i128)
        ensures
            r == self.resolution_spec(),
    {
        self.resolution
    }
}

} // verus!
