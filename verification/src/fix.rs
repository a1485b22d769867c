//! Fixed-point scalars and 2-D vectors, carried by their raw bit pattern.
//!
//! The simulation's fixed-point number is a signed 64-bit word; the snapshot
//! format and the state hash only ever read and write that word, so it is held
//! here as such.

use vstd::prelude::*;

verus! {

/// A fixed-point number, held as its raw signed 64-bit representation.
#[derive(Clone, Copy, Debug, PartialEq, Eq, Structural)]
pub struct Fix64(pub i64);

impl Fix64 {
    /// The raw bit pattern.
    pub fn to_bits(self) -> (r: i64)
        ensures
            r == self.0,
    {
        self.0
    }

    /// The number with the given raw bit pattern.
    pub fn from_bits(bits: i64) -> (r: Fix64)
        ensures
            r.0 == bits,
    {
        Fix64(bits)
    }
}

/// A 2-D vector of fixed-point coordinates.
#[derive(Clone, Copy, Debug, PartialEq, Eq, Structural)]
pub struct Vec2 {
    pub x: Fix64,
    pub y: Fix64,
}

impl Vec2 {
    /// A vector from its coordinates.
    pub fn new(x: Fix64, y: Fix64) -> (r: Vec2)
        ensures
            r.x == x,
            r.y == y,
    {
        Vec2 { x, y }
    }
}

} // verus!
