//! A point or an offset of the drawing plane.

use vstd::prelude::*;

verus! {

/// Two coordinates, in millionths of a length unit.
#[derive(Clone, Copy, Debug, PartialEq, Eq, Structural)]
pub struct Vector {
    pub x: i64,
    pub y: i64,
}

} // verus!
