//! The inflow/outflow boundary kind.

use vstd::prelude::*;

use crate::utils::Vector;

verus! {

/// A boundary cell that asserts a fixed flux on its four adjoining faces;
/// used to carefully control inflow and outflow.  The velocity components
/// are fixed-point ticks (see `units`).
#[derive(Clone, Copy, Debug, PartialEq, Eq, Structural)]
pub struct Source {
    pub velocity: Vector<i64>,
}

impl Source {
    /// Defines the velocity leaving the source cell on the x and y sides.
    pub fn construct(x: i64, y: i64) -> (r: Source)
        ensures
            r.velocity.x == x,
            r.velocity.y == y,
    {
        Source { velocity: Vector { x, y } }
    }
}

} // verus!
