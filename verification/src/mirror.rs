//! The mirroring boundary kind.

use vstd::prelude::*;

use crate::utils::Vector;

verus! {

/// A border cell that directly mirrors the faces of the cell at a fixed
/// relative offset; placing a column of these along an edge extends the
/// simulation bounds indefinitely at minimal cost.
#[derive(Clone, Copy, Debug, PartialEq, Eq, Structural)]
pub struct Mirror {
    pub master: Vector<isize>,
}

impl Mirror {
    /// `master` is the relative offset of the cell whose faces are copied.
    pub fn construct(mx: isize, my: isize) -> (r: Mirror)
        ensures
            r.master.x == mx,
            r.master.y == my,
    {
        Mirror { master: Vector { x: mx, y: my } }
    }
}

} // verus!
