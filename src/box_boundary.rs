use vstd::prelude::*;

use crate::node::Node;

verus! {

/// An axis-aligned box of cells, bounds inclusive.
#[derive(Clone, Copy, Debug, PartialEq, Eq, Structural)]
pub struct BoxBoundary {
    pub lower: Node,
    pub upper: Node,
}

impl BoxBoundary {
    /// The single-cell box at the origin.
    pub open spec fn new_spec() -> BoxBoundary {
        BoxBoundary { lower: Node { x: 0, y: 0 }, upper: Node { x: 0, y: 0 } }
    }

    /// The single-cell box at the origin.
    pub fn new() -> (r: Self)
        ensures
            r == Self::new_spec(),
    {
        BoxBoundary { lower: Node { x: 0, y: 0 }, upper: Node { x: 0, y: 0 } }
    }
}

} // verus!
