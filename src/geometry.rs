//! Plain geometry values that the arena stores and hands to a layout engine.
use vstd::prelude::*;

verus! {

/// A width and a height, in whole layout units.
#[derive(Copy, Clone, Debug, PartialEq, Eq, Structural)]
pub struct Size {
    pub width: u32,
    pub height: u32,
}

/// A position relative to the parent, in whole layout units.
#[derive(Copy, Clone, Debug, PartialEq, Eq, Structural)]
pub struct Point {
    pub x: i32,
    pub y: i32,
}

/// The result of laying out one node.
#[derive(Copy, Clone, Debug, PartialEq, Eq, Structural)]
pub struct Layout {
    /// The node's position in its parent's paint order.
    pub order: u32,
    pub size: Size,
    pub location: Point,
}

/// The value of a layout before any has been computed.
pub open spec fn zero_layout() -> Layout {
    Layout { order: 0, size: Size { width: 0, height: 0 }, location: Point { x: 0, y: 0 } }
}

impl Layout {
    /// The zero layout that a node holds before its first computation.
    pub fn zero() -> (r: Layout)
        ensures
            r == zero_layout(),
    {
        Layout { order: 0, size: Size { width: 0, height: 0 }, location: Point { x: 0, y: 0 } }
    }
}

/// A constraint on one axis: a definite amount of space, or none.
#[derive(Copy, Clone, Debug, PartialEq, Eq, Structural)]
pub enum AvailableSpace {
    Definite(u32),
    Unconstrained,
}

/// The constraints on both axes that a layout pass starts from.
#[derive(Copy, Clone, Debug, PartialEq, Eq, Structural)]
pub struct AvailableSize {
    pub width: AvailableSpace,
    pub height: AvailableSpace,
}

} // verus!
