//! The errors that handle-based operations return.
use crate::node::Node;
use vstd::prelude::*;

verus! {

/// A handle that this tree does not hold: never created here, already
/// removed, or issued by another tree.
#[derive(Copy, Clone, Debug, PartialEq, Eq, Structural)]
pub struct InvalidNode(pub Node);

/// A failed child operation.
#[derive(Copy, Clone, Debug, PartialEq, Eq, Structural)]
pub enum InvalidChild {
    /// The parent handle did not resolve.
    InvalidParentNode(Node),
    /// The child handle did not resolve.
    InvalidChildNode(Node),
    /// The index was not below the parent's number of children.
    ChildIndexOutOfBounds { parent: Node, child_index: usize, child_count: usize },
}

} // verus!
