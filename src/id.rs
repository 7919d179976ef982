//! Monotonic identifiers for tree instances and for the nodes inside them.
use vstd::prelude::*;

verus! {

/// An identifier handed out by an [`Allocator`]; never reused by it.
#[derive(Copy, Clone, Debug, PartialEq, Eq, Structural, Hash)]
pub struct Id(pub u64);

/// A bump allocator of [`Id`]s. Ids are 64 bits wide, so that running out is
/// not reachable in practice; running out is a precondition violation, not an error.
///
/// Ids are unique only among those one allocator hands out: two allocators
/// both start at zero. Trees that must reject one another's handles take
/// their ids from a single allocator.
pub struct Allocator {
    /// The next id to hand out.
    last_id: u64,
}

impl Allocator {
    /// The id that the next call of `allocate` returns.
    pub closed spec fn next_id(&self) -> u64 {
        self.last_id
    }

    /// Creates a fresh allocator, which starts at zero.
    pub fn new() -> (r: Self)
        ensures
            r.next_id() == 0,
    {
        Allocator { last_id: 0 }
    }

    /// The id that the next call of `allocate` returns.
    pub fn peek(&self) -> (r: u64)
        ensures
            r == self.next_id(),
    {
        self.last_id
    }

    /// Hands out the next id.
    pub fn allocate(&mut self) -> (r: Id)
        requires
            old(self).next_id() < u64::MAX,
        ensures
            r == Id(old(self).next_id()),
            final(self).next_id() == old(self).next_id() + 1,
    {
        let r = Id(self.last_id);
        self.last_id = self.last_id + 1;
        r
    }
}

} // verus!
