//! Laws over sequences of operations on a tree.
use crate::node::{Node, Taffy};
use vstd::prelude::*;

verus! {

/// Each node of `path` after the first is a parent of the one before it.
pub open spec fn parent_path<S, M>(t: &Taffy<S, M>, path: Seq<Node>) -> bool {
    &&& forall|k: int| 0 <= k < path.len() ==> t.live(#[trigger] path[k])
    &&& forall|k: int| 0 <= k < path.len() - 1 ==> #[trigger] t.parents_of(path[k]).contains(path[k + 1])
}

/// Each node of `path` after the first is a child of the one before it.
pub open spec fn child_path<S, M>(t: &Taffy<S, M>, path: Seq<Node>) -> bool {
    &&& forall|k: int| 0 <= k < path.len() ==> t.live(#[trigger] path[k])
    &&& forall|k: int| 0 <= k < path.len() - 1 ==> #[trigger] t.children_of(path[k]).contains(path[k + 1])
}

proof fn lemma_upward_prefix<S, M>(t: &Taffy<S, M>, v: Set<Node>, path: Seq<Node>, k: int)
    requires
        parent_path(t, path),
        t.parent_closed(v),
        path.len() > 0,
        v.contains(path[0]),
        0 <= k < path.len(),
    ensures
        v.contains(path[k]),
    decreases k,
{
    if k > 0 {
        lemma_upward_prefix(t, v, path, k - 1);
        let j = k - 1;
        assert(t.parents_of(path[j]).contains(path[j + 1]));
        assert(path[j + 1] == path[k]);
    }
}

proof fn lemma_downward_prefix<S, M>(t: &Taffy<S, M>, w: Set<Node>, path: Seq<Node>, k: int)
    requires
        child_path(t, path),
        t.child_closed(w),
        path.len() > 0,
        w.contains(path[0]),
        0 <= k < path.len(),
    ensures
        w.contains(path[k]),
    decreases k,
{
    if k > 0 {
        lemma_downward_prefix(t, w, path, k - 1);
        let j = k - 1;
        assert(t.children_of(path[j]).contains(path[j + 1]));
        assert(path[j + 1] == path[k]);
    }
}

/// Flagging a node flags every node above it: after `mark_dirty` of the
/// first node of a chain of parents, every node of the chain is dirty.
pub proof fn lemma_dirty_reaches_ancestors<S, M>(before: &Taffy<S, M>, after: &Taffy<S, M>, path: Seq<Node>)
    requires
        path.len() > 0,
        parent_path(after, path),
        after.flagged_from(before, path[0]),
    ensures
        forall|k: int| 0 <= k < path.len() ==> after.dirty_of(#[trigger] path[k]),
{
    let v = choose|v: Set<Node>| #[trigger] after.flag_witness(before, path[0], v);
    assert forall|k: int| 0 <= k < path.len() implies after.dirty_of(#[trigger] path[k]) by {
        lemma_upward_prefix(after, v, path, k);
    }
}

/// A layout pass from a node leaves it and every node below it clean:
/// after `compute_layout` of the first node of a chain of children, no node
/// of the chain is dirty.
pub proof fn lemma_layout_cleans_descendants<S, M>(before: &Taffy<S, M>, after: &Taffy<S, M>, path: Seq<Node>)
    requires
        path.len() > 0,
        child_path(after, path),
        after.refreshed_from(before, path[0]),
    ensures
        forall|k: int| 0 <= k < path.len() ==> !after.dirty_of(#[trigger] path[k]),
{
    let w = choose|w: Set<Node>| #[trigger] after.refresh_witness(before, path[0], w);
    assert forall|k: int| 0 <= k < path.len() implies !after.dirty_of(#[trigger] path[k]) by {
        lemma_downward_prefix(after, w, path, k);
    }
}

/// A handle that is no longer live stays invalid when a node is created:
/// the new handle carries the next local id, which no earlier handle has.
/// With `lemma_issued`, this covers a handle after its `remove`.
pub proof fn lemma_no_reuse<S, M>(before: &Taffy<S, M>, after: &Taffy<S, M>, h: Node, created: Node)
    requires
        !before.live(h),
        h.local_id() < before.next_local(),
        created.local_id() == before.next_local(),
        forall|x: Node| after.live(x) <==> (before.live(x) || x == created),
    ensures
        !after.live(h),
        after.live(created),
{
}

} // verus!
