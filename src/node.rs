//! Node handles and the [`Taffy`] tree that resolves them.
//!
//! A tree keeps node records in a dense arena addressed by index, plus two
//! maps kept in step: from a handle's local id to its index, and from an
//! index back to its handle. Removal moves the last record into the freed
//! slot and rewrites the one map entry that pointed at it.
use crate::error::{InvalidChild, InvalidNode};
use crate::geometry::{zero_layout, AvailableSize, AvailableSpace, Layout, Point, Size};
use crate::id::{Allocator, Id};
use vstd::hash_map::HashMapWithView;
use vstd::prelude::*;
use vstd::set_lib::{lemma_int_range, lemma_len_subset, set_int_range};

verus! {

broadcast use vstd::std_specs::hash::group_hash_axioms;

/// A handle to a node: the tree's instance id with the node's local id.
#[derive(Copy, Clone, Debug, PartialEq, Eq, Structural, Hash)]
pub struct Node {
    /// The id of the tree that this node lives in.
    instance: Id,
    /// The id of this node within its tree.
    local: Id,
}

impl Node {
    /// The id of the tree that issued this handle.
    pub closed spec fn tree(&self) -> Id {
        self.instance
    }

    /// The id of this node within the tree that issued it.
    pub closed spec fn local_id(&self) -> u64 {
        self.local.0
    }
}

/// The sizing algorithm that a layout pass hands each stale node to.
pub trait LayoutEngine<S, M> {
    /// The layout this engine gives a node with `style` and `measure` in the
    /// space `available`.
    spec fn layout_for(style: S, measure: Option<M>, available: AvailableSize) -> Layout;

    /// Computes the layout of one node from its style, its measure callback
    /// and the space available.
    fn layout_node(&mut self, style: &S, measure: &Option<M>, available: AvailableSize) -> (r: Layout)
        ensures
            r == Self::layout_for(*style, *measure, available),
    ;
}

/// The extent an axis offers: its definite amount, or nothing.
pub open spec fn offered(a: AvailableSpace) -> u32 {
    match a {
        AvailableSpace::Definite(v) => v,
        AvailableSpace::Unconstrained => 0,
    }
}

/// An engine that gives every node the space offered on each axis, at the
/// origin of its parent: a fixed-size canvas split into no parts.
pub struct FillAvailable;

impl<S, M> LayoutEngine<S, M> for FillAvailable {
    open spec fn layout_for(style: S, measure: Option<M>, available: AvailableSize) -> Layout {
        Layout {
            order: 0,
            size: Size { width: offered(available.width), height: offered(available.height) },
            location: Point { x: 0, y: 0 },
        }
    }

    fn layout_node(&mut self, style: &S, measure: &Option<M>, available: AvailableSize) -> (r: Layout) {
        let width = match available.width {
            AvailableSpace::Definite(v) => v,
            AvailableSpace::Unconstrained => 0,
        };
        let height = match available.height {
            AvailableSpace::Definite(v) => v,
            AvailableSpace::Unconstrained => 0,
        };
        Layout { order: 0, size: Size { width, height }, location: Point { x: 0, y: 0 } }
    }
}

/// The record that the arena keeps for each node.
struct NodeData<S, M> {
    style: S,
    measure: Option<M>,
    layout: Layout,
    is_dirty: bool,
}

/// A forest of layout nodes with style `S` and measure callback `M`.
#[verifier::reject_recursive_types(S)]
#[verifier::reject_recursive_types(M)]
pub struct Taffy<S, M> {
    /// The id of this tree.
    id: Id,
    /// Hands out the local ids of new nodes.
    allocator: Allocator,
    /// From a node's local id to its index in the arena.
    nodes_to_ids: HashMapWithView<u64, usize>,
    /// From an index in the arena to the node stored there.
    ids_to_nodes: Vec<Node>,
    /// The node records, by index.
    nodes: Vec<NodeData<S, M>>,
    /// The children of each node, by index, in order.
    children: Vec<Vec<usize>>,
    /// The parents of each node, by index.
    parents: Vec<Vec<usize>>,
}

/// Every entry of `s` is below `n`.
pub open spec fn all_below(s: Seq<usize>, n: int) -> bool {
    forall|k: int| 0 <= k < s.len() ==> #[trigger] s[k] < n
}


/// The number of times `x` occurs in `s`.
pub open spec fn occurrences<A>(s: Seq<A>, x: A) -> nat
    decreases s.len(),
{
    if s.len() == 0 {
        0
    } else {
        occurrences(s.drop_last(), x) + if s.last() == x { 1nat } else { 0nat }
    }
}

/// Counting over a sequence with one more element.
pub proof fn lemma_occurrences_push<A>(s: Seq<A>, x: A, y: A)
    ensures
        occurrences(s.push(x), y) == occurrences(s, y) + if x == y { 1nat } else { 0nat },
{
    assert(s.push(x).drop_last() =~= s);
}

/// Counting over a concatenation adds the counts.
pub proof fn lemma_occurrences_concat<A>(s: Seq<A>, t: Seq<A>, y: A)
    ensures
        occurrences(s + t, y) == occurrences(s, y) + occurrences(t, y),
    decreases t.len(),
{
    if t.len() > 0 {
        lemma_occurrences_concat(s, t.drop_last(), y);
        assert((s + t).drop_last() =~= s + t.drop_last());
    } else {
        assert(s + t =~= s);
    }
}

/// Counting over copies of one value.
pub proof fn lemma_occurrences_copies<A>(x: A, n: nat, y: A)
    ensures
        occurrences(copies(x, n), y) == if x == y { n } else { 0nat },
    decreases n,
{
    if n > 0 {
        lemma_occurrences_copies(x, (n - 1) as nat, y);
        assert(copies(x, n).drop_last() =~= copies(x, (n - 1) as nat));
    }
}

/// Counting after dropping a value.
pub proof fn lemma_occurrences_without<A>(s: Seq<A>, x: A, y: A)
    ensures
        occurrences(without(s, x), y) == if x == y { 0nat } else { occurrences(s, y) },
    decreases s.len(),
{
    if s.len() > 0 {
        lemma_occurrences_without(s.drop_last(), x, y);
        let rest = without(s.drop_last(), x);
        if s.last() != x {
            lemma_occurrences_push(rest, s.last(), y);
        }
    }
}

/// A value occurs when it is contained.
pub proof fn lemma_occurrences_contains<A>(s: Seq<A>, y: A)
    ensures
        occurrences(s, y) > 0 <==> s.contains(y),
    decreases s.len(),
{
    if s.len() > 0 {
        lemma_occurrences_contains(s.drop_last(), y);
        if s.drop_last().contains(y) {
            let q = choose|q: int| 0 <= q < s.drop_last().len() && s.drop_last()[q] == y;
            assert(s[q] == y);
        }
        if s.contains(y) && s.last() != y {
            let q = choose|q: int| 0 <= q < s.len() && s[q] == y;
            assert(s.drop_last()[q] == y);
        }
    }
}

/// Counting after removing the element at `k`.
pub proof fn lemma_occurrences_remove<A>(s: Seq<A>, k: int, y: A)
    requires
        0 <= k < s.len(),
    ensures
        occurrences(s.remove(k), y) + (if s[k] == y { 1nat } else { 0nat }) == occurrences(s, y),
{
    let a = s.take(k);
    let b = s.skip(k + 1);
    assert(s =~= a.push(s[k]) + b);
    assert(s.remove(k) =~= a + b);
    lemma_occurrences_concat(a.push(s[k]), b, y);
    lemma_occurrences_concat(a, b, y);
    lemma_occurrences_push(a, s[k], y);
}

/// Counting after overwriting the element at `k`.
pub proof fn lemma_occurrences_update<A>(s: Seq<A>, k: int, x: A, y: A)
    requires
        0 <= k < s.len(),
    ensures
        occurrences(s.update(k, x), y) + (if s[k] == y { 1nat } else { 0nat })
            == occurrences(s, y) + (if x == y { 1nat } else { 0nat }),
{
    let a = s.take(k);
    let b = s.skip(k + 1);
    assert(s =~= a.push(s[k]) + b);
    assert(s.update(k, x) =~= a.push(x) + b);
    lemma_occurrences_concat(a.push(s[k]), b, y);
    lemma_occurrences_concat(a.push(x), b, y);
    lemma_occurrences_push(a, s[k], y);
    lemma_occurrences_push(a, x, y);
}

/// `n` copies of `x`.
pub open spec fn copies<A>(x: A, n: nat) -> Seq<A> {
    Seq::new(n, |k: int| x)
}

/// `s` with every occurrence of `x` dropped, the rest in order.
pub open spec fn without<A>(s: Seq<A>, x: A) -> Seq<A>
    decreases s.len(),
{
    if s.len() == 0 {
        Seq::empty()
    } else {
        let rest = without(s.drop_last(), x);
        if s.last() == x {
            rest
        } else {
            rest.push(s.last())
        }
    }
}

/// The slots of `s` after slot `gone` is vacated and slot `last` moves into it.
spec fn reindexed(s: Seq<usize>, gone: usize, last: usize) -> Seq<usize>
    decreases s.len(),
{
    if s.len() == 0 {
        Seq::empty()
    } else {
        let rest = reindexed(s.drop_last(), gone, last);
        if s.last() == gone {
            rest
        } else if s.last() == last {
            rest.push(gone)
        } else {
            rest.push(s.last())
        }
    }
}

/// A copy of `v` without the entries equal to `x`.
fn without_value(v: &Vec<usize>, x: usize) -> (r: Vec<usize>)
    ensures
        r@ == without(v@, x),
{
    let mut r: Vec<usize> = Vec::new();
    let mut k: usize = 0;
    while k < v.len()
        invariant
            k <= v@.len(),
            r@ == without(v@.take(k as int), x),
        decreases v@.len() - k,
    {
        assert(v@.take(k + 1).drop_last() =~= v@.take(k as int));
        if v[k] != x {
            r.push(v[k]);
        }
        k = k + 1;
    }
    assert(v@.take(v@.len() as int) =~= v@);
    r
}

/// A copy of `v` with slot `gone` dropped and slot `last` renamed to `gone`.
fn reindex(v: &Vec<usize>, gone: usize, last: usize) -> (r: Vec<usize>)
    requires
        all_below(v@, last + 1),
        gone <= last,
    ensures
        r@ == reindexed(v@, gone, last),
        all_below(r@, last as int),
{
    let mut r: Vec<usize> = Vec::new();
    let mut k: usize = 0;
    while k < v.len()
        invariant
            k <= v@.len(),
            gone <= last,
            all_below(v@, last + 1),
            r@ == reindexed(v@.take(k as int), gone, last),
            all_below(r@, last as int),
        decreases v@.len() - k,
    {
        assert(v@.take(k + 1).drop_last() =~= v@.take(k as int));
        let e = v[k];
        if e == gone {
        } else if e == last {
            r.push(gone);
        } else {
            r.push(e);
        }
        k = k + 1;
    }
    assert(v@.take(v@.len() as int) =~= v@);
    r
}

/// Dropping the same value twice drops it once.
proof fn lemma_without_twice(s: Seq<usize>, x: usize)
    ensures
        without(without(s, x), x) == without(s, x),
    decreases s.len(),
{
    if s.len() > 0 {
        lemma_without_twice(s.drop_last(), x);
        let rest = without(s.drop_last(), x);
        if s.last() != x {
            assert(rest.push(s.last()).drop_last() =~= rest);
        }
    }
}

/// A copy of `v`.
fn copy_slots(v: &Vec<usize>) -> (r: Vec<usize>)
    ensures
        r@ == v@,
{
    let mut r: Vec<usize> = Vec::new();
    let mut k: usize = 0;
    while k < v.len()
        invariant
            k <= v@.len(),
            r@ == v@.take(k as int),
        decreases v@.len() - k,
    {
        r.push(v[k]);
        k = k + 1;
        assert(r@ =~= v@.take(k as int));
    }
    assert(v@.take(v@.len() as int) =~= v@);
    r
}

/// `after` is `before` without its first `x`, or `before` itself when it
/// holds no `x`.
pub open spec fn drops_first<A>(before: Seq<A>, after: Seq<A>, x: A) -> bool {
    &&& before.contains(x) ==> exists|k: int|
        0 <= k < before.len() && before[k] == x && (forall|e: int| 0 <= e < k ==> before[e] != x)
            && after == #[trigger] before.remove(k)
    &&& !before.contains(x) ==> after == before
}

/// Counting after dropping the first occurrence of a value.
pub proof fn lemma_occurrences_drops_first<A>(before: Seq<A>, after: Seq<A>, x: A, y: A)
    requires
        drops_first(before, after, x),
    ensures
        occurrences(after, y) + (if x == y && before.contains(x) { 1nat } else { 0nat }) == occurrences(before, y),
{
    if before.contains(x) {
        let k = choose|k: int|
            0 <= k < before.len() && before[k] == x && (forall|e: int| 0 <= e < k ==> before[e] != x)
                && after == #[trigger] before.remove(k);
        lemma_occurrences_remove(before, k, y);
    }
}

/// Drops the first entry of `v` equal to `x`, if there is one.
fn remove_first_slot(v: &mut Vec<usize>, x: usize)
    ensures
        drops_first(old(v)@, final(v)@, x),
{
    let ghost v0 = v@;
    let mut k: usize = 0;
    while k < v.len()
        invariant
            v@ == v0,
            k <= v@.len(),
            forall|e: int| 0 <= e < k ==> v@[e] != x,
        ensures
            v@ == v0,
            k <= v@.len(),
            forall|e: int| 0 <= e < k ==> v@[e] != x,
            k < v@.len() ==> v@[k as int] == x,
        decreases v@.len() - k,
    {
        if v[k] == x {
            break;
        }
        k = k + 1;
    }
    if k < v.len() {
        v.remove(k);
        assert(v0.contains(x)) by { assert(v0[k as int] == x); }
    } else {
        assert(!v0.contains(x)) by {
            if v0.contains(x) {
                let q = choose|q: int| 0 <= q < v0.len() && v0[q] == x;
                assert(v0[q] != x);
            }
        }
    }
}

impl<S, M> Taffy<S, M> {
    /// The id of this tree, carried by every handle it issues.
    pub closed spec fn instance(&self) -> Id {
        self.id
    }

    /// The local id that the next new node receives.
    pub closed spec fn next_local(&self) -> u64 {
        self.allocator.next_id()
    }

    /// The number of nodes stored.
    pub closed spec fn len(&self) -> nat {
        self.nodes@.len()
    }

    /// Whether `h` is a handle that this tree currently holds.
    pub closed spec fn live(&self, h: Node) -> bool {
        h.instance == self.id && self.nodes_to_ids@.contains_key(h.local.0)
    }

    /// The arena slot of a live handle.
    pub closed spec fn index_of(&self, h: Node) -> int {
        self.nodes_to_ids@[h.local.0] as int
    }

    /// The handle stored at slot `i`.
    pub closed spec fn node_at(&self, i: int) -> Node {
        self.ids_to_nodes@[i]
    }

    /// The handles of a sequence of slots.
    pub closed spec fn handles(&self, s: Seq<usize>) -> Seq<Node> {
        s.map_values(|j: usize| self.ids_to_nodes@[j as int])
    }

    /// The children of `h`, in order.
    pub closed spec fn children_of(&self, h: Node) -> Seq<Node> {
        self.handles(self.children@[self.index_of(h)]@)
    }

    /// The parents of `h`.
    pub closed spec fn parents_of(&self, h: Node) -> Seq<Node> {
        self.handles(self.parents@[self.index_of(h)]@)
    }

    /// The style of `h`.
    pub closed spec fn style_of(&self, h: Node) -> S {
        self.nodes@[self.index_of(h)].style
    }

    /// The measure callback of `h`.
    pub closed spec fn measure_of(&self, h: Node) -> Option<M> {
        self.nodes@[self.index_of(h)].measure
    }

    /// The cached layout of `h`.
    pub closed spec fn layout_of(&self, h: Node) -> Layout {
        self.nodes@[self.index_of(h)].layout
    }

    /// Whether the cached layout of `h` is stale.
    pub closed spec fn dirty_of(&self, h: Node) -> bool {
        self.nodes@[self.index_of(h)].is_dirty
    }

    /// The well-formedness of the tree: the arena's columns agree in length,
    /// the two maps are inverse to each other over the live handles, every
    /// live local id was handed out already, and every edge names a slot.
    pub closed spec fn wf(&self) -> bool {
        let n = self.nodes@.len();
        &&& self.ids_to_nodes@.len() == n
        &&& self.children@.len() == n
        &&& self.parents@.len() == n
        &&& forall|k: u64| #[trigger] self.nodes_to_ids@.contains_key(k) ==> {
            let i = self.nodes_to_ids@[k] as int;
            &&& 0 <= i < n
            &&& self.ids_to_nodes@[i] == (Node { instance: self.id, local: Id(k) })
        }
        &&& forall|i: int| 0 <= i < n ==> {
            let h = #[trigger] self.ids_to_nodes@[i];
            &&& h.instance == self.id
            &&& self.nodes_to_ids@.contains_key(h.local.0)
            &&& self.nodes_to_ids@[h.local.0] == i
            &&& h.local.0 < self.allocator.next_id()
        }
        &&& forall|i: int| 0 <= i < n ==> all_below(#[trigger] self.children@[i]@, n as int)
        &&& forall|i: int| 0 <= i < n ==> all_below(#[trigger] self.parents@[i]@, n as int)
    }

    /// `v` holds every parent of each of its live members.
    pub open spec fn parent_closed(&self, v: Set<Node>) -> bool {
        forall|x: Node, y: Node| v.contains(x) && self.live(x) && #[trigger] self.parents_of(x).contains(y)
            ==> v.contains(y)
    }

    /// The dirty flags went from `before` to `self` by flagging `h` and every
    /// node above it through the parent relation, and no other.
    pub open spec fn flagged_from(&self, before: &Self, h: Node) -> bool {
        exists|v: Set<Node>| #[trigger] self.flag_witness(before, h, v)
    }

    /// `v` is the least set that holds `h` and every parent of its live members.
    pub open spec fn ancestry(&self, h: Node, v: Set<Node>) -> bool {
        &&& v.contains(h)
        &&& self.parent_closed(v)
        &&& forall|u: Set<Node>| u.contains(h) && #[trigger] self.parent_closed(u) ==> v.subset_of(u)
    }

    /// `v`, the ancestry of `h`, is flagged in `self`, and every other node
    /// has the flag it had in `before`.
    pub open spec fn flag_witness(&self, before: &Self, h: Node, v: Set<Node>) -> bool {
        &&& self.ancestry(h, v)
        &&& forall|x: Node| #[trigger] self.live(x) ==> {
            &&& v.contains(x) ==> self.dirty_of(x)
            &&& !v.contains(x) ==> self.dirty_of(x) == before.dirty_of(x)
        }
    }

    /// `w` holds every child of each of its live members.
    pub open spec fn child_closed(&self, w: Set<Node>) -> bool {
        forall|x: Node, y: Node| w.contains(x) && self.live(x) && #[trigger] self.children_of(x).contains(y)
            ==> w.contains(y)
    }

    /// From `before` to `self`, a layout pass from `h` refreshed every stale
    /// node below `h` through the child relation and left the rest alone.
    pub open spec fn refreshed_from(&self, before: &Self, h: Node) -> bool {
        &&& forall|x: Node| #[trigger] self.live(x) && !before.dirty_of(x) ==> {
            &&& !self.dirty_of(x)
            &&& self.layout_of(x) == before.layout_of(x)
        }
        &&& exists|w: Set<Node>| #[trigger] self.refresh_witness(before, h, w)
    }

    /// `w` is the least set that holds `h` and every child of its live members.
    pub open spec fn descent(&self, h: Node, w: Set<Node>) -> bool {
        &&& w.contains(h)
        &&& self.child_closed(w)
        &&& forall|u: Set<Node>| u.contains(h) && #[trigger] self.child_closed(u) ==> w.subset_of(u)
    }

    /// `w`, the descent of `h`, is clean in `self`, and every other node has
    /// the flag and layout it had in `before`.
    pub open spec fn refresh_witness(&self, before: &Self, h: Node, w: Set<Node>) -> bool {
        &&& self.descent(h, w)
        &&& forall|x: Node| #[trigger] self.live(x) ==> {
            &&& w.contains(x) ==> !self.dirty_of(x)
            &&& !w.contains(x) ==> self.dirty_of(x) == before.dirty_of(x) && self.layout_of(x) == before.layout_of(x)
        }
    }

    /// Every edge is recorded from both ends, as often from each: `c` occurs
    /// among the children of `p` as many times as `p` among the parents of `c`.
    pub open spec fn symmetric(&self) -> bool {
        forall|p: Node, c: Node|
            #![trigger self.children_of(p), self.parents_of(c)]
            self.live(p) && self.live(c) ==> occurrences(self.children_of(p), c) == occurrences(self.parents_of(c), p)
    }

    /// `self` holds the same handles as `before`.
    pub open spec fn same_handles(&self, before: &Self) -> bool {
        &&& self.instance() == before.instance()
        &&& self.next_local() == before.next_local()
        &&& self.len() == before.len()
        &&& forall|x: Node| self.live(x) <==> before.live(x)
    }

    /// `h` has the same style, measure and layout in `self` and in `before`.
    pub open spec fn same_payload(&self, before: &Self, h: Node) -> bool {
        &&& self.style_of(h) == before.style_of(h)
        &&& self.measure_of(h) == before.measure_of(h)
        &&& self.layout_of(h) == before.layout_of(h)
    }

    /// `h` has the same children and parents in `self` and in `before`.
    pub open spec fn same_edges(&self, before: &Self, h: Node) -> bool {
        &&& self.children_of(h) == before.children_of(h)
        &&& self.parents_of(h) == before.parents_of(h)
    }

    /// `h` has the same record in `self` and in `other`.
    pub open spec fn same_node(&self, other: &Self, h: Node) -> bool {
        &&& self.children_of(h) == other.children_of(h)
        &&& self.parents_of(h) == other.parents_of(h)
        &&& self.style_of(h) == other.style_of(h)
        &&& self.measure_of(h) == other.measure_of(h)
        &&& self.layout_of(h) == other.layout_of(h)
        &&& self.dirty_of(h) == other.dirty_of(h)
    }

    /// Creates an empty tree whose id comes from `instances`. Handles of two
    /// trees are kept apart only when their ids differ, so all trees that
    /// may meet one another's handles must draw from one allocator.
    pub fn new(instances: &mut Allocator) -> (r: Self)
        requires
            old(instances).next_id() < u64::MAX,
        ensures
            r.wf(),
            r.len() == 0,
            r.instance() == Id(old(instances).next_id()),
            final(instances).next_id() == old(instances).next_id() + 1,
            forall|h: Node| !r.live(h),
            r.symmetric(),
            r.next_local() == 0,
    {
        Self::with_capacity(instances, 16)
    }

    /// Creates an empty tree with room for `capacity` nodes before it
    /// reallocates, whose id comes from `instances`. As with `new`, trees
    /// keep their handles apart only when they draw from one allocator.
    pub fn with_capacity(instances: &mut Allocator, capacity: usize) -> (r: Self)
        requires
            old(instances).next_id() < u64::MAX,
        ensures
            r.wf(),
            r.len() == 0,
            r.instance() == Id(old(instances).next_id()),
            final(instances).next_id() == old(instances).next_id() + 1,
            forall|h: Node| !r.live(h),
            r.symmetric(),
            r.next_local() == 0,
    {
        let t = Taffy {
            id: instances.allocate(),
            allocator: Allocator::new(),
            nodes_to_ids: HashMapWithView::with_capacity(capacity),
            ids_to_nodes: Vec::with_capacity(capacity),
            nodes: Vec::with_capacity(capacity),
            children: Vec::with_capacity(capacity),
            parents: Vec::with_capacity(capacity),
        };
        t
    }

    /// Slots that hold the same handle are the same slot.
    proof fn lemma_slots_distinct(&self, a: int, b: int)
        requires
            self.wf(),
            0 <= a < self.len(),
            0 <= b < self.len(),
            self.node_at(a) == self.node_at(b),
        ensures
            a == b,
    {
    }

    /// Counting a handle among the handles of slots counts its slot.
    proof fn lemma_handles_occurrences(&self, s: Seq<usize>, i: int)
        requires
            self.wf(),
            all_below(s, self.len() as int),
            0 <= i < self.len(),
        ensures
            occurrences(self.handles(s), self.node_at(i)) == occurrences(s, i as usize),
        decreases s.len(),
    {
        if s.len() > 0 {
            assert(self.handles(s).drop_last() =~= self.handles(s.drop_last()));
            self.lemma_handles_occurrences(s.drop_last(), i);
            if self.node_at(s.last() as int) == self.node_at(i) {
                self.lemma_slots_distinct(s.last() as int, i);
            }
        }
    }

    /// Stores a new record under a fresh handle, with `kids` as its children,
    /// and records it as a parent of each of them.
    fn push_node(&mut self, data: NodeData<S, M>, kids: Vec<usize>) -> (r: Node)
        requires
            old(self).wf(),
            old(self).next_local() < u64::MAX,
            old(self).len() < usize::MAX,
            all_below(kids@, old(self).len() as int),
        ensures
            final(self).wf(),
            final(self).instance() == old(self).instance(),
            final(self).next_local() == old(self).next_local() + 1,
            final(self).len() == old(self).len() + 1,
            r.instance == old(self).instance(),
            r.local.0 == old(self).next_local(),
            !old(self).live(r),
            forall|h: Node| final(self).live(h) <==> (old(self).live(h) || h == r),
            final(self).children_of(r) == old(self).handles(kids@),
            final(self).parents_of(r) == Seq::<Node>::empty(),
            final(self).style_of(r) == data.style,
            final(self).measure_of(r) == data.measure,
            final(self).layout_of(r) == data.layout,
            final(self).dirty_of(r) == data.is_dirty,
            forall|h: Node| #[trigger] old(self).live(h) ==> {
                &&& final(self).children_of(h) == old(self).children_of(h)
                &&& final(self).parents_of(h) == old(self).parents_of(h)
                    + copies(r, occurrences(old(self).handles(kids@), h))
                &&& final(self).style_of(h) == old(self).style_of(h)
                &&& final(self).measure_of(h) == old(self).measure_of(h)
                &&& final(self).layout_of(h) == old(self).layout_of(h)
                &&& final(self).dirty_of(h) == old(self).dirty_of(h)
            },
            old(self).symmetric() ==> final(self).symmetric(),
    {
        let ghost old_self = *self;
        let ghost kseq = kids@;
        let local = self.allocator.allocate();
        let node = Node { instance: self.id, local };
        let id = self.nodes.len();
        self.nodes.push(data);
        self.children.push(Vec::new());
        self.parents.push(Vec::new());
        self.ids_to_nodes.push(node);
        self.nodes_to_ids.insert(local.0, id);
        let mut k: usize = 0;
        while k < kids.len()
            invariant
                0 <= k <= kids@.len(),
                kids@ == kseq,
                id == old_self.len(),
                old_self.wf(),
                self.id == old_self.id,
                self.allocator.next_id() == old_self.allocator.next_id() + 1,
                self.nodes@ == old_self.nodes@.push(data),
                self.ids_to_nodes@ == old_self.ids_to_nodes@.push(node),
                self.nodes_to_ids@ == old_self.nodes_to_ids@.insert(local.0, id),
                self.children@.len() == id + 1,
                self.parents@.len() == id + 1,
                self.children@[id as int]@ == Seq::<usize>::empty(),
                forall|i: int| 0 <= i < id ==> self.children@[i] == old_self.children@[i],
                self.parents@[id as int]@ == Seq::<usize>::empty(),
                forall|i: int| 0 <= i < id ==> (#[trigger] self.parents@[i])@
                    == old_self.parents@[i]@ + copies(id, occurrences(kseq.take(k as int), i as usize)),
                all_below(kseq, id as int),
                node == (Node { instance: old_self.id, local: Id(old_self.allocator.next_id()) }),
            decreases kids@.len() - k,
        {
            let c = kids[k];
            assert(kseq.take(k + 1).drop_last() =~= kseq.take(k as int));
            self.parents[c].push(id);
            assert(copies(id, occurrences(kseq.take(k as int), c)).push(id)
                =~= copies(id, occurrences(kseq.take(k + 1), c)));
            assert forall|i: int| 0 <= i < id implies (#[trigger] self.parents@[i])@
                == old_self.parents@[i]@ + copies(id, occurrences(kseq.take(k + 1), i as usize)) by {
                assert(kseq.take(k + 1).drop_last() =~= kseq.take(k as int));
                if i != c {
                } else {
                    assert(old_self.parents@[i]@ + copies(id, occurrences(kseq.take(k + 1), i as usize))
                        =~= (old_self.parents@[i]@ + copies(id, occurrences(kseq.take(k as int), i as usize))).push(id));
                }
            }
            k = k + 1;
        }
        assert(kseq.take(kseq.len() as int) =~= kseq);
        self.children.set(id, kids);
        proof {
            assert forall|i: int| 0 <= i < id implies #[trigger] self.ids_to_nodes@[i] == old_self.ids_to_nodes@[i] by {}
            assert forall|j: int| 0 <= j <= id implies all_below(#[trigger] self.parents@[j]@, id + 1) by {
                if j < id {
                    assert forall|q: int| 0 <= q < self.parents@[j]@.len() implies #[trigger] self.parents@[j]@[q] < id + 1 by {
                        if q >= old_self.parents@[j]@.len() {
                        }
                    }
                }
            }
            assert forall|j: int| 0 <= j <= id implies all_below(#[trigger] self.children@[j]@, id + 1) by {
                if j < id {
                    assert(self.children@[j] == old_self.children@[j]);
                    assert(all_below(old_self.children@[j]@, id as int));
                } else {
                    assert(self.children@[j]@ == kseq);
                }
            }
            assert(self.handles(kseq) =~= old_self.handles(kseq));
            assert(self.parents_of(node) =~= Seq::<Node>::empty());
            assert forall|h: Node| #[trigger] old_self.live(h) implies {
                &&& self.children_of(h) == old_self.children_of(h)
                &&& self.parents_of(h) == old_self.parents_of(h)
                    + copies(node, occurrences(old_self.handles(kseq), h))
            } by {
                let i = old_self.index_of(h);
                assert(self.index_of(h) == i);
                assert(self.children_of(h) =~= old_self.children_of(h));
                old_self.lemma_handles_occurrences(kseq, i);
                assert(self.parents_of(h) =~= old_self.parents_of(h)
                    + copies(node, occurrences(old_self.handles(kseq), h)));
            }
            assert forall|h: Node| self.live(h) <==> (old_self.live(h) || h == node) by {}
        }
        proof {
            if old_self.live(node) {
                old_self.lemma_live_slot(node);
            }
            assert(!old_self.live(node));
            if old_self.symmetric() {
                old_self.lemma_handles_live(kseq);
                let hs = old_self.handles(kseq);
                assert forall|par: Node, kid: Node|
                    #![trigger self.children_of(par), self.parents_of(kid)]
                    self.live(par) && self.live(kid) implies occurrences(self.children_of(par), kid)
                        == occurrences(self.parents_of(kid), par) by {
                    assert(occurrences(Seq::<Node>::empty(), par) == 0);
                    if kid != node {
                        assert(old_self.live(kid));
                        assert(self.parents_of(kid) == old_self.parents_of(kid) + copies(node, occurrences(hs, kid)));
                        old_self.lemma_edges_live(kid);
                        lemma_occurrences_concat(old_self.parents_of(kid), copies(node, occurrences(hs, kid)), par);
                        lemma_occurrences_copies(node, occurrences(hs, kid), par);
                    } else {
                        assert(self.parents_of(kid) == Seq::<Node>::empty());
                    }
                    if par != node {
                        assert(old_self.live(par));
                        assert(self.children_of(par) == old_self.children_of(par));
                        old_self.lemma_edges_live(par);
                        if kid != node {
                            assert(occurrences(old_self.children_of(par), kid) == occurrences(old_self.parents_of(kid), par));
                        }
                    } else {
                        assert(self.children_of(par) == hs);
                    }
                }
            }
        }
        node
    }

    /// The arena and maps of `self` and `other` agree but for the nodes' dirty flags.
    closed spec fn same_but_flags(&self, other: &Self) -> bool {
        &&& self.id == other.id
        &&& self.allocator == other.allocator
        &&& self.nodes_to_ids@ == other.nodes_to_ids@
        &&& self.ids_to_nodes@ == other.ids_to_nodes@
        &&& self.children@ == other.children@
        &&& self.parents@ == other.parents@
        &&& self.nodes@.len() == other.nodes@.len()
        &&& forall|i: int| 0 <= i < self.nodes@.len() ==> {
            &&& (#[trigger] self.nodes@[i]).style == other.nodes@[i].style
            &&& self.nodes@[i].measure == other.nodes@[i].measure
            &&& self.nodes@[i].layout == other.nodes@[i].layout
        }
    }

    /// A set of slots that holds the parents of each of its members.
    closed spec fn closed_upward(&self, v: Set<int>) -> bool {
        forall|i: int, q: int| v.contains(i) && 0 <= q < self.parents@[i]@.len()
            ==> v.contains(#[trigger] self.parents@[i]@[q] as int)
    }

    /// A set of slots that holds the children of each of its members.
    closed spec fn closed_downward(&self, v: Set<int>) -> bool {
        forall|i: int, q: int| v.contains(i) && 0 <= q < self.children@[i]@.len()
            ==> v.contains(#[trigger] self.children@[i]@[q] as int)
    }

    /// `v` is the least set of slots that holds `start` and is closed upward.
    closed spec fn least_up(&self, start: int, v: Set<int>) -> bool {
        &&& v.contains(start)
        &&& self.closed_upward(v)
        &&& forall|u: Set<int>| u.contains(start) && #[trigger] self.closed_upward(u) ==> v.subset_of(u)
    }

    /// `v`, the least upward-closed set of slots holding `start`, is flagged
    /// in `self`, and every other slot has the flag it had in `before`.
    closed spec fn flag_slots(&self, before: &Self, start: int, v: Set<int>) -> bool {
        &&& self.least_up(start, v)
        &&& forall|i: int| 0 <= i < self.len() ==> {
            &&& v.contains(i) ==> (#[trigger] self.nodes@[i]).is_dirty
            &&& !v.contains(i) ==> self.nodes@[i].is_dirty == before.nodes@[i].is_dirty
        }
    }

    /// Flags slot `start` and every slot above it through the parent
    /// relation as stale, visiting each slot at most once.
    fn mark_dirty_at(&mut self, start: usize)
        requires
            old(self).wf(),
            start < old(self).len(),
        ensures
            final(self).wf(),
            final(self).same_but_flags(old(self)),
            exists|v: Set<int>| #[trigger] final(self).flag_slots(old(self), start as int, v),
    {
        let ghost old_self = *self;
        let n = self.nodes.len();
        let mut visited: Vec<bool> = Vec::new();
        let mut k: usize = 0;
        while k < n
            invariant
                k <= n,
                visited@.len() == k,
                forall|i: int| 0 <= i < k ==> !visited@[i],
            decreases n - k,
        {
            visited.push(false);
            k = k + 1;
        }
        visited.set(start, true);
        self.nodes[start].is_dirty = true;
        let mut stack: Vec<usize> = Vec::new();
        stack.push(start);
        let ghost mut v: Set<int> = set![start as int];
        assert(stack@[0] == start);
        assert forall|u: Set<int>| u.contains(start as int) && #[trigger] old_self.closed_upward(u) implies v.subset_of(u) by {}
        proof {
            lemma_int_range(0, n as int);
        }
        while stack.len() > 0
            invariant
                n == self.nodes@.len(),
                old_self.wf(),
                self.same_but_flags(&old_self),
                visited@.len() == n,
                forall|i: int| 0 <= i < n ==> (visited@[i] <==> v.contains(i)),
                v.subset_of(set_int_range(0, n as int)),
                set_int_range(0, n as int).len() == n,
                set_int_range(0, n as int).finite(),
                v.contains(start as int),
                forall|u: Set<int>| u.contains(start as int) && #[trigger] old_self.closed_upward(u) ==> v.subset_of(u),
                forall|q: int| 0 <= q < stack@.len() ==> v.contains(#[trigger] stack@[q] as int),
                forall|i: int| 0 <= i < n ==> {
                    &&& v.contains(i) ==> (#[trigger] self.nodes@[i]).is_dirty
                    &&& !v.contains(i) ==> self.nodes@[i].is_dirty == old_self.nodes@[i].is_dirty
                },
                forall|i: int, q: int| v.contains(i) && !stack@.contains(i as usize) && 0 <= q < self.parents@[i]@.len()
                    ==> v.contains(#[trigger] self.parents@[i]@[q] as int),
            decreases 2 * (n - v.len()) + stack@.len(),
        {
            proof {
                lemma_len_subset(v, set_int_range(0, n as int));
            }
            let ghost measure0 = 2 * (n - v.len()) + stack@.len();
            let ghost old_stack = stack@;
            let i = stack.pop().unwrap();
            assert(v.contains(i as int)) by { assert(old_stack[old_stack.len() - 1] == i); }
            assert forall|j: int| 0 <= j < old_stack.len() - 1 implies stack@.contains(#[trigger] old_stack[j]) by {
                assert(stack@[j] == old_stack[j]);
            }
            assert forall|j: int, r: int| v.contains(j) && !stack@.contains(j as usize) && j != i && 0 <= r < self.parents@[j]@.len()
                implies v.contains(#[trigger] self.parents@[j]@[r] as int) by {
                if old_stack.contains(j as usize) {
                    let w = choose|w: int| 0 <= w < old_stack.len() && old_stack[w] == j as usize;
                    if w < old_stack.len() - 1 {
                        assert(stack@.contains(old_stack[w]));
                    }
                }
            }
            let plen = self.parents[i].len();
            let mut q: usize = 0;
            while q < plen
                invariant
                    n == self.nodes@.len(),
                    old_self.wf(),
                    i < n,
                    plen == self.parents@[i as int]@.len(),
                    q <= plen,
                    self.same_but_flags(&old_self),
                    visited@.len() == n,
                    forall|j: int| 0 <= j < n ==> (visited@[j] <==> v.contains(j)),
                    v.subset_of(set_int_range(0, n as int)),
                    set_int_range(0, n as int).len() == n,
                    set_int_range(0, n as int).finite(),
                    v.contains(start as int),
                forall|u: Set<int>| u.contains(start as int) && #[trigger] old_self.closed_upward(u) ==> v.subset_of(u),
                    v.contains(i as int),
                    forall|r: int| 0 <= r < stack@.len() ==> v.contains(#[trigger] stack@[r] as int),
                    forall|j: int| 0 <= j < n ==> {
                        &&& v.contains(j) ==> (#[trigger] self.nodes@[j]).is_dirty
                        &&& !v.contains(j) ==> self.nodes@[j].is_dirty == old_self.nodes@[j].is_dirty
                    },
                    forall|j: int, r: int| v.contains(j) && !stack@.contains(j as usize) && j != i && 0 <= r < self.parents@[j]@.len()
                        ==> v.contains(#[trigger] self.parents@[j]@[r] as int),
                    forall|r: int| 0 <= r < q ==> v.contains(#[trigger] self.parents@[i as int]@[r] as int),
                    forall|j: int| 0 <= j < old_stack.len() - 1 ==> stack@.contains(#[trigger] old_stack[j]),
                    2 * (n - v.len()) + stack@.len() < measure0,
                decreases plen - q,
            {
                proof {
                    lemma_len_subset(v, set_int_range(0, n as int));
                }
                let p = self.parents[i][q];
                assert(all_below(old_self.parents@[i as int]@, n as int));
                assert(p < n);
                if !visited[p] {
                    visited.set(p, true);
                    self.nodes[p].is_dirty = true;
                    let ghost s0 = stack@;
                    stack.push(p);
                    assert forall|j: int| 0 <= j < old_stack.len() - 1 implies stack@.contains(#[trigger] old_stack[j]) by {
                        assert(s0.contains(old_stack[j]));
                        let w = choose|w: int| 0 <= w < s0.len() && s0[w] == old_stack[j];
                        assert(stack@[w] == old_stack[j]);
                    }
                    assert forall|x: usize| s0.contains(x) implies stack@.contains(x) by {
                        let w = choose|w: int| 0 <= w < s0.len() && s0[w] == x;
                        assert(stack@[w] == x);
                    }
                    proof {
                        assert(!v.contains(p as int));
                        let ghost v0 = v;
                        v = v.insert(p as int);
                        assert(v.len() == v0.len() + 1);
                        assert forall|u: Set<int>| u.contains(start as int) && #[trigger] old_self.closed_upward(u)
                            implies v.subset_of(u) by {
                            assert(v0.subset_of(u));
                            assert(u.contains(i as int));
                            assert(u.contains(old_self.parents@[i as int]@[q as int] as int));
                        }
                        assert(stack@[stack@.len() - 1] == p);
                    }
                }
                q = q + 1;
            }
            proof {
                lemma_len_subset(v, set_int_range(0, n as int));
            }
            assert forall|j: int, r: int| v.contains(j) && !stack@.contains(j as usize) && 0 <= r < self.parents@[j]@.len()
                implies v.contains(#[trigger] self.parents@[j]@[r] as int) by {
            }
        }
        proof {
            assert(self.closed_upward(v)) by {
                assert forall|i: int, q: int| v.contains(i) && 0 <= q < self.parents@[i]@.len()
                    implies v.contains(#[trigger] self.parents@[i]@[q] as int) by {
                    assert(!stack@.contains(i as usize));
                }
            }
            assert forall|i: int| 0 <= i < n implies all_below(#[trigger] self.parents@[i]@, n as int) by {
                assert(self.parents@[i] == old_self.parents@[i]);
            }
            assert forall|i: int| 0 <= i < n implies all_below(#[trigger] self.children@[i]@, n as int) by {
                assert(self.children@[i] == old_self.children@[i]);
            }
            assert forall|i: int| 0 <= i < n implies #[trigger] self.ids_to_nodes@[i] == old_self.ids_to_nodes@[i] by {}
            assert forall|u: Set<int>| u.contains(start as int) && #[trigger] self.closed_upward(u) implies v.subset_of(u) by {
                assert(old_self.closed_upward(u));
            }
            assert(self.flag_slots(&old_self, start as int, v));
        }
    }

    /// Flagging at the level of slots, read at the level of handles.
    proof fn lemma_flagged(&self, before: &Self, start: int)
        requires
            before.wf(),
            self.wf(),
            self.same_but_flags(before),
            0 <= start < before.len(),
            exists|v: Set<int>| #[trigger] self.flag_slots(before, start, v),
        ensures
            self.same_handles(before),
            forall|x: Node| #[trigger] self.live(x) ==> self.same_edges(before, x) && self.same_payload(before, x),
            forall|x: Node| self.live(x) ==> self.index_of(x) == before.index_of(x),
            self.flagged_from(before, before.node_at(start)),
    {
        let vi = choose|v: Set<int>| #[trigger] self.flag_slots(before, start, v);
        let vn = Set::new(|x: Node| self.live(x) && vi.contains(self.index_of(x)));
        let h = before.node_at(start);
        assert(vn.contains(h));
        assert forall|x: Node, y: Node| vn.contains(x) && self.live(x) && #[trigger] self.parents_of(x).contains(y)
            implies vn.contains(y) by {
            let ps = self.parents@[self.index_of(x)]@;
            let q = choose|q: int| 0 <= q < self.parents_of(x).len() && self.parents_of(x)[q] == y;
            assert(self.parents_of(x)[q] == self.ids_to_nodes@[ps[q] as int]);
            assert(all_below(ps, self.len() as int));
            assert(vi.contains(ps[q] as int));
        }
        assert forall|u: Set<Node>| u.contains(h) && #[trigger] self.parent_closed(u) implies vn.subset_of(u) by {
            let ui = Set::new(|i: int| 0 <= i < self.len() && u.contains(self.ids_to_nodes@[i]));
            assert(ui.contains(start));
            assert forall|i: int, q: int| ui.contains(i) && 0 <= q < self.parents@[i]@.len()
                implies ui.contains(#[trigger] self.parents@[i]@[q] as int) by {
                let x = self.ids_to_nodes@[i];
                let ps = self.parents@[i]@;
                assert(self.index_of(x) == i);
                assert(all_below(ps, self.len() as int));
                assert(self.parents_of(x)[q] == self.ids_to_nodes@[ps[q] as int]);
                assert(self.parents_of(x).contains(self.ids_to_nodes@[ps[q] as int]));
            }
            assert(self.closed_upward(ui));
            assert(vi.subset_of(ui));
            assert forall|x: Node| vn.contains(x) implies u.contains(x) by {
                assert(ui.contains(self.index_of(x)));
            }
        }
        assert(self.ancestry(h, vn));
        assert(self.flag_witness(before, h, vn));
        assert forall|x: Node| #[trigger] self.live(x) implies self.same_edges(before, x) && self.same_payload(before, x) by {
            assert(self.children_of(x) =~= before.children_of(x));
            assert(self.parents_of(x) =~= before.parents_of(x));
        }
    }

    /// Flagging from a state whose dirty flags agree with those of `b` is
    /// flagging from `b`.
    proof fn lemma_flagged_transfer(&self, a: &Self, b: &Self, h: Node)
        requires
            self.flagged_from(a, h),
            forall|x: Node| self.live(x) ==> a.dirty_of(x) == b.dirty_of(x),
        ensures
            self.flagged_from(b, h),
    {
        let v = choose|v: Set<Node>| #[trigger] self.flag_witness(a, h, v);
        assert(self.flag_witness(b, h, v));
    }

    /// A live handle is the handle stored at its slot.
    proof fn lemma_live_slot(&self, h: Node)
        requires
            self.wf(),
            self.live(h),
        ensures
            0 <= self.index_of(h) < self.len(),
            self.node_at(self.index_of(h)) == h,
    {
    }

    /// The handles of a slot sequence with one more slot.
    proof fn lemma_handles_push(&self, s: Seq<usize>, j: usize)
        ensures
            self.handles(s.push(j)) == self.handles(s).push(self.node_at(j as int)),
    {
        assert(self.handles(s.push(j)) =~= self.handles(s).push(self.node_at(j as int)));
    }

    /// The handles of a slot sequence with one slot dropped are the handles
    /// without that slot's handle.
    proof fn lemma_handles_without(&self, s: Seq<usize>, j: int)
        requires
            self.wf(),
            all_below(s, self.len() as int),
            0 <= j < self.len(),
        ensures
            self.handles(without(s, j as usize)) == without(self.handles(s), self.node_at(j)),
        decreases s.len(),
    {
        if s.len() > 0 {
            assert(self.handles(s).drop_last() =~= self.handles(s.drop_last()));
            self.lemma_handles_without(s.drop_last(), j);
            if self.node_at(s.last() as int) == self.node_at(j) {
                self.lemma_slots_distinct(s.last() as int, j);
            }
            let rest = without(s.drop_last(), j as usize);
            if s.last() != j as usize {
                self.lemma_handles_push(rest, s.last());
            }
        }
    }

    /// Reindexing a slot sequence across a compaction keeps its handles but
    /// the removed one.
    proof fn lemma_handles_reindexed(&self, before: &Self, s: Seq<usize>, gone: int, last: int)
        requires
            before.wf(),
            last == before.len() - 1,
            0 <= gone <= last,
            all_below(s, before.len() as int),
            forall|e: int| 0 <= e < before.len() && e != gone && e != last
                ==> #[trigger] self.ids_to_nodes@[e] == before.ids_to_nodes@[e],
            gone != last ==> self.ids_to_nodes@[gone] == before.ids_to_nodes@[last],
        ensures
            self.handles(reindexed(s, gone as usize, last as usize)) == without(before.handles(s), before.node_at(gone)),
        decreases s.len(),
    {
        if s.len() > 0 {
            assert(before.handles(s).drop_last() =~= before.handles(s.drop_last()));
            self.lemma_handles_reindexed(before, s.drop_last(), gone, last);
            let e = s.last() as int;
            if before.node_at(e) == before.node_at(gone) {
                before.lemma_slots_distinct(e, gone);
            }
            let rest = reindexed(s.drop_last(), gone as usize, last as usize);
            if e != gone {
                if e == last {
                    self.lemma_handles_push(rest, gone as usize);
                } else {
                    self.lemma_handles_push(rest, e as usize);
                }
            }
        }
    }

    /// Dropping entries keeps a bound on the rest.
    proof fn lemma_without_below(&self, s: Seq<usize>, x: usize, n: int)
        requires
            all_below(s, n),
        ensures
            all_below(without(s, x), n),
        decreases s.len(),
    {
        if s.len() > 0 {
            self.lemma_without_below(s.drop_last(), x, n);
        }
    }

    /// A handle is among the handles of a slot sequence when its slot is
    /// among the slots.
    proof fn lemma_handles_contains(&self, s: Seq<usize>, i: int)
        requires
            self.wf(),
            all_below(s, self.len() as int),
            0 <= i < self.len(),
        ensures
            self.handles(s).contains(self.node_at(i)) <==> s.contains(i as usize),
    {
        if self.handles(s).contains(self.node_at(i)) {
            let q = choose|q: int| 0 <= q < self.handles(s).len() && self.handles(s)[q] == self.node_at(i);
            self.lemma_slots_distinct(s[q] as int, i);
            assert(s[q] == i as usize);
        }
        if s.contains(i as usize) {
            let q = choose|q: int| 0 <= q < s.len() && s[q] == i as usize;
            assert(self.handles(s)[q] == self.node_at(i));
        }
    }

    /// Each live handle resolves to one slot, and each slot resolves back to
    /// the one live handle stored there: the two maps are inverse to each other.
    pub proof fn lemma_bijection(&self)
        requires
            self.wf(),
        ensures
            forall|h: Node| #[trigger] self.live(h) ==> 0 <= self.index_of(h) < self.len()
                && self.node_at(self.index_of(h)) == h,
            forall|i: int| 0 <= i < self.len() ==> self.live(#[trigger] self.node_at(i))
                && self.index_of(self.node_at(i)) == i,
            forall|h1: Node, h2: Node| #[trigger] self.live(h1) && #[trigger] self.live(h2)
                && self.index_of(h1) == self.index_of(h2) ==> h1 == h2,
    {
    }

    /// A live handle carries this tree's id and a local id issued before the
    /// next one, so no handle of another tree is live here, and a handle
    /// issued later never equals one issued before.
    pub proof fn lemma_issued(&self, h: Node)
        requires
            self.wf(),
            self.live(h),
        ensures
            h.tree() == self.instance(),
            h.local_id() < self.next_local(),
    {
        self.lemma_live_slot(h);
    }

    /// A handle that names another tree is not live in this one.
    pub proof fn lemma_instance_isolation(&self, h: Node)
        requires
            h.tree() != self.instance(),
        ensures
            !self.live(h),
    {
    }

    /// The children and the parents of a live node are live.
    pub proof fn lemma_edges_live(&self, x: Node)
        requires
            self.wf(),
            self.live(x),
        ensures
            forall|q: int| 0 <= q < self.children_of(x).len() ==> self.live(#[trigger] self.children_of(x)[q]),
            forall|q: int| 0 <= q < self.parents_of(x).len() ==> self.live(#[trigger] self.parents_of(x)[q]),
            forall|y: Node| !self.live(y) ==> occurrences(self.children_of(x), y) == 0
                && occurrences(self.parents_of(x), y) == 0,
    {
        self.lemma_live_slot(x);
        let i = self.index_of(x);
        assert(all_below(self.children@[i]@, self.len() as int));
        assert(all_below(self.parents@[i]@, self.len() as int));
        assert forall|q: int| 0 <= q < self.children_of(x).len() implies self.live(#[trigger] self.children_of(x)[q]) by {
            assert(self.children_of(x)[q] == self.ids_to_nodes@[self.children@[i]@[q] as int]);
        }
        assert forall|q: int| 0 <= q < self.parents_of(x).len() implies self.live(#[trigger] self.parents_of(x)[q]) by {
            assert(self.parents_of(x)[q] == self.ids_to_nodes@[self.parents@[i]@[q] as int]);
        }
        assert forall|y: Node| !self.live(y) implies occurrences(self.children_of(x), y) == 0
            && occurrences(self.parents_of(x), y) == 0 by {
            lemma_occurrences_contains(self.children_of(x), y);
            lemma_occurrences_contains(self.parents_of(x), y);
        }
    }

    /// When every edge is recorded from both ends, `c` is a child of `p`
    /// exactly when `p` is a parent of `c`.
    pub proof fn lemma_parent_child_symmetry(&self, p: Node, c: Node)
        requires
            self.wf(),
            self.symmetric(),
            self.live(p),
            self.live(c),
        ensures
            self.children_of(p).contains(c) <==> self.parents_of(c).contains(p),
    {
        assert(occurrences(self.children_of(p), c) == occurrences(self.parents_of(c), p));
        lemma_occurrences_contains(self.children_of(p), c);
        lemma_occurrences_contains(self.parents_of(c), p);
    }

    /// The handles of slots hold no handle that is not live.
    proof fn lemma_handles_live(&self, s: Seq<usize>)
        requires
            self.wf(),
            all_below(s, self.len() as int),
        ensures
            forall|y: Node| !self.live(y) ==> occurrences(self.handles(s), y) == 0,
    {
        assert forall|y: Node| !self.live(y) implies occurrences(self.handles(s), y) == 0 by {
            lemma_occurrences_contains(self.handles(s), y);
            if self.handles(s).contains(y) {
                let q = choose|q: int| 0 <= q < self.handles(s).len() && self.handles(s)[q] == y;
                assert(self.handles(s)[q] == self.ids_to_nodes@[s[q] as int]);
            }
        }
    }

    /// Dropping the first occurrence of a slot drops the first occurrence
    /// of its handle.
    proof fn lemma_handles_drops_first(&self, s: Seq<usize>, t: Seq<usize>, j: int)
        requires
            self.wf(),
            all_below(s, self.len() as int),
            0 <= j < self.len(),
            drops_first(s, t, j as usize),
        ensures
            drops_first(self.handles(s), self.handles(t), self.node_at(j)),
            all_below(t, self.len() as int),
    {
        self.lemma_handles_contains(s, j);
        if s.contains(j as usize) {
            let k = choose|k: int|
                0 <= k < s.len() && s[k] == j as usize && (forall|e: int| 0 <= e < k ==> s[e] != j as usize)
                    && t == #[trigger] s.remove(k);
            let hs = self.handles(s);
            assert(self.handles(t) =~= hs.remove(k));
            assert(hs[k] == self.node_at(j));
            assert forall|e: int| 0 <= e < k implies hs[e] != self.node_at(j) by {
                if hs[e] == self.node_at(j) {
                    self.lemma_slots_distinct(s[e] as int, j);
                }
            }
            assert forall|q: int| 0 <= q < t.len() implies #[trigger] t[q] < self.len() by {
                if q < k {
                    assert(t[q] == s[q]);
                } else {
                    assert(t[q] == s[q + 1]);
                }
            }
        }
    }

    /// Drops the first occurrence of slot `node_id` from the parents of slot `child_id`.
    fn drop_parent_once(&mut self, child_id: usize, node_id: usize)
        requires
            old(self).wf(),
            child_id < old(self).len(),
            node_id < old(self).len(),
        ensures
            final(self).wf(),
            final(self).id == old(self).id,
            final(self).allocator == old(self).allocator,
            final(self).nodes_to_ids@ == old(self).nodes_to_ids@,
            final(self).ids_to_nodes@ == old(self).ids_to_nodes@,
            final(self).nodes@ == old(self).nodes@,
            final(self).children@ == old(self).children@,
            final(self).parents@.len() == old(self).parents@.len(),
            forall|i: int| 0 <= i < old(self).len() && i != child_id ==> #[trigger] final(self).parents@[i] == old(self).parents@[i],
            drops_first(old(self).parents@[child_id as int]@, final(self).parents@[child_id as int]@, node_id),
    {
        let ghost before = *self;
        let mut w = copy_slots(&self.parents[child_id]);
        remove_first_slot(&mut w, node_id);
        self.parents.set(child_id, w);
        proof {
            assert(all_below(before.parents@[child_id as int]@, before.len() as int));
            before.lemma_handles_drops_first(before.parents@[child_id as int]@, w@, node_id as int);
            assert forall|i: int| 0 <= i < self.len() implies all_below(#[trigger] self.parents@[i]@, self.len() as int) by {
                assert(all_below(before.parents@[i]@, self.len() as int));
            }
            assert forall|i: int| 0 <= i < self.len() implies all_below(#[trigger] self.children@[i]@, self.len() as int) by {
                assert(all_below(before.children@[i]@, self.len() as int));
            }
            assert forall|i: int| 0 <= i < self.len() implies #[trigger] self.ids_to_nodes@[i] == before.ids_to_nodes@[i] by {}
        }
    }

    /// Resolves a handle to its slot.
    fn find_node(&self, node: Node) -> (r: Result<usize, InvalidNode>)
        requires
            self.wf(),
        ensures
            self.live(node) <==> r is Ok,
            r is Ok ==> r->Ok_0 == self.index_of(node) && r->Ok_0 < self.len(),
            r is Err ==> r->Err_0 == InvalidNode(node),
    {
        if node.instance != self.id {
            return Err(InvalidNode(node));
        }
        match self.nodes_to_ids.get(&node.local.0) {
            Some(id) => Ok(*id),
            None => Err(InvalidNode(node)),
        }
    }

    /// Flags `node` and every node above it as needing a new layout.
    pub fn mark_dirty(&mut self, node: Node) -> (r: Result<(), InvalidNode>)
        requires
            old(self).wf(),
        ensures
            final(self).wf(),
            old(self).live(node) <==> r is Ok,
            r is Err ==> r == Err::<(), InvalidNode>(InvalidNode(node)) && *final(self) == *old(self),
            final(self).same_handles(old(self)),
            forall|x: Node| #[trigger] final(self).live(x) ==> final(self).same_edges(old(self), x)
                && final(self).same_payload(old(self), x),
            r is Ok ==> final(self).flagged_from(old(self), node),
            old(self).symmetric() ==> final(self).symmetric(),
    {
        let id = match self.find_node(node) {
            Ok(id) => id,
            Err(e) => return Err(e),
        };
        let ghost before = *self;
        self.mark_dirty_at(id);
        proof {
            self.lemma_flagged(&before, id as int);
        }
        Ok(())
    }

    /// Whether the cached layout of `node` is stale. Reads the flag alone.
    pub fn dirty(&self, node: Node) -> (r: Result<bool, InvalidNode>)
        requires
            self.wf(),
        ensures
            self.live(node) ==> r == Ok::<bool, InvalidNode>(self.dirty_of(node)),
            !self.live(node) ==> r == Err::<bool, InvalidNode>(InvalidNode(node)),
    {
        let id = self.find_node(node)?;
        Ok(self.nodes[id].is_dirty)
    }

    /// The style of `node`.
    pub fn style(&self, node: Node) -> (r: Result<&S, InvalidNode>)
        requires
            self.wf(),
        ensures
            self.live(node) <==> r is Ok,
            r is Ok ==> *r->Ok_0 == self.style_of(node),
            r is Err ==> r->Err_0 == InvalidNode(node),
    {
        let id = self.find_node(node)?;
        Ok(&self.nodes[id].style)
    }

    /// The layout of `node` as last computed, relative to its parent.
    pub fn layout(&self, node: Node) -> (r: Result<&Layout, InvalidNode>)
        requires
            self.wf(),
        ensures
            self.live(node) <==> r is Ok,
            r is Ok ==> *r->Ok_0 == self.layout_of(node),
            r is Err ==> r->Err_0 == InvalidNode(node),
    {
        let id = self.find_node(node)?;
        Ok(&self.nodes[id].layout)
    }

    /// The number of children of `parent`.
    pub fn child_count(&self, parent: Node) -> (r: Result<usize, InvalidNode>)
        requires
            self.wf(),
        ensures
            self.live(parent) ==> r == Ok::<usize, InvalidNode>(self.children_of(parent).len() as usize),
            self.live(parent) ==> self.children_of(parent).len() <= usize::MAX,
            !self.live(parent) ==> r == Err::<usize, InvalidNode>(InvalidNode(parent)),
    {
        let id = self.find_node(parent)?;
        Ok(self.children[id].len())
    }

    /// The child of `parent` at position `child_index`.
    pub fn child_at_index(&self, parent: Node, child_index: usize) -> (r: Result<Node, InvalidChild>)
        requires
            self.wf(),
        ensures
            !self.live(parent) ==> r == Err::<Node, InvalidChild>(InvalidChild::InvalidParentNode(parent)),
            self.live(parent) && child_index >= self.children_of(parent).len() ==> r == Err::<Node, InvalidChild>(
                InvalidChild::ChildIndexOutOfBounds {
                    parent,
                    child_index,
                    child_count: self.children_of(parent).len() as usize,
                },
            ),
            self.live(parent) && child_index < self.children_of(parent).len() ==> r == Ok::<Node, InvalidChild>(
                self.children_of(parent)[child_index as int],
            ),
    {
        let id = match self.find_node(parent) {
            Ok(id) => id,
            Err(e) => return Err(InvalidChild::InvalidParentNode(e.0)),
        };
        let child_count = self.children[id].len();
        if child_index >= child_count {
            return Err(InvalidChild::ChildIndexOutOfBounds { parent, child_index, child_count });
        }
        let c = self.children[id][child_index];
        proof {
            assert(all_below(self.children@[id as int]@, self.len() as int));
        }
        Ok(self.ids_to_nodes[c])
    }

    /// The children of `parent`, in order.
    pub fn children(&self, parent: Node) -> (r: Result<Vec<Node>, InvalidNode>)
        requires
            self.wf(),
        ensures
            self.live(parent) <==> r is Ok,
            r is Ok ==> r->Ok_0@ == self.children_of(parent),
            r is Err ==> r->Err_0 == InvalidNode(parent),
    {
        let id = self.find_node(parent)?;
        let kids = &self.children[id];
        proof {
            assert(all_below(kids@, self.len() as int));
        }
        let mut out: Vec<Node> = Vec::new();
        let mut k: usize = 0;
        while k < kids.len()
            invariant
                self.wf(),
                kids@ == self.children@[id as int]@,
                all_below(kids@, self.len() as int),
                k <= kids@.len(),
                out@ == self.handles(kids@.take(k as int)),
            decreases kids@.len() - k,
        {
            out.push(self.ids_to_nodes[kids[k]]);
            k = k + 1;
            assert(out@ =~= self.handles(kids@.take(k as int)));
        }
        assert(kids@.take(kids@.len() as int) =~= kids@);
        Ok(out)
    }

    /// The parents of `child`.
    pub fn parents(&self, child: Node) -> (r: Result<Vec<Node>, InvalidNode>)
        requires
            self.wf(),
        ensures
            self.live(child) <==> r is Ok,
            r is Ok ==> r->Ok_0@ == self.parents_of(child),
            r is Err ==> r->Err_0 == InvalidNode(child),
    {
        let id = self.find_node(child)?;
        let ps = &self.parents[id];
        proof {
            assert(all_below(ps@, self.len() as int));
        }
        let mut out: Vec<Node> = Vec::new();
        let mut k: usize = 0;
        while k < ps.len()
            invariant
                self.wf(),
                ps@ == self.parents@[id as int]@,
                all_below(ps@, self.len() as int),
                k <= ps@.len(),
                out@ == self.handles(ps@.take(k as int)),
            decreases ps@.len() - k,
        {
            out.push(self.ids_to_nodes[ps[k]]);
            k = k + 1;
            assert(out@ =~= self.handles(ps@.take(k as int)));
        }
        assert(ps@.take(ps@.len() as int) =~= ps@);
        Ok(out)
    }

    /// Replaces the style of `node` and flags it and its ancestors as stale.
    pub fn set_style(&mut self, node: Node, style: S) -> (r: Result<(), InvalidNode>)
        requires
            old(self).wf(),
        ensures
            final(self).wf(),
            old(self).live(node) <==> r is Ok,
            r is Err ==> r == Err::<(), InvalidNode>(InvalidNode(node)) && *final(self) == *old(self),
            final(self).same_handles(old(self)),
            r is Ok ==> final(self).style_of(node) == style,
            r is Ok ==> final(self).flagged_from(old(self), node),
            forall|x: Node| #[trigger] final(self).live(x) ==> final(self).same_edges(old(self), x),
            forall|x: Node| #[trigger] final(self).live(x) && x != node ==> final(self).same_payload(old(self), x),
            final(self).measure_of(node) == old(self).measure_of(node),
            final(self).layout_of(node) == old(self).layout_of(node),
            old(self).symmetric() ==> final(self).symmetric(),
    {
        let id = match self.find_node(node) {
            Ok(id) => id,
            Err(e) => return Err(e),
        };
        let ghost before = *self;
        self.nodes[id].style = style;
        let ghost mid = *self;
        proof {
            assert forall|i: int| 0 <= i < self.len() implies #[trigger] self.ids_to_nodes@[i] == before.ids_to_nodes@[i] by {}
            assert(mid.wf());
        }
        self.mark_dirty_at(id);
        proof {
            self.lemma_flagged(&mid, id as int);
            before.lemma_live_slot(node);
            assert forall|x: Node| self.live(x) implies mid.dirty_of(x) == before.dirty_of(x) by {}
            self.lemma_flagged_transfer(&mid, &before, node);
            assert forall|x: Node| #[trigger] self.live(x) implies self.same_edges(&before, x) by {
                assert(mid.children_of(x) =~= before.children_of(x));
                assert(mid.parents_of(x) =~= before.parents_of(x));
            }
            assert forall|x: Node| #[trigger] self.live(x) && x != node implies self.same_payload(&before, x) by {
                before.lemma_live_slot(x);
            }
        }
        Ok(())
    }

    /// Replaces the measure callback of `node` and flags it and its ancestors as stale.
    pub fn set_measure(&mut self, node: Node, measure: Option<M>) -> (r: Result<(), InvalidNode>)
        requires
            old(self).wf(),
        ensures
            final(self).wf(),
            old(self).live(node) <==> r is Ok,
            r is Err ==> r == Err::<(), InvalidNode>(InvalidNode(node)) && *final(self) == *old(self),
            final(self).same_handles(old(self)),
            r is Ok ==> final(self).measure_of(node) == measure,
            r is Ok ==> final(self).flagged_from(old(self), node),
            forall|x: Node| #[trigger] final(self).live(x) ==> final(self).same_edges(old(self), x),
            forall|x: Node| #[trigger] final(self).live(x) && x != node ==> final(self).same_payload(old(self), x),
            final(self).style_of(node) == old(self).style_of(node),
            final(self).layout_of(node) == old(self).layout_of(node),
            old(self).symmetric() ==> final(self).symmetric(),
    {
        let id = match self.find_node(node) {
            Ok(id) => id,
            Err(e) => return Err(e),
        };
        let ghost before = *self;
        self.nodes[id].measure = measure;
        let ghost mid = *self;
        proof {
            assert forall|i: int| 0 <= i < self.len() implies #[trigger] self.ids_to_nodes@[i] == before.ids_to_nodes@[i] by {}
            assert(mid.wf());
        }
        self.mark_dirty_at(id);
        proof {
            self.lemma_flagged(&mid, id as int);
            before.lemma_live_slot(node);
            assert forall|x: Node| self.live(x) implies mid.dirty_of(x) == before.dirty_of(x) by {}
            self.lemma_flagged_transfer(&mid, &before, node);
            assert forall|x: Node| #[trigger] self.live(x) implies self.same_edges(&before, x) by {
                assert(mid.children_of(x) =~= before.children_of(x));
                assert(mid.parents_of(x) =~= before.parents_of(x));
            }
            assert forall|x: Node| #[trigger] self.live(x) && x != node implies self.same_payload(&before, x) by {
                before.lemma_live_slot(x);
            }
        }
        Ok(())
    }

    /// Appends `child` to the children of `parent`, keeping the ones it has,
    /// and flags `parent` and its ancestors as stale.
    pub fn add_child(&mut self, parent: Node, child: Node) -> (r: Result<(), InvalidNode>)
        requires
            old(self).wf(),
        ensures
            final(self).wf(),
            r is Ok <==> old(self).live(parent) && old(self).live(child),
            !old(self).live(parent) ==> r == Err::<(), InvalidNode>(InvalidNode(parent)),
            old(self).live(parent) && !old(self).live(child) ==> r == Err::<(), InvalidNode>(InvalidNode(child)),
            r is Err ==> *final(self) == *old(self),
            final(self).same_handles(old(self)),
            forall|x: Node| #[trigger] final(self).live(x) ==> final(self).same_payload(old(self), x),
            r is Ok ==> {
                &&& final(self).children_of(parent) == old(self).children_of(parent).push(child)
                &&& final(self).parents_of(child) == old(self).parents_of(child).push(parent)
                &&& forall|x: Node| #[trigger] final(self).live(x) && x != parent
                    ==> final(self).children_of(x) == old(self).children_of(x)
                &&& forall|x: Node| #[trigger] final(self).live(x) && x != child
                    ==> final(self).parents_of(x) == old(self).parents_of(x)
                &&& final(self).flagged_from(old(self), parent)
            },
            old(self).symmetric() ==> final(self).symmetric(),
    {
        let node_id = match self.find_node(parent) {
            Ok(id) => id,
            Err(e) => return Err(e),
        };
        let child_id = match self.find_node(child) {
            Ok(id) => id,
            Err(e) => return Err(e),
        };
        let ghost before = *self;
        self.children[node_id].push(child_id);
        self.parents[child_id].push(node_id);
        let ghost mid = *self;
        proof {
            before.lemma_live_slot(parent);
            before.lemma_live_slot(child);
            assert forall|i: int| 0 <= i < self.len() implies #[trigger] self.ids_to_nodes@[i] == before.ids_to_nodes@[i] by {}
            assert forall|i: int| 0 <= i < self.len() implies all_below(#[trigger] self.children@[i]@, self.len() as int) by {
                assert(all_below(before.children@[i]@, self.len() as int));
            }
            assert forall|i: int| 0 <= i < self.len() implies all_below(#[trigger] self.parents@[i]@, self.len() as int) by {
                assert(all_below(before.parents@[i]@, self.len() as int));
            }
            assert(mid.wf());
            before.lemma_handles_push(before.children@[node_id as int]@, child_id);
            before.lemma_handles_push(before.parents@[child_id as int]@, node_id);
            assert(mid.children_of(parent) == before.children_of(parent).push(child));
            assert(mid.parents_of(child) == before.parents_of(child).push(parent));
        }
        self.mark_dirty_at(node_id);
        proof {
            self.lemma_flagged(&mid, node_id as int);
            assert forall|x: Node| self.live(x) implies mid.dirty_of(x) == before.dirty_of(x) by {}
            self.lemma_flagged_transfer(&mid, &before, parent);
            assert forall|x: Node| #[trigger] self.live(x) && x != parent implies
                self.children_of(x) == before.children_of(x) by {
                before.lemma_live_slot(x);
                assert(mid.children_of(x) =~= before.children_of(x));
            }
            assert forall|x: Node| #[trigger] self.live(x) && x != child implies
                self.parents_of(x) == before.parents_of(x) by {
                before.lemma_live_slot(x);
                assert(mid.parents_of(x) =~= before.parents_of(x));
            }
        }
        proof {
            if before.symmetric() {
                assert forall|par: Node, kid: Node|
                    #![trigger self.children_of(par), self.parents_of(kid)]
                    self.live(par) && self.live(kid) implies occurrences(self.children_of(par), kid)
                        == occurrences(self.parents_of(kid), par) by {
                    assert(occurrences(before.children_of(par), kid) == occurrences(before.parents_of(kid), par));
                    lemma_occurrences_push(before.children_of(parent), child, kid);
                    lemma_occurrences_push(before.parents_of(child), parent, par);
                }
            }
        }
        Ok(())
    }

    /// Adds a node without children, stale until its first layout.
    pub fn new_leaf(&mut self, style: S, measure: M) -> (r: Result<Node, InvalidNode>)
        requires
            old(self).wf(),
            old(self).next_local() < u64::MAX,
            old(self).len() < usize::MAX,
        ensures
            final(self).wf(),
            r is Ok,
            final(self).instance() == old(self).instance(),
            final(self).next_local() == old(self).next_local() + 1,
            final(self).len() == old(self).len() + 1,
            r is Ok ==> {
                let h = r->Ok_0;
                &&& h.tree() == old(self).instance()
                &&& h.local_id() == old(self).next_local()
                &&& !old(self).live(h)
                &&& forall|x: Node| final(self).live(x) <==> (old(self).live(x) || x == h)
                &&& final(self).children_of(h) == Seq::<Node>::empty()
                &&& final(self).parents_of(h) == Seq::<Node>::empty()
                &&& final(self).style_of(h) == style
                &&& final(self).measure_of(h) == Some(measure)
                &&& final(self).layout_of(h) == zero_layout()
                &&& final(self).dirty_of(h)
            },
            forall|x: Node| #[trigger] old(self).live(x) ==> final(self).same_node(old(self), x),
            old(self).symmetric() ==> final(self).symmetric(),
    {
        let data = NodeData { style, measure: Some(measure), layout: Layout::zero(), is_dirty: true };
        let ghost before = *self;
        let node = self.push_node(data, Vec::new());
        proof {
            assert forall|x: Node| #[trigger] before.live(x) implies self.same_node(&before, x) by {
                assert(before.parents_of(x) + copies(node, 0) =~= before.parents_of(x));
            }
            assert(before.handles(Seq::<usize>::empty()) =~= Seq::<Node>::empty());
        }
        Ok(node)
    }

    /// Adds a node whose children are `children`, in that order. Fails, and
    /// changes nothing, when one of them does not resolve.
    pub fn new_with_children(&mut self, style: S, children: &[Node]) -> (r: Result<Node, InvalidNode>)
        requires
            old(self).wf(),
            old(self).next_local() < u64::MAX,
            old(self).len() < usize::MAX,
        ensures
            final(self).wf(),
            r is Ok <==> forall|q: int| 0 <= q < children@.len() ==> old(self).live(#[trigger] children@[q]),
            r is Err ==> {
                &&& *final(self) == *old(self)
                &&& exists|q: int| 0 <= q < children@.len() && r == Err::<Node, InvalidNode>(InvalidNode(children@[q]))
                    && !old(self).live(#[trigger] children@[q])
                    && forall|e: int| 0 <= e < q ==> old(self).live(#[trigger] children@[e])
            },
            r is Ok ==> {
                let h = r->Ok_0;
                &&& final(self).instance() == old(self).instance()
                &&& final(self).next_local() == old(self).next_local() + 1
                &&& final(self).len() == old(self).len() + 1
                &&& h.tree() == old(self).instance()
                &&& h.local_id() == old(self).next_local()
                &&& !old(self).live(h)
                &&& forall|x: Node| final(self).live(x) <==> (old(self).live(x) || x == h)
                &&& final(self).children_of(h) == children@
                &&& final(self).parents_of(h) == Seq::<Node>::empty()
                &&& final(self).style_of(h) == style
                &&& final(self).measure_of(h) == None::<M>
                &&& final(self).layout_of(h) == zero_layout()
                &&& final(self).dirty_of(h)
                &&& forall|x: Node| #[trigger] old(self).live(x) ==> {
                    &&& final(self).children_of(x) == old(self).children_of(x)
                    &&& final(self).parents_of(x) == old(self).parents_of(x) + copies(h, occurrences(children@, x))
                    &&& final(self).same_payload(old(self), x)
                    &&& final(self).dirty_of(x) == old(self).dirty_of(x)
                }
            },
            old(self).symmetric() ==> final(self).symmetric(),
    {
        let mut kids: Vec<usize> = Vec::new();
        let mut k: usize = 0;
        while k < children.len()
            invariant
                self.wf(),
                k <= children@.len(),
                kids@.len() == k,
                forall|q: int| 0 <= q < k ==> self.live(#[trigger] children@[q]),
                forall|q: int| 0 <= q < k ==> kids@[q] == self.index_of(#[trigger] children@[q]),
                all_below(kids@, self.len() as int),
                self.handles(kids@) == children@.take(k as int),
            decreases children@.len() - k,
        {
            match self.find_node(children[k]) {
                Ok(i) => {
                    proof { self.lemma_live_slot(children@[k as int]); }
                    let ghost ks = kids@;
                    kids.push(i);
                    proof { self.lemma_handles_push(ks, i); }
                },
                Err(e) => {
                    return Err(e);
                },
            }
            k = k + 1;
            assert(self.handles(kids@) =~= children@.take(k as int));
        }
        assert(children@.take(children@.len() as int) =~= children@);
        let data = NodeData { style, measure: None, layout: Layout::zero(), is_dirty: true };
        let node = self.push_node(data, kids);
        Ok(node)
    }

    /// Removes `node` from the tree and from every child and parent list, and
    /// returns the slot it held. The last record moves into that slot, and the
    /// one map entry that named it is rewritten. The handle of `node` is never
    /// valid here again; the moved node keeps its handle.
    pub fn remove(&mut self, node: Node) -> (r: Result<usize, InvalidNode>)
        requires
            old(self).wf(),
        ensures
            final(self).wf(),
            old(self).live(node) <==> r is Ok,
            r is Err ==> r == Err::<usize, InvalidNode>(InvalidNode(node)) && *final(self) == *old(self),
            r is Ok ==> {
                &&& r->Ok_0 == old(self).index_of(node)
                &&& final(self).instance() == old(self).instance()
                &&& final(self).next_local() == old(self).next_local()
                &&& final(self).len() == old(self).len() - 1
                &&& forall|x: Node| final(self).live(x) <==> (old(self).live(x) && x != node)
                &&& forall|x: Node| #[trigger] final(self).live(x) ==> {
                    &&& final(self).children_of(x) == without(old(self).children_of(x), node)
                    &&& final(self).parents_of(x) == without(old(self).parents_of(x), node)
                    &&& final(self).same_payload(old(self), x)
                    &&& final(self).dirty_of(x) == old(self).dirty_of(x)
                }
            },
            old(self).symmetric() ==> final(self).symmetric(),
    {
        let id = match self.find_node(node) {
            Ok(id) => id,
            Err(e) => return Err(e),
        };
        let ghost before = *self;
        proof { before.lemma_live_slot(node); }
        let n = self.nodes.len();
        let last = n - 1;
        let mut j: usize = 0;
        while j < n
            invariant
                before.wf(),
                n == before.len(),
                last == n - 1,
                id <= last,
                j <= n,
                self.id == before.id,
                self.allocator == before.allocator,
                self.nodes@ == before.nodes@,
                self.ids_to_nodes@ == before.ids_to_nodes@,
                self.nodes_to_ids@ == before.nodes_to_ids@,
                self.children@.len() == n,
                self.parents@.len() == n,
                forall|i: int| 0 <= i < j ==> (#[trigger] self.children@[i])@ == reindexed(before.children@[i]@, id, last),
                forall|i: int| 0 <= i < j ==> (#[trigger] self.parents@[i])@ == reindexed(before.parents@[i]@, id, last),
                forall|i: int| j <= i < n ==> #[trigger] self.children@[i] == before.children@[i],
                forall|i: int| j <= i < n ==> #[trigger] self.parents@[i] == before.parents@[i],
                forall|i: int| 0 <= i < n ==> all_below(#[trigger] self.children@[i]@, n as int),
                forall|i: int| 0 <= i < n ==> all_below(#[trigger] self.parents@[i]@, n as int),
                forall|i: int| 0 <= i < j ==> all_below(#[trigger] self.children@[i]@, last as int),
                forall|i: int| 0 <= i < j ==> all_below(#[trigger] self.parents@[i]@, last as int),
            decreases n - j,
        {
            let c = reindex(&self.children[j], id, last);
            self.children.set(j, c);
            let p = reindex(&self.parents[j], id, last);
            self.parents.set(j, p);
            j = j + 1;
        }
        let ghost old_children = self.children@;
        let ghost old_parents = self.parents@;
        self.nodes.swap_remove(id);
        self.children.swap_remove(id);
        self.parents.swap_remove(id);
        self.ids_to_nodes.swap_remove(id);
        self.nodes_to_ids.remove(&node.local.0);
        if id != last {
            let moved = self.ids_to_nodes[id];
            self.nodes_to_ids.insert(moved.local.0, id);
        }
        proof {
            let moved = before.ids_to_nodes@[last as int];
            assert forall|e: int| 0 <= e < n && e != id && e != last
                implies #[trigger] self.ids_to_nodes@[e] == before.ids_to_nodes@[e] by {}
            assert forall|i: int| 0 <= i < last implies all_below(#[trigger] self.children@[i]@, last as int) by {
                if i == id {
                    assert(self.children@[i] == old_children[last as int]);
                } else {
                    assert(self.children@[i] == old_children[i]);
                }
            }
            assert forall|i: int| 0 <= i < last implies all_below(#[trigger] self.parents@[i]@, last as int) by {
                if i == id {
                    assert(self.parents@[i] == old_parents[last as int]);
                } else {
                    assert(self.parents@[i] == old_parents[i]);
                }
            }
            assert forall|k: u64| #[trigger] self.nodes_to_ids@.contains_key(k) implies {
                let i = self.nodes_to_ids@[k] as int;
                &&& 0 <= i < last
                &&& self.ids_to_nodes@[i] == (Node { instance: self.id, local: Id(k) })
            } by {
                if id != last && k == moved.local.0 {
                } else {
                    let i = before.nodes_to_ids@[k] as int;
                    assert(before.ids_to_nodes@[i] == (Node { instance: self.id, local: Id(k) }));
                    if i == last as int {
                        assert(k == moved.local.0);
                    }
                }
            }
            assert forall|i: int| 0 <= i < last implies {
                let h = #[trigger] self.ids_to_nodes@[i];
                &&& h.instance == self.id
                &&& self.nodes_to_ids@.contains_key(h.local.0)
                &&& self.nodes_to_ids@[h.local.0] == i
                &&& h.local.0 < self.allocator.next_id()
            } by {
                if i == id {
                    assert(self.ids_to_nodes@[i] == moved);
                } else {
                    let h = before.ids_to_nodes@[i];
                    if h.local.0 == node.local.0 {
                        before.lemma_slots_distinct(i, id as int);
                    }
                    if id != last && h.local.0 == moved.local.0 {
                        before.lemma_slots_distinct(i, last as int);
                    }
                }
            }
            assert(self.wf());
            assert forall|x: Node| self.live(x) <==> (before.live(x) && x != node) by {
                if before.live(x) && x != node {
                    before.lemma_live_slot(x);
                }
            }
            assert forall|x: Node| #[trigger] self.live(x) implies {
                &&& self.children_of(x) == without(before.children_of(x), node)
                &&& self.parents_of(x) == without(before.parents_of(x), node)
                &&& self.same_payload(&before, x)
                &&& self.dirty_of(x) == before.dirty_of(x)
            } by {
                before.lemma_live_slot(x);
                let e = before.index_of(x);
                assert(e != id) by {
                    if e == id { before.lemma_slots_distinct(e, id as int); }
                }
                let i = if e == last { id as int } else { e };
                assert(self.index_of(x) == i);
                assert(all_below(before.children@[e]@, n as int));
                assert(all_below(before.parents@[e]@, n as int));
                self.lemma_handles_reindexed(&before, before.children@[e]@, id as int, last as int);
                self.lemma_handles_reindexed(&before, before.parents@[e]@, id as int, last as int);
            }
        }
        proof {
            if before.symmetric() {
                assert forall|par: Node, kid: Node|
                    #![trigger self.children_of(par), self.parents_of(kid)]
                    self.live(par) && self.live(kid) implies occurrences(self.children_of(par), kid)
                        == occurrences(self.parents_of(kid), par) by {
                    assert(occurrences(before.children_of(par), kid) == occurrences(before.parents_of(kid), par));
                    lemma_occurrences_without(before.children_of(par), node, kid);
                    lemma_occurrences_without(before.parents_of(kid), node, par);
                }
            }
        }
        Ok(id)
    }

    /// Detaches the child at position `child_index` of the node at slot
    /// `node_id`, which is `parent`, drops one `parent` from that child's
    /// parents, and flags `parent` and its ancestors.
    fn detach_at(&mut self, parent: Node, node_id: usize, child_index: usize) -> (r: Node)
        requires
            old(self).wf(),
            old(self).live(parent),
            node_id == old(self).index_of(parent),
            child_index < old(self).children_of(parent).len(),
        ensures
            final(self).wf(),
            r == old(self).children_of(parent)[child_index as int],
            final(self).same_handles(old(self)),
            forall|x: Node| #[trigger] final(self).live(x) ==> final(self).same_payload(old(self), x),
            final(self).children_of(parent) == old(self).children_of(parent).remove(child_index as int),
            drops_first(old(self).parents_of(r), final(self).parents_of(r), parent),
            forall|x: Node| #[trigger] final(self).live(x) && x != parent
                ==> final(self).children_of(x) == old(self).children_of(x),
            forall|x: Node| #[trigger] final(self).live(x) && x != r
                ==> final(self).parents_of(x) == old(self).parents_of(x),
            final(self).flagged_from(old(self), parent),
            old(self).symmetric() ==> final(self).symmetric(),
    {
        let ghost before = *self;
        proof {
            before.lemma_live_slot(parent);
            assert(all_below(before.children@[node_id as int]@, before.len() as int));
        }
        let child_id = self.children[node_id].remove(child_index);
        proof {
            assert forall|i: int| 0 <= i < self.len() implies #[trigger] self.ids_to_nodes@[i] == before.ids_to_nodes@[i] by {}
            assert forall|i: int| 0 <= i < self.len() implies all_below(#[trigger] self.children@[i]@, self.len() as int) by {
                assert(all_below(before.children@[i]@, self.len() as int));
                if i == node_id {
                    assert forall|q: int| 0 <= q < self.children@[i]@.len() implies #[trigger] self.children@[i]@[q] < self.len() by {
                        if q >= child_index { assert(self.children@[i]@[q] == before.children@[i]@[q + 1]); }
                    }
                }
            }
            assert forall|i: int| 0 <= i < self.len() implies all_below(#[trigger] self.parents@[i]@, self.len() as int) by {
                assert(all_below(before.parents@[i]@, self.len() as int));
            }
        }
        let ghost mid1 = *self;
        self.drop_parent_once(child_id, node_id);
        let r = self.ids_to_nodes[child_id];
        let ghost mid = *self;
        proof {
            assert(mid1.wf());
            assert(all_below(mid1.parents@[child_id as int]@, mid1.len() as int));
            mid1.lemma_handles_drops_first(mid1.parents@[child_id as int]@, self.parents@[child_id as int]@, node_id as int);
            assert(r == before.children_of(parent)[child_index as int]);
            before.lemma_live_slot(r);
            assert(mid.parents_of(r) =~= mid1.handles(self.parents@[child_id as int]@));
            assert(mid1.parents_of(r) =~= before.parents_of(r));
            assert(mid.children_of(parent) =~= before.children_of(parent).remove(child_index as int));
        }
        self.mark_dirty_at(node_id);
        proof {
            self.lemma_flagged(&mid, node_id as int);
            assert forall|x: Node| self.live(x) implies mid.dirty_of(x) == before.dirty_of(x) by {}
            self.lemma_flagged_transfer(&mid, &before, parent);
            assert forall|x: Node| #[trigger] self.live(x) && x != parent implies
                self.children_of(x) == before.children_of(x) by {
                before.lemma_live_slot(x);
                assert(mid.children_of(x) =~= before.children_of(x));
            }
            assert forall|x: Node| #[trigger] self.live(x) && x != r implies
                self.parents_of(x) == before.parents_of(x) by {
                before.lemma_live_slot(x);
                assert(mid.parents_of(x) =~= before.parents_of(x));
            }
            if before.symmetric() {
                assert(before.children_of(parent).contains(r)) by {
                    assert(before.children_of(parent)[child_index as int] == r);
                }
                assert(occurrences(before.children_of(parent), r) == occurrences(before.parents_of(r), parent));
                lemma_occurrences_contains(before.children_of(parent), r);
                lemma_occurrences_contains(before.parents_of(r), parent);
                assert forall|par: Node, kid: Node|
                    #![trigger self.children_of(par), self.parents_of(kid)]
                    self.live(par) && self.live(kid) implies occurrences(self.children_of(par), kid)
                        == occurrences(self.parents_of(kid), par) by {
                    assert(occurrences(before.children_of(par), kid) == occurrences(before.parents_of(kid), par));
                    lemma_occurrences_remove(before.children_of(parent), child_index as int, kid);
                    lemma_occurrences_drops_first(before.parents_of(r), self.parents_of(r), parent, par);
                }
            }
        }
        r
    }

    /// Detaches the child at position `child_index` from `parent` and returns
    /// it. The child stays in the tree.
    pub fn remove_child_at_index(&mut self, parent: Node, child_index: usize) -> (r: Result<Node, InvalidChild>)
        requires
            old(self).wf(),
        ensures
            final(self).wf(),
            !old(self).live(parent) ==> r == Err::<Node, InvalidChild>(InvalidChild::InvalidParentNode(parent)),
            old(self).live(parent) && child_index >= old(self).children_of(parent).len() ==> r == Err::<Node, InvalidChild>(
                InvalidChild::ChildIndexOutOfBounds {
                    parent,
                    child_index,
                    child_count: old(self).children_of(parent).len() as usize,
                },
            ),
            r is Err ==> *final(self) == *old(self),
            r is Ok <==> old(self).live(parent) && child_index < old(self).children_of(parent).len(),
            final(self).same_handles(old(self)),
            forall|x: Node| #[trigger] final(self).live(x) ==> final(self).same_payload(old(self), x),
            r is Ok ==> {
                let c = r->Ok_0;
                &&& c == old(self).children_of(parent)[child_index as int]
                &&& final(self).children_of(parent) == old(self).children_of(parent).remove(child_index as int)
                &&& drops_first(old(self).parents_of(c), final(self).parents_of(c), parent)
                &&& forall|x: Node| #[trigger] final(self).live(x) && x != parent
                    ==> final(self).children_of(x) == old(self).children_of(x)
                &&& forall|x: Node| #[trigger] final(self).live(x) && x != c
                    ==> final(self).parents_of(x) == old(self).parents_of(x)
                &&& final(self).flagged_from(old(self), parent)
            },
            old(self).symmetric() ==> final(self).symmetric(),
    {
        let node_id = match self.find_node(parent) {
            Ok(id) => id,
            Err(e) => return Err(InvalidChild::InvalidParentNode(e.0)),
        };
        let child_count = self.children[node_id].len();
        if child_index >= child_count {
            return Err(InvalidChild::ChildIndexOutOfBounds { parent, child_index, child_count });
        }
        Ok(self.detach_at(parent, node_id, child_index))
    }

    /// Detaches the first occurrence of `child` from the children of `parent`
    /// and returns it. The child stays in the tree. A `child` that is not
    /// among the children of `parent` is reported as an invalid node.
    pub fn remove_child(&mut self, parent: Node, child: Node) -> (r: Result<Node, InvalidNode>)
        requires
            old(self).wf(),
        ensures
            final(self).wf(),
            !old(self).live(parent) ==> r == Err::<Node, InvalidNode>(InvalidNode(parent)),
            old(self).live(parent) && !old(self).children_of(parent).contains(child)
                ==> r == Err::<Node, InvalidNode>(InvalidNode(child)),
            r is Err ==> *final(self) == *old(self),
            r is Ok <==> old(self).live(parent) && old(self).children_of(parent).contains(child),
            final(self).same_handles(old(self)),
            forall|x: Node| #[trigger] final(self).live(x) ==> final(self).same_payload(old(self), x),
            r is Ok ==> {
                &&& r->Ok_0 == child
                &&& exists|k: int| {
                    &&& 0 <= k < old(self).children_of(parent).len()
                    &&& old(self).children_of(parent)[k] == child
                    &&& forall|e: int| 0 <= e < k ==> old(self).children_of(parent)[e] != child
                    &&& #[trigger] final(self).children_of(parent) == old(self).children_of(parent).remove(k)
                }
                &&& drops_first(old(self).parents_of(child), final(self).parents_of(child), parent)
                &&& forall|x: Node| #[trigger] final(self).live(x) && x != parent
                    ==> final(self).children_of(x) == old(self).children_of(x)
                &&& forall|x: Node| #[trigger] final(self).live(x) && x != child
                    ==> final(self).parents_of(x) == old(self).parents_of(x)
                &&& final(self).flagged_from(old(self), parent)
            },
            old(self).symmetric() ==> final(self).symmetric(),
    {
        let node_id = self.find_node(parent)?;
        let kids = &self.children[node_id];
        let mut k: usize = 0;
        while k < kids.len()
            invariant
                self.wf(),
                self.live(parent),
                node_id == self.index_of(parent),
                kids@ == self.children@[node_id as int]@,
                k <= kids@.len(),
                forall|e: int| 0 <= e < k ==> self.children_of(parent)[e] != child,
            ensures
                k <= kids@.len(),
                forall|e: int| 0 <= e < k ==> self.children_of(parent)[e] != child,
                k < kids@.len() ==> self.ids_to_nodes@[kids@[k as int] as int] == child,
            decreases kids@.len() - k,
        {
            if self.ids_to_nodes[kids[k]] == child {
                break;
            }
            k = k + 1;
        }
        if k == kids.len() {
            proof {
                if self.children_of(parent).contains(child) {
                    let w = choose|w: int| 0 <= w < self.children_of(parent).len() && self.children_of(parent)[w] == child;
                    assert(self.children_of(parent)[w] != child);
                }
            }
            return Err(InvalidNode(child));
        }
        proof {
            assert(all_below(kids@, self.len() as int));
            assert(self.children_of(parent)[k as int] == child);
        }
        let ghost before = *self;
        let r = self.detach_at(parent, node_id, k);
        assert(self.children_of(parent) == before.children_of(parent).remove(k as int));
        Ok(r)
    }

    /// Puts `new_child` at position `child_index` of `parent` in place of the
    /// child there, detaches the displaced child from `parent`, flags `parent`
    /// and its ancestors, and returns the displaced child.
    pub fn replace_child_at_index(&mut self, parent: Node, child_index: usize, new_child: Node) -> (r: Result<
        Node,
        InvalidChild,
    >)
        requires
            old(self).wf(),
        ensures
            final(self).wf(),
            !old(self).live(parent) ==> r == Err::<Node, InvalidChild>(InvalidChild::InvalidParentNode(parent)),
            old(self).live(parent) && !old(self).live(new_child) ==> r == Err::<Node, InvalidChild>(
                InvalidChild::InvalidChildNode(new_child),
            ),
            old(self).live(parent) && old(self).live(new_child) && child_index >= old(self).children_of(parent).len()
                ==> r == Err::<Node, InvalidChild>(
                InvalidChild::ChildIndexOutOfBounds {
                    parent,
                    child_index,
                    child_count: old(self).children_of(parent).len() as usize,
                },
            ),
            r is Err ==> *final(self) == *old(self),
            r is Ok <==> old(self).live(parent) && old(self).live(new_child) && child_index < old(self).children_of(
                parent,
            ).len(),
            final(self).same_handles(old(self)),
            forall|x: Node| #[trigger] final(self).live(x) ==> final(self).same_payload(old(self), x),
            r is Ok ==> {
                let c = r->Ok_0;
                &&& c == old(self).children_of(parent)[child_index as int]
                &&& final(self).children_of(parent) == old(self).children_of(parent).update(child_index as int, new_child)
                &&& forall|x: Node| #[trigger] final(self).live(x) && x != parent
                    ==> final(self).children_of(x) == old(self).children_of(x)
                &&& forall|x: Node| #[trigger] final(self).live(x) && (c == new_child || (x != c && x != new_child))
                    ==> final(self).parents_of(x) == old(self).parents_of(x)
                &&& c != new_child ==> final(self).parents_of(new_child) == old(self).parents_of(new_child).push(parent)
                &&& c != new_child ==> drops_first(old(self).parents_of(c), final(self).parents_of(c), parent)
                &&& final(self).flagged_from(old(self), parent)
            },
            old(self).symmetric() ==> final(self).symmetric(),
    {
        let node_id = match self.find_node(parent) {
            Ok(id) => id,
            Err(e) => return Err(InvalidChild::InvalidParentNode(e.0)),
        };
        let child_id = match self.find_node(new_child) {
            Ok(id) => id,
            Err(e) => return Err(InvalidChild::InvalidChildNode(e.0)),
        };
        let child_count = self.children[node_id].len();
        if child_index >= child_count {
            return Err(InvalidChild::ChildIndexOutOfBounds { parent, child_index, child_count });
        }
        let ghost before = *self;
        proof {
            before.lemma_live_slot(parent);
            before.lemma_live_slot(new_child);
            assert(all_below(before.children@[node_id as int]@, before.len() as int));
        }
        let old_child = self.children[node_id][child_index];
        let r = self.ids_to_nodes[old_child];
        proof {
            before.lemma_live_slot(r);
            assert(r == before.children_of(parent)[child_index as int]);
        }
        if old_child != child_id {
            self.parents[child_id].push(node_id);
            self.children[node_id].set(child_index, child_id);
            proof {
                assert forall|i: int| 0 <= i < self.len() implies #[trigger] self.ids_to_nodes@[i] == before.ids_to_nodes@[i] by {}
                assert forall|i: int| 0 <= i < self.len() implies all_below(#[trigger] self.children@[i]@, self.len() as int) by {
                    assert(all_below(before.children@[i]@, self.len() as int));
                }
                assert forall|i: int| 0 <= i < self.len() implies all_below(#[trigger] self.parents@[i]@, self.len() as int) by {
                    assert(all_below(before.parents@[i]@, self.len() as int));
                }
            }
            let ghost mid1 = *self;
            self.drop_parent_once(old_child, node_id);
            proof {
                assert(mid1.wf());
                assert(all_below(mid1.parents@[old_child as int]@, mid1.len() as int));
                mid1.lemma_handles_drops_first(mid1.parents@[old_child as int]@, self.parents@[old_child as int]@, node_id as int);
                assert(self.parents_of(r) =~= mid1.handles(self.parents@[old_child as int]@));
                assert(mid1.parents_of(r) =~= before.parents_of(r));
                before.lemma_handles_push(before.parents@[child_id as int]@, node_id);
                assert(self.parents_of(new_child) =~= before.parents_of(new_child).push(parent));
                assert(self.children_of(parent) =~= before.children_of(parent).update(child_index as int, new_child));
                assert forall|x: Node| #[trigger] self.live(x) && x != r && x != new_child implies
                    self.parents_of(x) == before.parents_of(x) by {
                    before.lemma_live_slot(x);
                    assert(self.parents_of(x) =~= before.parents_of(x));
                }
            }
        } else {
            proof {
                assert(new_child == r);
                assert(before.children_of(parent).update(child_index as int, new_child) =~= before.children_of(parent));
            }
        }
        let ghost mid = *self;
        self.mark_dirty_at(node_id);
        proof {
            self.lemma_flagged(&mid, node_id as int);
            assert forall|x: Node| self.live(x) implies mid.dirty_of(x) == before.dirty_of(x) by {}
            self.lemma_flagged_transfer(&mid, &before, parent);
            assert forall|x: Node| #[trigger] self.live(x) && x != parent implies
                self.children_of(x) == before.children_of(x) by {
                before.lemma_live_slot(x);
                assert(mid.children_of(x) =~= before.children_of(x));
            }
            if before.symmetric() && r != new_child {
                assert(before.children_of(parent).contains(r)) by {
                    assert(before.children_of(parent)[child_index as int] == r);
                }
                assert(occurrences(before.children_of(parent), r) == occurrences(before.parents_of(r), parent));
                lemma_occurrences_contains(before.children_of(parent), r);
                lemma_occurrences_contains(before.parents_of(r), parent);
                assert forall|par: Node, kid: Node|
                    #![trigger self.children_of(par), self.parents_of(kid)]
                    self.live(par) && self.live(kid) implies occurrences(self.children_of(par), kid)
                        == occurrences(self.parents_of(kid), par) by {
                    assert(occurrences(before.children_of(par), kid) == occurrences(before.parents_of(kid), par));
                    lemma_occurrences_update(before.children_of(parent), child_index as int, new_child, kid);
                    lemma_occurrences_drops_first(before.parents_of(r), self.parents_of(r), parent, par);
                    lemma_occurrences_push(before.parents_of(new_child), parent, par);
                    if par != parent {
                        assert(self.children_of(par) == before.children_of(par));
                    }
                }
            }
        }
        Ok(r)
    }

    /// Removes every node. Every handle issued so far is invalid from then on.
    pub fn clear(&mut self)
        requires
            old(self).wf(),
        ensures
            final(self).wf(),
            final(self).len() == 0,
            final(self).instance() == old(self).instance(),
            final(self).next_local() == old(self).next_local(),
            forall|x: Node| !final(self).live(x),
            final(self).symmetric(),
    {
        self.nodes_to_ids.clear();
        self.ids_to_nodes.clear();
        self.nodes.clear();
        self.children.clear();
        self.parents.clear();
    }

    /// Makes `children` the children of `parent`, in that order: `parent` is
    /// dropped from the parent lists of its former children and appended to
    /// those of the new ones, and `parent` and its ancestors are flagged.
    /// Fails, and changes nothing, when a handle does not resolve.
    pub fn set_children(&mut self, parent: Node, children: &[Node]) -> (r: Result<(), InvalidNode>)
        requires
            old(self).wf(),
        ensures
            final(self).wf(),
            !old(self).live(parent) ==> r == Err::<(), InvalidNode>(InvalidNode(parent)),
            r is Ok <==> old(self).live(parent) && forall|q: int| 0 <= q < children@.len() ==> old(self).live(#[trigger] children@[q]),
            r is Err ==> *final(self) == *old(self),
            old(self).live(parent) && r is Err ==> exists|q: int| 0 <= q < children@.len()
                && r == Err::<(), InvalidNode>(InvalidNode(children@[q]))
                && !old(self).live(#[trigger] children@[q])
                && forall|e: int| 0 <= e < q ==> old(self).live(#[trigger] children@[e]),
            final(self).same_handles(old(self)),
            forall|x: Node| #[trigger] final(self).live(x) ==> final(self).same_payload(old(self), x),
            r is Ok ==> {
                &&& final(self).children_of(parent) == children@
                &&& forall|x: Node| #[trigger] final(self).live(x) && x != parent
                    ==> final(self).children_of(x) == old(self).children_of(x)
                &&& forall|x: Node| #[trigger] final(self).live(x) ==> final(self).parents_of(x) == {
                    let kept = if old(self).children_of(parent).contains(x) {
                        without(old(self).parents_of(x), parent)
                    } else {
                        old(self).parents_of(x)
                    };
                    kept + copies(parent, occurrences(children@, x))
                }
                &&& final(self).flagged_from(old(self), parent)
            },
            old(self).symmetric() ==> final(self).symmetric(),
    {
        let node_id = self.find_node(parent)?;
        let mut kids: Vec<usize> = Vec::new();
        let mut k: usize = 0;
        while k < children.len()
            invariant
                self.wf(),
                k <= children@.len(),
                self.live(parent),
                kids@.len() == k,
                forall|q: int| 0 <= q < k ==> self.live(#[trigger] children@[q]),
                all_below(kids@, self.len() as int),
                self.handles(kids@) == children@.take(k as int),
            decreases children@.len() - k,
        {
            match self.find_node(children[k]) {
                Ok(i) => {
                    proof { self.lemma_live_slot(children@[k as int]); }
                    let ghost ks = kids@;
                    kids.push(i);
                    proof { self.lemma_handles_push(ks, i); }
                },
                Err(e) => {
                    return Err(e);
                },
            }
            k = k + 1;
            assert(self.handles(kids@) =~= children@.take(k as int));
        }
        assert(children@.take(children@.len() as int) =~= children@);
        let ghost before = *self;
        let ghost kseq = kids@;
        proof { before.lemma_live_slot(parent); }
        let old_kids = copy_slots(&self.children[node_id]);
        proof { assert(all_below(old_kids@, before.len() as int)); }
        let n = self.nodes.len();
        let mut k: usize = 0;
        while k < old_kids.len()
            invariant
                before.wf(),
                n == before.len(),
                node_id < n,
                k <= old_kids@.len(),
                old_kids@ == before.children@[node_id as int]@,
                all_below(old_kids@, n as int),
                self.id == before.id,
                self.allocator == before.allocator,
                self.nodes@ == before.nodes@,
                self.ids_to_nodes@ == before.ids_to_nodes@,
                self.nodes_to_ids@ == before.nodes_to_ids@,
                self.children@ == before.children@,
                self.parents@.len() == n,
                forall|i: int| 0 <= i < n ==> (#[trigger] self.parents@[i])@ == if old_kids@.take(k as int).contains(i as usize) {
                    without(before.parents@[i]@, node_id)
                } else {
                    before.parents@[i]@
                },
            decreases old_kids@.len() - k,
        {
            let c = old_kids[k];
            let w = without_value(&self.parents[c], node_id);
            self.parents.set(c, w);
            proof {
                lemma_without_twice(before.parents@[c as int]@, node_id);
                assert forall|i: int| 0 <= i < n implies (#[trigger] old_kids@.take(k + 1).contains(i as usize)
                    <==> (old_kids@.take(k as int).contains(i as usize) || i == c)) by {
                    if old_kids@.take(k + 1).contains(i as usize) {
                        let q = choose|q: int| 0 <= q < k + 1 && #[trigger] old_kids@.take(k + 1)[q] == i as usize;
                        if q < k { assert(old_kids@.take(k as int)[q] == i as usize); }
                    }
                    if old_kids@.take(k as int).contains(i as usize) {
                        let q = choose|q: int| 0 <= q < k && #[trigger] old_kids@.take(k as int)[q] == i as usize;
                        assert(old_kids@.take(k + 1)[q] == i as usize);
                    }
                    if i == c { assert(old_kids@.take(k + 1)[k as int] == c); }
                }
            }
            k = k + 1;
        }
        assert(old_kids@.take(old_kids@.len() as int) =~= old_kids@);
        let ghost cleared = self.parents@;
        let mut k: usize = 0;
        while k < kids.len()
            invariant
                n == before.len(),
                node_id < n,
                k <= kids@.len(),
                kids@ == kseq,
                all_below(kseq, n as int),
                before.wf(),
                self.id == before.id,
                self.allocator == before.allocator,
                self.nodes@ == before.nodes@,
                self.ids_to_nodes@ == before.ids_to_nodes@,
                self.nodes_to_ids@ == before.nodes_to_ids@,
                self.children@ == before.children@,
                self.parents@.len() == n,
                forall|i: int| 0 <= i < n ==> (#[trigger] self.parents@[i])@
                    == cleared[i]@ + copies(node_id, occurrences(kseq.take(k as int), i as usize)),
            decreases kids@.len() - k,
        {
            let c = kids[k];
            assert(kseq.take(k + 1).drop_last() =~= kseq.take(k as int));
            self.parents[c].push(node_id);
            assert forall|i: int| 0 <= i < n implies (#[trigger] self.parents@[i])@
                == cleared[i]@ + copies(node_id, occurrences(kseq.take(k + 1), i as usize)) by {
                assert(kseq.take(k + 1).drop_last() =~= kseq.take(k as int));
                if i == c {
                    assert(cleared[i]@ + copies(node_id, occurrences(kseq.take(k + 1), i as usize))
                        =~= (cleared[i]@ + copies(node_id, occurrences(kseq.take(k as int), i as usize))).push(node_id));
                }
            }
            k = k + 1;
        }
        assert(kseq.take(kseq.len() as int) =~= kseq);
        self.children.set(node_id, kids);
        let ghost mid = *self;
        proof {
            assert forall|i: int| 0 <= i < n implies all_below(#[trigger] self.children@[i]@, n as int) by {
                assert(all_below(before.children@[i]@, n as int));
            }
            assert forall|i: int| 0 <= i < n implies all_below(#[trigger] self.parents@[i]@, n as int) by {
                assert(all_below(before.parents@[i]@, n as int));
                self.lemma_without_below(before.parents@[i]@, node_id, n as int);
                assert forall|q: int| 0 <= q < self.parents@[i]@.len() implies #[trigger] self.parents@[i]@[q] < n by {
                    if q >= cleared[i]@.len() {
                        assert(self.parents@[i]@[q] == node_id);
                    } else {
                        assert(self.parents@[i]@[q] == cleared[i]@[q]);
                    }
                }
            }
            assert forall|i: int| 0 <= i < n implies #[trigger] self.ids_to_nodes@[i] == before.ids_to_nodes@[i] by {}
            assert(mid.wf());
            assert forall|x: Node| #[trigger] mid.live(x) implies mid.parents_of(x) == {
                let kept = if before.children_of(parent).contains(x) {
                    without(before.parents_of(x), parent)
                } else {
                    before.parents_of(x)
                };
                kept + copies(parent, occurrences(children@, x))
            } by {
                before.lemma_live_slot(x);
                let ix = before.index_of(x);
                before.lemma_handles_contains(old_kids@, ix);
                before.lemma_handles_occurrences(kseq, ix);
                before.lemma_handles_without(before.parents@[ix]@, node_id as int);
                let kept = if before.children_of(parent).contains(x) {
                    without(before.parents_of(x), parent)
                } else {
                    before.parents_of(x)
                };
                assert(mid.parents_of(x) =~= kept + copies(parent, occurrences(children@, x)));
            }
        }
        self.mark_dirty_at(node_id);
        proof {
            self.lemma_flagged(&mid, node_id as int);
            assert forall|x: Node| self.live(x) implies mid.dirty_of(x) == before.dirty_of(x) by {}
            self.lemma_flagged_transfer(&mid, &before, parent);
            assert forall|x: Node| #[trigger] self.live(x) && x != parent implies
                self.children_of(x) == before.children_of(x) by {
                before.lemma_live_slot(x);
                assert(mid.children_of(x) =~= before.children_of(x));
            }
            assert(mid.children_of(parent) == children@);
        }
        proof {
            if before.symmetric() {
                assert forall|par: Node, kid: Node|
                    #![trigger self.children_of(par), self.parents_of(kid)]
                    self.live(par) && self.live(kid) implies occurrences(self.children_of(par), kid)
                        == occurrences(self.parents_of(kid), par) by {
                    let kept = if before.children_of(parent).contains(kid) {
                        without(before.parents_of(kid), parent)
                    } else {
                        before.parents_of(kid)
                    };
                    assert(self.parents_of(kid) == kept + copies(parent, occurrences(children@, kid)));
                    lemma_occurrences_concat(kept, copies(parent, occurrences(children@, kid)), par);
                    lemma_occurrences_copies(parent, occurrences(children@, kid), par);
                    lemma_occurrences_without(before.parents_of(kid), parent, par);
                    assert(occurrences(before.children_of(par), kid) == occurrences(before.parents_of(kid), par));
                    assert(occurrences(before.children_of(parent), kid) == occurrences(before.parents_of(kid), parent));
                    lemma_occurrences_contains(before.children_of(parent), kid);
                    if par != parent {
                        assert(self.children_of(par) == before.children_of(par));
                    }
                }
            }
        }
        Ok(())
    }

    /// Lays out the nodes below `node`: each one reachable through the child
    /// relation whose layout is stale gets a new layout from `engine`, which
    /// is handed the space available, and is no longer stale. Nodes that are
    /// not stale, and nodes out of reach, keep their layout.
    pub fn compute_layout<E: LayoutEngine<S, M>>(&mut self, node: Node, available: AvailableSize, engine: &mut E) -> (r:
        Result<(), InvalidNode>)
        requires
            old(self).wf(),
        ensures
            final(self).wf(),
            old(self).live(node) <==> r is Ok,
            r is Err ==> r == Err::<(), InvalidNode>(InvalidNode(node)) && *final(self) == *old(self),
            final(self).same_handles(old(self)),
            forall|x: Node| #[trigger] final(self).live(x) ==> {
                &&& final(self).same_edges(old(self), x)
                &&& final(self).style_of(x) == old(self).style_of(x)
                &&& final(self).measure_of(x) == old(self).measure_of(x)
            },
            r is Ok ==> final(self).refreshed_from(old(self), node),
            r is Ok ==> forall|x: Node| #[trigger] final(self).live(x) && old(self).dirty_of(x) && !final(self).dirty_of(x)
                ==> final(self).layout_of(x) == E::layout_for(old(self).style_of(x), old(self).measure_of(x), available),
            old(self).symmetric() ==> final(self).symmetric(),
    {
        let start = self.find_node(node)?;
        let ghost before = *self;
        proof { before.lemma_live_slot(node); }
        let n = self.nodes.len();
        let mut visited: Vec<bool> = Vec::new();
        let mut k: usize = 0;
        while k < n
            invariant
                k <= n,
                visited@.len() == k,
                forall|i: int| 0 <= i < k ==> !visited@[i],
            decreases n - k,
        {
            visited.push(false);
            k = k + 1;
        }
        visited.set(start, true);
        let mut stack: Vec<usize> = Vec::new();
        stack.push(start);
        let ghost mut v: Set<int> = set![start as int];
        assert(stack@[0] == start);
        assert forall|u: Set<int>| u.contains(start as int) && #[trigger] before.closed_downward(u) implies v.subset_of(u) by {}
        proof {
            lemma_int_range(0, n as int);
        }
        while stack.len() > 0
            invariant
                n == self.nodes@.len(),
                n == before.len(),
                before.wf(),
                self.id == before.id,
                self.allocator == before.allocator,
                self.nodes_to_ids@ == before.nodes_to_ids@,
                self.ids_to_nodes@ == before.ids_to_nodes@,
                self.children@ == before.children@,
                self.parents@ == before.parents@,
                visited@.len() == n,
                forall|i: int| 0 <= i < n ==> (visited@[i] <==> v.contains(i)),
                v.subset_of(set_int_range(0, n as int)),
                set_int_range(0, n as int).len() == n,
                set_int_range(0, n as int).finite(),
                v.contains(start as int),
                forall|u: Set<int>| u.contains(start as int) && #[trigger] before.closed_downward(u) ==> v.subset_of(u),
                forall|j: int| 0 <= j < n && before.nodes@[j].is_dirty && !(#[trigger] self.nodes@[j]).is_dirty
                    ==> self.nodes@[j].layout == E::layout_for(before.nodes@[j].style, before.nodes@[j].measure, available),
                forall|q: int| 0 <= q < stack@.len() ==> v.contains(#[trigger] stack@[q] as int),
                forall|i: int| 0 <= i < n ==> {
                    &&& (#[trigger] self.nodes@[i]).style == before.nodes@[i].style
                    &&& self.nodes@[i].measure == before.nodes@[i].measure
                    &&& !before.nodes@[i].is_dirty ==> !self.nodes@[i].is_dirty
                        && self.nodes@[i].layout == before.nodes@[i].layout
                    &&& !v.contains(i) ==> self.nodes@[i].is_dirty == before.nodes@[i].is_dirty
                        && self.nodes@[i].layout == before.nodes@[i].layout
                    &&& v.contains(i) && !stack@.contains(i as usize) ==> !self.nodes@[i].is_dirty
                },
                forall|i: int, q: int| v.contains(i) && !stack@.contains(i as usize) && 0 <= q < self.children@[i]@.len()
                    ==> v.contains(#[trigger] self.children@[i]@[q] as int),
            decreases 2 * (n - v.len()) + stack@.len(),
        {
            proof {
                lemma_len_subset(v, set_int_range(0, n as int));
            }
            let ghost measure0 = 2 * (n - v.len()) + stack@.len();
            let ghost old_stack = stack@;
            let i = stack.pop().unwrap();
            assert(v.contains(i as int)) by { assert(old_stack[old_stack.len() - 1] == i); }
            assert forall|j: int| 0 <= j < old_stack.len() - 1 implies stack@.contains(#[trigger] old_stack[j]) by {
                assert(stack@[j] == old_stack[j]);
            }
            if self.nodes[i].is_dirty {
                let l = engine.layout_node(&self.nodes[i].style, &self.nodes[i].measure, available);
                self.nodes[i].layout = l;
                self.nodes[i].is_dirty = false;
            }
            assert forall|j: int, r: int| v.contains(j) && !stack@.contains(j as usize) && j != i && 0 <= r < self.children@[j]@.len()
                implies v.contains(#[trigger] self.children@[j]@[r] as int) by {
                if old_stack.contains(j as usize) {
                    let w = choose|w: int| 0 <= w < old_stack.len() && old_stack[w] == j as usize;
                    if w < old_stack.len() - 1 {
                        assert(stack@.contains(old_stack[w]));
                    }
                }
            }
            assert forall|j: int| 0 <= j < n && v.contains(j) && !stack@.contains(j as usize) implies !(#[trigger] self.nodes@[j]).is_dirty by {
                if j != i && old_stack.contains(j as usize) {
                    let w = choose|w: int| 0 <= w < old_stack.len() && old_stack[w] == j as usize;
                    if w < old_stack.len() - 1 {
                        assert(stack@.contains(old_stack[w]));
                    }
                }
            }
            let clen = self.children[i].len();
            let mut q: usize = 0;
            while q < clen
                invariant
                    n == self.nodes@.len(),
                    n == before.len(),
                    before.wf(),
                    i < n,
                    self.children@ == before.children@,
                    clen == self.children@[i as int]@.len(),
                    q <= clen,
                    visited@.len() == n,
                    forall|j: int| 0 <= j < n ==> (visited@[j] <==> v.contains(j)),
                    v.subset_of(set_int_range(0, n as int)),
                    set_int_range(0, n as int).len() == n,
                    set_int_range(0, n as int).finite(),
                    v.contains(start as int),
                forall|u: Set<int>| u.contains(start as int) && #[trigger] before.closed_downward(u) ==> v.subset_of(u),
                forall|j: int| 0 <= j < n && before.nodes@[j].is_dirty && !(#[trigger] self.nodes@[j]).is_dirty
                    ==> self.nodes@[j].layout == E::layout_for(before.nodes@[j].style, before.nodes@[j].measure, available),
                    v.contains(i as int),
                    !self.nodes@[i as int].is_dirty,
                    forall|r: int| 0 <= r < stack@.len() ==> v.contains(#[trigger] stack@[r] as int),
                    forall|j: int| 0 <= j < n ==> {
                        &&& (#[trigger] self.nodes@[j]).style == before.nodes@[j].style
                        &&& self.nodes@[j].measure == before.nodes@[j].measure
                        &&& !before.nodes@[j].is_dirty ==> !self.nodes@[j].is_dirty
                            && self.nodes@[j].layout == before.nodes@[j].layout
                        &&& !v.contains(j) ==> self.nodes@[j].is_dirty == before.nodes@[j].is_dirty
                            && self.nodes@[j].layout == before.nodes@[j].layout
                        &&& v.contains(j) && !stack@.contains(j as usize) && j != i ==> !self.nodes@[j].is_dirty
                    },
                    forall|j: int, r: int| v.contains(j) && !stack@.contains(j as usize) && j != i && 0 <= r < self.children@[j]@.len()
                        ==> v.contains(#[trigger] self.children@[j]@[r] as int),
                    forall|r: int| 0 <= r < q ==> v.contains(#[trigger] self.children@[i as int]@[r] as int),
                    2 * (n - v.len()) + stack@.len() < measure0,
                decreases clen - q,
            {
                proof {
                    lemma_len_subset(v, set_int_range(0, n as int));
                }
                let c = self.children[i][q];
                assert(all_below(before.children@[i as int]@, n as int));
                if !visited[c] {
                    visited.set(c, true);
                    let ghost s0 = stack@;
                    stack.push(c);
                    assert forall|x: usize| s0.contains(x) implies stack@.contains(x) by {
                        let w = choose|w: int| 0 <= w < s0.len() && s0[w] == x;
                        assert(stack@[w] == x);
                    }
                    proof {
                        let ghost v0 = v;
                        v = v.insert(c as int);
                        assert(v.len() == v0.len() + 1);
                        assert forall|u: Set<int>| u.contains(start as int) && #[trigger] before.closed_downward(u)
                            implies v.subset_of(u) by {
                            assert(v0.subset_of(u));
                            assert(u.contains(i as int));
                            assert(u.contains(before.children@[i as int]@[q as int] as int));
                        }
                        assert(stack@[stack@.len() - 1] == c);
                    }
                }
                q = q + 1;
            }
            proof {
                lemma_len_subset(v, set_int_range(0, n as int));
            }
        }
        proof {
            assert forall|i: int| 0 <= i < n implies all_below(#[trigger] self.parents@[i]@, n as int) by {
                assert(before.parents@[i] == self.parents@[i]);
            }
            assert forall|i: int| 0 <= i < n implies all_below(#[trigger] self.children@[i]@, n as int) by {
                assert(before.children@[i] == self.children@[i]);
            }
            assert forall|i: int| 0 <= i < n implies #[trigger] self.ids_to_nodes@[i] == before.ids_to_nodes@[i] by {}
            assert(self.wf());
            let w = Set::new(|x: Node| self.live(x) && v.contains(self.index_of(x)));
            assert(w.contains(node));
            assert forall|x: Node, y: Node| w.contains(x) && self.live(x) && #[trigger] self.children_of(x).contains(y)
                implies w.contains(y) by {
                let cs = self.children@[self.index_of(x)]@;
                let q = choose|q: int| 0 <= q < self.children_of(x).len() && self.children_of(x)[q] == y;
                assert(self.children_of(x)[q] == self.ids_to_nodes@[cs[q] as int]);
                assert(all_below(cs, n as int));
                assert(v.contains(cs[q] as int));
            }
            assert forall|x: Node| #[trigger] self.live(x) implies self.same_edges(&before, x) by {
                assert(self.children_of(x) =~= before.children_of(x));
                assert(self.parents_of(x) =~= before.parents_of(x));
            }
            assert forall|u: Set<Node>| u.contains(node) && #[trigger] self.child_closed(u) implies w.subset_of(u) by {
                let ui = Set::new(|i: int| 0 <= i < n && u.contains(self.ids_to_nodes@[i]));
                assert(ui.contains(start as int));
                assert forall|i: int, q: int| ui.contains(i) && 0 <= q < before.children@[i]@.len()
                    implies ui.contains(#[trigger] before.children@[i]@[q] as int) by {
                    let x = self.ids_to_nodes@[i];
                    let cs = self.children@[i]@;
                    assert(self.index_of(x) == i);
                    assert(all_below(cs, n as int));
                    assert(self.children_of(x)[q] == self.ids_to_nodes@[cs[q] as int]);
                    assert(self.children_of(x).contains(self.ids_to_nodes@[cs[q] as int]));
                }
                assert(before.closed_downward(ui));
                assert(v.subset_of(ui));
                assert forall|x: Node| w.contains(x) implies u.contains(x) by {
                    assert(ui.contains(self.index_of(x)));
                }
            }
            assert(self.descent(node, w));
            assert(self.refresh_witness(&before, node, w));
            assert(self.refreshed_from(&before, node));
        }
        Ok(())
    }
}

} // verus!
