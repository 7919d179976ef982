use taffy::error::{InvalidChild, InvalidNode};
use taffy::geometry::{AvailableSize, AvailableSpace, Layout, Point, Size};
use taffy::id::{Allocator, Id};
use taffy::node::{FillAvailable, LayoutEngine, Node, Taffy};

/// Gives every node it is asked about the width it is offered, or its
/// style's value where no width is offered, and counts its calls.
struct FillEngine {
    calls: usize,
}

impl LayoutEngine<u32, u32> for FillEngine {
    fn layout_for(style: u32, measure: Option<u32>, available: AvailableSize) -> Layout {
        let width = match available.width {
            AvailableSpace::Definite(w) => w,
            AvailableSpace::Unconstrained => style,
        };
        let height = measure.unwrap_or(0);
        Layout { order: 0, size: Size { width, height }, location: Point { x: 0, y: 0 } }
    }

    fn layout_node(&mut self, style: &u32, measure: &Option<u32>, available: AvailableSize) -> Layout {
        self.calls += 1;
        Self::layout_for(*style, *measure, available)
    }
}

fn tree(ids: &mut Allocator) -> Taffy<u32, u32> {
    Taffy::new(ids)
}

#[test]
fn allocator_counts_up() {
    let mut a = Allocator::new();
    assert_eq!(a.allocate(), Id(0));
    assert_eq!(a.allocate(), Id(1));
    assert_eq!(a.allocate(), Id(2));
}

#[test]
fn child_count_and_order() {
    let mut ids = Allocator::new();
    let mut t = tree(&mut ids);
    let a = t.new_leaf(1, 10).unwrap();
    let b = t.new_leaf(2, 20).unwrap();
    let p = t.new_with_children(3, &[a, b]).unwrap();
    assert_eq!(t.child_count(p), Ok(2));
    assert_eq!(t.child_at_index(p, 0), Ok(a));
    assert_eq!(t.child_at_index(p, 1), Ok(b));
    assert_eq!(t.children(p), Ok(vec![a, b]));
    assert_eq!(t.parents(a), Ok(vec![p]));
    assert_eq!(t.parents(b), Ok(vec![p]));
}

#[test]
fn set_children_keeps_given_order() {
    let mut ids = Allocator::new();
    let mut t = tree(&mut ids);
    let a = t.new_leaf(1, 0).unwrap();
    let b = t.new_leaf(2, 0).unwrap();
    let c = t.new_leaf(3, 0).unwrap();
    let p = t.new_with_children(0, &[a, b]).unwrap();
    assert_eq!(t.set_children(p, &[c, a]), Ok(()));
    assert_eq!(t.children(p), Ok(vec![c, a]));
    assert_eq!(t.parents(b), Ok(vec![]));
    assert_eq!(t.parents(a), Ok(vec![p]));
    assert_eq!(t.parents(c), Ok(vec![p]));
}

#[test]
fn set_children_with_bad_child_changes_nothing() {
    let mut ids = Allocator::new();
    let mut t = tree(&mut ids);
    let a = t.new_leaf(1, 0).unwrap();
    let gone = t.new_leaf(2, 0).unwrap();
    let p = t.new_with_children(0, &[a]).unwrap();
    t.remove(gone).unwrap();
    assert_eq!(t.set_children(p, &[gone]), Err(InvalidNode(gone)));
    assert_eq!(t.children(p), Ok(vec![a]));
    assert_eq!(t.new_with_children(0, &[a, gone]), Err(InvalidNode(gone)));
}

#[test]
fn instances_are_isolated() {
    let mut ids = Allocator::new();
    let mut t1 = tree(&mut ids);
    let t2 = tree(&mut ids);
    let h = t1.new_leaf(7, 0).unwrap();
    assert_eq!(t2.style(h), Err(InvalidNode(h)));
    assert_eq!(t2.layout(h), Err(InvalidNode(h)));
    assert_eq!(t2.dirty(h), Err(InvalidNode(h)));
    assert_eq!(t2.child_count(h), Err(InvalidNode(h)));
    assert_eq!(t1.style(h), Ok(&7));
}

#[test]
fn replace_child_detaches_old_one() {
    let mut ids = Allocator::new();
    let mut t = tree(&mut ids);
    let a = t.new_leaf(1, 0).unwrap();
    let b = t.new_leaf(2, 0).unwrap();
    let c = t.new_leaf(3, 0).unwrap();
    let p = t.new_with_children(0, &[a, b]).unwrap();
    assert_eq!(t.replace_child_at_index(p, 1, c), Ok(b));
    assert_eq!(t.child_at_index(p, 1), Ok(c));
    assert_eq!(t.parents(b), Ok(vec![]));
    assert_eq!(t.parents(c), Ok(vec![p]));
    assert_eq!(t.children(p), Ok(vec![a, c]));
}

#[test]
fn replace_child_errors() {
    let mut ids = Allocator::new();
    let mut t = tree(&mut ids);
    let a = t.new_leaf(1, 0).unwrap();
    let gone = t.new_leaf(2, 0).unwrap();
    let p = t.new_with_children(0, &[a]).unwrap();
    t.remove(gone).unwrap();
    assert_eq!(t.replace_child_at_index(gone, 0, a), Err(InvalidChild::InvalidParentNode(gone)));
    assert_eq!(t.replace_child_at_index(p, 0, gone), Err(InvalidChild::InvalidChildNode(gone)));
    assert_eq!(
        t.replace_child_at_index(p, 1, a),
        Err(InvalidChild::ChildIndexOutOfBounds { parent: p, child_index: 1, child_count: 1 })
    );
}

#[test]
fn removed_handle_is_never_valid_again() {
    let mut ids = Allocator::new();
    let mut t = tree(&mut ids);
    let a = t.new_leaf(1, 0).unwrap();
    let b = t.new_leaf(2, 0).unwrap();
    assert_eq!(t.remove(a), Ok(0));
    assert_eq!(t.style(a), Err(InvalidNode(a)));
    assert_eq!(t.layout(a), Err(InvalidNode(a)));
    assert_eq!(t.remove(a), Err(InvalidNode(a)));
    let c = t.new_leaf(3, 0).unwrap();
    assert_ne!(c, a);
    assert_eq!(t.style(a), Err(InvalidNode(a)));
    assert_eq!(t.style(b), Ok(&2));
    assert_eq!(t.style(c), Ok(&3));
}

#[test]
fn compaction_keeps_every_other_handle() {
    let mut ids = Allocator::new();
    let mut t = tree(&mut ids);
    let mut hs = Vec::new();
    for k in 0..6u32 {
        hs.push(t.new_leaf(k, k).unwrap());
    }
    assert_eq!(t.remove(hs[1]), Ok(1));
    assert_eq!(t.remove(hs[0]), Ok(0));
    assert_eq!(t.remove(hs[5]), Ok(1));
    for k in [2usize, 3, 4] {
        assert_eq!(t.style(hs[k]), Ok(&(k as u32)));
    }
    for k in [0usize, 1, 5] {
        assert_eq!(t.style(hs[k]), Err(InvalidNode(hs[k])));
    }
}

#[test]
fn remove_detaches_from_parents_and_children() {
    let mut ids = Allocator::new();
    let mut t = tree(&mut ids);
    let a = t.new_leaf(1, 0).unwrap();
    let b = t.new_leaf(2, 0).unwrap();
    let m = t.new_with_children(0, &[a, b]).unwrap();
    let r = t.new_with_children(0, &[m]).unwrap();
    t.remove(m).unwrap();
    assert_eq!(t.children(r), Ok(vec![]));
    assert_eq!(t.parents(a), Ok(vec![]));
    assert_eq!(t.parents(b), Ok(vec![]));
    assert_eq!(t.add_child(r, b), Ok(()));
    assert_eq!(t.children(r), Ok(vec![b]));
}

#[test]
fn dirty_propagates_and_layout_cleans() {
    let mut ids = Allocator::new();
    let mut t = tree(&mut ids);
    let a = t.new_leaf(40, 12).unwrap();
    let m = t.new_with_children(0, &[a]).unwrap();
    let r = t.new_with_children(0, &[m]).unwrap();
    let space = AvailableSize { width: AvailableSpace::Definite(500), height: AvailableSpace::Unconstrained };
    let mut engine = FillEngine { calls: 0 };
    assert_eq!(t.compute_layout(r, space, &mut engine), Ok(()));
    assert_eq!(engine.calls, 3);
    assert_eq!(t.dirty(r), Ok(false));
    assert_eq!(t.mark_dirty(a), Ok(()));
    assert_eq!(t.dirty(a), Ok(true));
    assert_eq!(t.dirty(m), Ok(true));
    assert_eq!(t.dirty(r), Ok(true));
    assert_eq!(t.compute_layout(r, space, &mut engine), Ok(()));
    assert_eq!(engine.calls, 6);
    assert_eq!(t.dirty(r), Ok(false));
    assert_eq!(t.dirty(a), Ok(false));
    assert_eq!(t.layout(a).unwrap().size, Size { width: 500, height: 12 });
}

#[test]
fn layout_skips_clean_nodes_and_other_subtrees() {
    let mut ids = Allocator::new();
    let mut t = tree(&mut ids);
    let a = t.new_leaf(40, 0).unwrap();
    let b = t.new_leaf(50, 0).unwrap();
    let space = AvailableSize { width: AvailableSpace::Unconstrained, height: AvailableSpace::Unconstrained };
    let mut engine = FillEngine { calls: 0 };
    t.compute_layout(a, space, &mut engine).unwrap();
    assert_eq!(engine.calls, 1);
    assert_eq!(t.layout(a).unwrap().size.width, 40);
    assert_eq!(t.dirty(b), Ok(true));
    assert_eq!(t.layout(b), Ok(&Layout::zero()));
    t.compute_layout(a, space, &mut engine).unwrap();
    assert_eq!(engine.calls, 1);
}

#[test]
fn diamond_marks_shared_ancestor() {
    let mut ids = Allocator::new();
    let mut t = tree(&mut ids);
    let leaf = t.new_leaf(1, 0).unwrap();
    let l = t.new_with_children(0, &[leaf]).unwrap();
    let r = t.new_with_children(0, &[leaf]).unwrap();
    let top = t.new_with_children(0, &[l, r]).unwrap();
    let space = AvailableSize { width: AvailableSpace::Definite(10), height: AvailableSpace::Definite(10) };
    let mut engine = FillEngine { calls: 0 };
    t.compute_layout(top, space, &mut engine).unwrap();
    assert_eq!(engine.calls, 4);
    t.mark_dirty(leaf).unwrap();
    for h in [leaf, l, r, top] {
        assert_eq!(t.dirty(h), Ok(true));
    }
}

#[test]
fn remove_child_at_index_out_of_bounds() {
    let mut ids = Allocator::new();
    let mut t = tree(&mut ids);
    let a = t.new_leaf(1, 0).unwrap();
    let b = t.new_leaf(2, 0).unwrap();
    let p = t.new_with_children(0, &[a, b]).unwrap();
    assert_eq!(
        t.remove_child_at_index(p, 5),
        Err(InvalidChild::ChildIndexOutOfBounds { parent: p, child_index: 5, child_count: 2 })
    );
    assert_eq!(
        t.child_at_index(p, 2),
        Err(InvalidChild::ChildIndexOutOfBounds { parent: p, child_index: 2, child_count: 2 })
    );
    assert_eq!(t.child_count(p), Ok(2));
}

#[test]
fn remove_child_by_position_and_value() {
    let mut ids = Allocator::new();
    let mut t = tree(&mut ids);
    let a = t.new_leaf(1, 0).unwrap();
    let b = t.new_leaf(2, 0).unwrap();
    let c = t.new_leaf(3, 0).unwrap();
    let p = t.new_with_children(0, &[a, b, c]).unwrap();
    assert_eq!(t.remove_child_at_index(p, 1), Ok(b));
    assert_eq!(t.children(p), Ok(vec![a, c]));
    assert_eq!(t.parents(b), Ok(vec![]));
    assert_eq!(t.remove_child(p, c), Ok(c));
    assert_eq!(t.children(p), Ok(vec![a]));
    assert_eq!(t.remove_child(p, b), Err(InvalidNode(b)));
    assert_eq!(t.style(b), Ok(&2));
}

#[test]
fn add_child_appends() {
    let mut ids = Allocator::new();
    let mut t = tree(&mut ids);
    let a = t.new_leaf(1, 0).unwrap();
    let b = t.new_leaf(2, 0).unwrap();
    let p = t.new_with_children(0, &[a]).unwrap();
    let space = AvailableSize { width: AvailableSpace::Definite(1), height: AvailableSpace::Definite(1) };
    let mut engine = FillEngine { calls: 0 };
    t.compute_layout(p, space, &mut engine).unwrap();
    assert_eq!(t.add_child(p, b), Ok(()));
    assert_eq!(t.children(p), Ok(vec![a, b]));
    assert_eq!(t.parents(b), Ok(vec![p]));
    assert_eq!(t.dirty(p), Ok(true));
    assert_eq!(t.dirty(a), Ok(false));
}

#[test]
fn style_and_measure_updates_mark_dirty() {
    let mut ids = Allocator::new();
    let mut t = tree(&mut ids);
    let a = t.new_leaf(1, 5).unwrap();
    let p = t.new_with_children(0, &[a]).unwrap();
    let space = AvailableSize { width: AvailableSpace::Unconstrained, height: AvailableSpace::Unconstrained };
    let mut engine = FillEngine { calls: 0 };
    t.compute_layout(p, space, &mut engine).unwrap();
    assert_eq!(t.layout(a).unwrap().size, Size { width: 1, height: 5 });
    assert_eq!(t.set_style(a, 9), Ok(()));
    assert_eq!(t.style(a), Ok(&9));
    assert_eq!(t.dirty(p), Ok(true));
    t.compute_layout(p, space, &mut engine).unwrap();
    assert_eq!(t.set_measure(a, None), Ok(()));
    assert_eq!(t.dirty(a), Ok(true));
    t.compute_layout(p, space, &mut engine).unwrap();
    assert_eq!(t.layout(a).unwrap().size, Size { width: 9, height: 0 });
}

#[test]
fn clear_invalidates_everything() {
    let mut ids = Allocator::new();
    let mut t = tree(&mut ids);
    let a = t.new_leaf(1, 0).unwrap();
    let p = t.new_with_children(0, &[a]).unwrap();
    t.clear();
    assert_eq!(t.style(a), Err(InvalidNode(a)));
    assert_eq!(t.children(p), Err(InvalidNode(p)));
    let b = t.new_leaf(2, 0).unwrap();
    assert_ne!(b, a);
    assert_ne!(b, p);
    assert_eq!(t.style(b), Ok(&2));
}

#[test]
fn fresh_node_is_dirty_with_zero_layout() {
    let mut ids = Allocator::new();
    let mut t: Taffy<u32, u32> = Taffy::with_capacity(&mut ids, 2);
    let a = t.new_leaf(1, 0).unwrap();
    assert_eq!(t.dirty(a), Ok(true));
    assert_eq!(t.layout(a), Ok(&Layout::zero()));
    assert_eq!(t.child_count(a), Ok(0));
    let _: Node = a;
}

#[test]
fn children_and_parents_agree() {
    let mut ids = Allocator::new();
    let mut t = tree(&mut ids);
    let a = t.new_leaf(1, 0).unwrap();
    let b = t.new_leaf(2, 0).unwrap();
    let c = t.new_leaf(3, 0).unwrap();
    let p = t.new_with_children(0, &[a, b]).unwrap();
    let q = t.new_with_children(0, &[b, c]).unwrap();
    t.add_child(q, a).unwrap();
    t.replace_child_at_index(p, 0, c).unwrap();
    t.remove_child(q, b).unwrap();
    let all = [a, b, c, p, q];
    for &x in &all {
        for &y in &all {
            let x_has_child_y = t.children(x).unwrap().contains(&y);
            let y_has_parent_x = t.parents(y).unwrap().contains(&x);
            assert_eq!(x_has_child_y, y_has_parent_x);
        }
    }
    assert_eq!(t.children(p), Ok(vec![c, b]));
    assert_eq!(t.children(q), Ok(vec![c, a]));
    assert_eq!(t.parents(c), Ok(vec![q, p]));
}

#[test]
fn detaching_a_repeated_child_keeps_one_edge() {
    let mut ids = Allocator::new();
    let mut t = tree(&mut ids);
    let c = t.new_leaf(1, 0).unwrap();
    let p = t.new_with_children(0, &[c, c]).unwrap();
    assert_eq!(t.parents(c), Ok(vec![p, p]));
    assert_eq!(t.remove_child_at_index(p, 0), Ok(c));
    assert_eq!(t.children(p), Ok(vec![c]));
    assert_eq!(t.parents(c), Ok(vec![p]));
    t.add_child(p, c).unwrap();
    assert_eq!(t.remove_child(p, c), Ok(c));
    assert_eq!(t.children(p), Ok(vec![c]));
    assert_eq!(t.parents(c), Ok(vec![p]));
}

#[test]
fn replacing_a_child_with_itself_keeps_edges() {
    let mut ids = Allocator::new();
    let mut t = tree(&mut ids);
    let a = t.new_leaf(1, 0).unwrap();
    let b = t.new_leaf(2, 0).unwrap();
    let p = t.new_with_children(0, &[a, b]).unwrap();
    assert_eq!(t.replace_child_at_index(p, 1, b), Ok(b));
    assert_eq!(t.children(p), Ok(vec![a, b]));
    assert_eq!(t.parents(b), Ok(vec![p]));
    let q = t.new_with_children(0, &[a, a]).unwrap();
    assert_eq!(t.replace_child_at_index(q, 0, b), Ok(a));
    assert_eq!(t.parents(a), Ok(vec![p, q]));
    assert_eq!(t.parents(b), Ok(vec![p, q]));
}

#[test]
fn fill_available_engine_uses_offered_space() {
    let mut ids = Allocator::new();
    let mut t = tree(&mut ids);
    let a = t.new_leaf(1, 0).unwrap();
    let r = t.new_with_children(0, &[a]).unwrap();
    let space = AvailableSize { width: AvailableSpace::Definite(500), height: AvailableSpace::Unconstrained };
    t.compute_layout(r, space, &mut FillAvailable).unwrap();
    assert_eq!(t.layout(a).unwrap().size, Size { width: 500, height: 0 });
    assert_eq!(t.layout(r).unwrap().size, Size { width: 500, height: 0 });
    assert_eq!(t.dirty(a), Ok(false));
}

#[test]
fn allocator_peek_shows_next_id() {
    let mut a = Allocator::new();
    assert_eq!(a.peek(), 0);
    a.allocate();
    assert_eq!(a.peek(), 1);
}
