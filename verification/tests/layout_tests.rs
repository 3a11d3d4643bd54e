use std::collections::HashMap;
use widget_ui::geo::{Point, Rect, Size};
use widget_ui::hit_test::hit_test;
use widget_ui::layout::{
    center_child_bounds, container_child_bounds, container_child_constraints, container_size, fill_size,
    fit_child_bounds, list_child_bounds, list_size, row_child_bounds, sized_box_child_bounds, sized_box_size,
    viewport_child_bounds, BoxConstraints, Insets,
};
use widget_ui::pointer::{button_state_after, drag_state_after, ButtonState, MouseEventKind, PointerState};
use widget_ui::rebuild::{apply_child_layout, detach_for_rebuild, layout_element, merge_rebuild, rebuild_element, rebuilds_needed, ChangeResponse, MutationResult, Rebuild};
use widget_ui::tree::{ElementIds, Tree};
use widget_ui::widgets::{DragSource, DragState};

fn rect(x: i64, y: i64, w: i64, h: i64) -> Rect {
    Rect::new(Point::new(x, y), Size::new(w, h))
}

#[test]
fn constraints_builders() {
    let c = BoxConstraints::new().with_max_width(10).with_max_height(20);
    assert_eq!(c.max_width(), Some(10));
    assert_eq!(c.max_height(), Some(20));
    assert_eq!(c.max_size(), Size::new(10, 20));
    assert_eq!(BoxConstraints::new_with_max(3, 4), c.with_max_width(3).with_max_height(4));
    assert_eq!(fill_size(&BoxConstraints::new_with_max(5, 6)), Size::new(5, 6));
    assert_eq!(Insets::horizontal(1, 2), Insets::all(1, 2, 0, 0));
    assert_eq!(Insets::vertical(3, 4), Insets::all(0, 0, 3, 4));
}

#[test]
fn center_places_child_in_the_middle() {
    assert_eq!(center_child_bounds(Size::new(100, 50), Some(Size::new(20, 10))), rect(40, 20, 20, 10));
    assert_eq!(center_child_bounds(Size::new(100, 50), None), rect(0, 0, 100, 50));
    assert_eq!(center_child_bounds(Size::new(7, 7), Some(Size::new(2, 2))), rect(2, 2, 2, 2));
}

#[test]
fn fit_and_viewport_bounds() {
    assert_eq!(fit_child_bounds(Size::new(9, 9), Some(Size::new(3, 4))), rect(0, 0, 3, 4));
    assert_eq!(fit_child_bounds(Size::new(9, 9), None), rect(0, 0, 9, 9));
    assert_eq!(viewport_child_bounds(Size::new(9, 9), Point::new(-5, 2), Some(Size::new(30, 40))), rect(-5, 2, 30, 40));
    assert_eq!(viewport_child_bounds(Size::new(9, 8), Point::new(1, 1), None), rect(1, 1, 9, 8));
}

#[test]
fn sized_box_respects_constraints() {
    let fixed = Size::new(50, 60);
    assert_eq!(sized_box_size(fixed, &BoxConstraints::new()), fixed);
    assert_eq!(sized_box_size(fixed, &BoxConstraints::new_with_max(40, 100)), Size::new(40, 60));
    assert_eq!(sized_box_child_bounds(Size::new(4, 5), 1), Some(rect(0, 0, 4, 5)));
    assert_eq!(sized_box_child_bounds(Size::new(4, 5), 0), None);
    assert_eq!(sized_box_child_bounds(Size::new(4, 5), 2), None);
}

#[test]
fn container_size_and_child() {
    let c = BoxConstraints::new_with_max(100, 80);
    assert_eq!(container_size(Some(50), None, &c), Size::new(50, 80));
    assert_eq!(container_size(Some(500), Some(10), &c), Size::new(100, 10));
    assert_eq!(container_size(Some(7), Some(8), &BoxConstraints::new()), Size::new(7, 8));
    let padding = Insets::all(10, 20, 5, 5);
    let cc = container_child_constraints(Size::new(100, 80), padding);
    assert_eq!(cc, BoxConstraints::new_with_max(70, 70));
    assert_eq!(container_child_bounds(Size::new(100, 80), padding, None), rect(15, 5, 70, 70));
    assert_eq!(container_child_bounds(Size::new(100, 80), padding, Some(Size::new(40, 200))), rect(30, 0, 40, 80));
}

#[test]
fn row_shares_leftover_width() {
    let sizes = vec![Some(Size::new(20, 10)), None, Some(Size::new(30, 40)), None];
    let r = row_child_bounds(Size::new(100, 50), &sizes);
    assert_eq!(r, vec![rect(0, 20, 20, 10), rect(20, 0, 25, 50), rect(20, 5, 30, 40), rect(50, 0, 25, 50)]);
    let r = row_child_bounds(Size::new(10, 10), &vec![Some(Size::new(4, 2)), Some(Size::new(4, 2))]);
    assert_eq!(r, vec![rect(0, 4, 4, 2), rect(4, 4, 4, 2)]);
    assert!(row_child_bounds(Size::new(10, 10), &vec![]).is_empty());
}

#[test]
fn list_stacks_children() {
    let sizes = vec![Some(Size::new(5, 10)), None, Some(Size::new(7, 20))];
    assert_eq!(list_size(30, &sizes), Size::new(30, 30));
    let r = list_child_bounds(Size::new(30, 100), &sizes);
    assert_eq!(r, vec![Some(rect(0, 0, 30, 10)), None, Some(rect(0, 10, 30, 20))]);
}

fn pointer_tree() -> Tree<&'static str> {
    let mut ids = ElementIds::new();
    let mut tree = Tree::new("root", &mut ids);
    let a = tree.add_node("a", &mut ids);
    let b = tree.add_node("b", &mut ids);
    tree.add_child(1, a);
    tree.add_child(a, b);
    tree.get_mut(1).unwrap().set_bounds(&rect(0, 0, 100, 100));
    tree.get_mut(a).unwrap().set_bounds(&rect(10, 10, 50, 50));
    tree.get_mut(b).unwrap().set_bounds(&rect(20, 20, 10, 10));
    tree
}

#[test]
fn hit_test_records_interceptors_and_last_hit() {
    let tree = pointer_tree();
    let mut intercepted = Vec::new();
    let mut hit = None;
    hit_test(&tree, &Point::new(25, 25), &vec![2], &mut intercepted, &mut hit);
    assert_eq!(intercepted, vec![2]);
    assert_eq!(hit, Some(3));

    let mut intercepted = Vec::new();
    let mut hit = None;
    hit_test(&tree, &Point::new(15, 15), &vec![], &mut intercepted, &mut hit);
    assert!(intercepted.is_empty());
    assert_eq!(hit, Some(2));

    let mut intercepted = Vec::new();
    let mut hit = None;
    hit_test(&tree, &Point::new(500, 5), &vec![], &mut intercepted, &mut hit);
    assert_eq!(hit, None);
}

#[test]
fn pointer_moves_drags_and_releases() {
    let mut p = PointerState::new();
    assert_eq!(p.mouse_move(Point::new(1, 1)), MouseEventKind::MouseMove);
    let targets = p.route(MouseEventKind::MouseDown, Some(3), &vec![2]);
    assert_eq!(targets, vec![3, 2]);
    assert_eq!(p.mouse_down_elements, vec![3, 2]);
    assert_eq!(p.mouse_move(Point::new(2, 2)), MouseEventKind::MouseDragStart);
    assert!(p.dragging);
    assert_eq!(p.mouse_move(Point::new(3, 3)), MouseEventKind::MouseDrag);
    assert_eq!(p.route(MouseEventKind::MouseDrag, None, &vec![]), vec![3, 2]);
    assert_eq!(p.mouse_up(), vec![MouseEventKind::MouseDragEnd, MouseEventKind::MouseUp]);
    assert!(!p.dragging);
    assert_eq!(p.route(MouseEventKind::MouseUp, Some(5), &vec![]), vec![5, 3, 2]);
    assert!(p.mouse_down_elements.is_empty());
    assert_eq!(p.mouse_up(), vec![MouseEventKind::MouseUp]);
    assert_eq!(p.mouse_position, Some(Point::new(3, 3)));
    assert_eq!(p.route(MouseEventKind::MouseScroll, Some(1), &vec![]), vec![1]);
}

#[test]
fn widget_reactions() {
    assert_eq!(button_state_after(MouseEventKind::MouseMove), (Some(ButtonState::Hovered), false));
    assert_eq!(button_state_after(MouseEventKind::MouseDown), (Some(ButtonState::Active), false));
    assert_eq!(button_state_after(MouseEventKind::MouseUp), (Some(ButtonState::Inactive), true));
    assert_eq!(button_state_after(MouseEventKind::MouseScroll), (None, false));
    assert_eq!(drag_state_after(MouseEventKind::MouseDragStart, Point::new(4, 5)), Some((true, Point::new(4, 5))));
    assert_eq!(drag_state_after(MouseEventKind::MouseDragEnd, Point::new(4, 5)), Some((false, Point::new(0, 0))));
    assert_eq!(drag_state_after(MouseEventKind::MouseMove, Point::new(4, 5)), None);
}

#[test]
fn apply_child_layout_sets_local_and_global_bounds() {
    let mut tree = pointer_tree();
    let mut local = HashMap::new();
    local.insert(2usize, rect(5, 6, 7, 8));
    let mut results = HashMap::new();
    tree.get_mut(1).unwrap().set_bounds(&rect(100, 200, 50, 50));
    apply_child_layout(&mut tree, 1, &local, &mut results);
    assert_eq!(tree.get(2).unwrap().local_bounds, rect(5, 6, 7, 8));
    assert_eq!(tree.get(2).unwrap().global_bounds, rect(105, 206, 7, 8));
    assert_eq!(results[&2], (rect(105, 206, 7, 8), rect(5, 6, 7, 8)));
}

#[test]
fn detach_and_merge_rebuild() {
    let mut tree = pointer_tree();
    let (parent, node) = detach_for_rebuild(&mut tree, 2);
    assert_eq!(parent, Some(1));
    assert!(node.children.is_empty());
    assert_eq!(node.data, "a");
    assert!(tree.get(2).is_none() && tree.get(3).is_none());
    assert!(tree.get(1).unwrap().children.is_empty());
    let rebuilt = Tree::new_with_root_node(node, 2);
    let relayout = merge_rebuild(&mut tree, Rebuild { parent, id: 2, tree: rebuilt });
    assert_eq!(relayout, Some(1));
    assert_eq!(tree.get(1).unwrap().children, vec![2]);

    let mut result: MutationResult<u8> = MutationResult::default();
    assert!(result.rebuilds.is_empty());
    result.rebuilds.push(Rebuild { parent: None, id: 1, tree: Tree::new_with_root_id(0u8, 1) });
    let mut whole = Tree::new_with_root_id(9u8, 7);
    assert_eq!(merge_rebuild(&mut whole, result.rebuilds.pop().unwrap()), None);
    assert_eq!(whole.root_id(), 1);
}

#[test]
fn only_build_answers_cause_rebuilds() {
    let actions = vec![(1, Some(ChangeResponse::Build)), (2, None), (3, Some(ChangeResponse::Build))];
    assert_eq!(rebuilds_needed(&actions), vec![1, 3]);
}

#[test]
fn each_element_is_rebuilt_once_after_its_last_answer() {
    let actions = vec![
        (1, Some(ChangeResponse::Build)),
        (2, Some(ChangeResponse::Build)),
        (1, Some(ChangeResponse::Build)),
        (3, Some(ChangeResponse::Build)),
        (3, None),
    ];
    assert_eq!(rebuilds_needed(&actions), vec![2, 1]);
}

#[test]
fn layout_element_places_the_whole_subtree() {
    let mut tree = pointer_tree();
    // every node places its children 1 to the right and 2 down, 5 by 5
    let layout = |id: usize, t: &Tree<&'static str>| {
        let mut b = HashMap::new();
        for c in &t.get(id).unwrap().children {
            b.insert(*c, rect(1, 2, 5, 5));
        }
        b
    };
    let mut results = HashMap::new();
    layout_element(&mut tree, 1, &layout, &mut results);
    assert_eq!(tree.get(2).unwrap().local_bounds, rect(1, 2, 5, 5));
    assert_eq!(tree.get(2).unwrap().global_bounds, rect(1, 2, 5, 5));
    assert_eq!(tree.get(3).unwrap().global_bounds, rect(2, 4, 5, 5));
    assert_eq!(results[&3], (rect(2, 4, 5, 5), rect(1, 2, 5, 5)));
    assert_eq!(results.len(), 2);
    assert_eq!(tree.get(1).unwrap().global_bounds, rect(0, 0, 100, 100));
}

#[test]
fn rebuild_element_builds_the_detached_node_anew() {
    let mut tree = pointer_tree();
    let mut ids = ElementIds::new();
    for _ in 0..3 {
        widget_ui::tree::next_element_id(&mut ids);
    }
    let rebuild = rebuild_element(&mut tree, 2, |_id: usize, d: &mut &'static str| if *d == "a" { vec!["c", "d"] } else { vec![] }, &mut ids);
    assert_eq!(rebuild.id, 2);
    assert_eq!(rebuild.parent, Some(1));
    assert_eq!(rebuild.tree.root_id(), 2);
    assert_eq!(rebuild.tree.get(2).unwrap().data, "a");
    assert_eq!(rebuild.tree.get(2).unwrap().children, vec![4, 5]);
    assert_eq!(rebuild.tree.get(4).unwrap().data, "c");
    assert_eq!(rebuild.tree.get(5).unwrap().data, "d");
    assert_eq!(rebuild.tree.get(2).unwrap().local_bounds, rect(10, 10, 50, 50));
    assert!(tree.get(2).is_none() && tree.get(3).is_none());
    assert!(tree.get(1).unwrap().children.is_empty());
}

#[test]
fn drag_source_registers_its_image_and_handler() {
    let w: DragSource<u8, u32> = DragSource::<u8, u32>::new(1u8).with_drag_start(7u32);
    let (state, reg) = w.drag_response(MouseEventKind::MouseDragEnd, Point::new(5, 5));
    assert_eq!(state, Some(DragState { dragging: false, position: Point::new(0, 0) }));
    assert_eq!(reg, Some((&1u8, &7u32)));
    let w = w.with_dragging_child(2u8);
    let (state, reg) = w.drag_response(MouseEventKind::MouseDrag, Point::new(5, 6));
    assert_eq!(state, Some(DragState { dragging: true, position: Point::new(5, 6) }));
    assert_eq!(reg, Some((&2u8, &7u32)));
    assert_eq!(w.drag_response(MouseEventKind::MouseDown, Point::new(5, 6)), (None, None));
    let plain: DragSource<u8, u32> = DragSource::<u8, u32>::new(1u8);
    let (state, reg) = plain.drag_response(MouseEventKind::MouseDragStart, Point::new(3, 4));
    assert_eq!(state, Some(DragState { dragging: true, position: Point::new(3, 4) }));
    assert_eq!(reg, None);
}

#[test]
fn sized_box_keeps_within_smallest_and_largest() {
    let fixed = Size::new(50, 60);
    let c = BoxConstraints::new().with_min_width(70).with_min_height(10);
    assert_eq!(sized_box_size(fixed, &c), Size::new(70, 60));
    let c = BoxConstraints::new_with_max(40, 100).with_min_height(80);
    assert_eq!(sized_box_size(fixed, &c), Size::new(40, 80));
    assert_eq!(c.min_height(), Some(80));
    assert_eq!(c.min_width(), None);
}

#[test]
fn negative_extents_are_laid_out() {
    // a container smaller than its padding hands its child a negative width
    let c = container_child_constraints(Size::new(10, 10), Insets::all(8, 8, 0, 0));
    assert_eq!(c.max_width(), Some(-6));
    let r = container_child_bounds(Size::new(10, 10), Insets::all(8, 8, 0, 0), None);
    assert_eq!(r, rect(8, 0, -6, 10));
    // a row narrower than its fixed children shares a negative width
    let r = row_child_bounds(Size::new(10, 4), &vec![Some(Size::new(30, 2)), None]);
    assert_eq!(r[1], rect(30, 0, -20, 4));
    assert_eq!(center_child_bounds(Size::new(-4, 4), Some(Size::new(2, 2))), rect(-3, 1, 2, 2));
}
