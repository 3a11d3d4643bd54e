use std::collections::HashMap;
use std::time::Duration;
use widget_ui::animation::AnimationRequest;
use widget_ui::build_ctx::{BuildCtx, BuildResult};
use widget_ui::drag_source::{DragSourceData, DragSourceItem, DragSourceWidget};
use widget_ui::geo::{Point, Rect, Size};
use widget_ui::layout_ctx::{LayoutCtx, SizeCtx};
use widget_ui::tree::{ElementIds, Tree};
use widget_ui::ui_ctx::UIContext;
use widget_ui::ui_message::UIMessage;
use widget_ui::ui_state::UIState;
use widget_ui::value::Var;
use widget_ui::widget_element::WidgetElement;
use widget_ui::window_request::WindowRequest;

#[test]
fn ui_message_builders() {
    let m = UIMessage::new(1, 2, "set_offset").with_arg(Var::Integer(3)).with_args(vec![Var::Integer(4), Var::Integer(5)]);
    assert_eq!(m.sender, 1);
    assert_eq!(m.receiver, 2);
    assert_eq!(m.target, "set_offset");
    let args: Vec<i32> = m.args.iter().map(|a| a.as_integer().unwrap()).collect();
    assert_eq!(args, vec![3, 4, 5]);
}

#[test]
fn window_request_builders() {
    let r: WindowRequest<fn() -> u8> = WindowRequest::new(800, 600);
    assert_eq!((r.width, r.height), (800, 600));
    assert!(r.title.is_none());
    assert!(r.builder().is_none());
    let r = r.with_title("Demo").with_ui(|| 7u8);
    assert_eq!(r.title.as_deref(), Some("Demo"));
    assert_eq!((r.builder().as_ref().unwrap())(), 7);
}

#[test]
fn drag_source_data_keeps_items_in_order() {
    let data: DragSourceData<&str, u32> = DragSourceData::new()
        .with_item(DragSourceItem::new(DragSourceWidget::Id(4)))
        .with_item(DragSourceItem::new(DragSourceWidget::Widget("w")));
    assert_eq!(data.items().len(), 2);
    assert!(matches!(data.items()[0].widget(), DragSourceWidget::Id(4)));
    assert!(matches!(data.items()[1].widget(), DragSourceWidget::Widget("w")));
    assert!(data.items()[0].data().is_none());
    let empty: DragSourceData<u8, u8> = DragSourceData::default();
    assert!(empty.items().is_empty());
}

#[test]
fn build_ctx_collects_animation_requests() {
    let mut state = UIState::new();
    state.register("x", Var::Integer(1));
    let mut ctx = BuildCtx::new(5, Some(10u8), &state);
    assert_eq!(ctx.id, 5);
    assert_eq!(ctx.state(), Some(&10));
    assert_eq!(ctx.bind("x").and_then(|v| v.as_integer()), Some(1));
    assert!(ctx.bind("y").is_none());
    ctx.request_widget_animation(0, Duration::from_millis(100));
    ctx.request_painter_animation(1, Duration::from_millis(50));
    let reqs = ctx.animation_requests();
    assert_eq!(reqs.len(), 2);
    assert!(matches!(reqs[0], AnimationRequest::Widget(0, d) if d == Duration::from_millis(100)));
    assert!(matches!(reqs[1], AnimationRequest::Painter(1, d) if d == Duration::from_millis(50)));
    assert!(ctx.ui_state().get("x").is_some());
}

#[test]
fn build_result_records_only_non_empty_lists() {
    let mut result = BuildResult::default();
    result.record(1, vec![], vec![]);
    assert!(result.animation_requests.is_empty() && result.binds.is_empty());
    result.record(2, vec![AnimationRequest::Widget(0, Duration::from_secs(1))], vec![String::from("n")]);
    assert_eq!(result.animation_requests.len(), 1);
    assert_eq!(result.binds.get(&2), Some(&vec![String::from("n")]));
}

#[test]
fn layout_ctx_sets_bounds_and_positions() {
    let mut ids = ElementIds::new();
    let tree = Tree::new((), &mut ids);
    let mut state = UIState::new();
    state.register("v", Var::Integer(2));
    let mut ctx = LayoutCtx::new(1, &tree, &state);
    assert_eq!(ctx.id(), 1);
    assert_eq!(ctx.binding("v").and_then(|v| v.as_integer()), Some(2));
    ctx.set_child_bounds(2, Rect::new(Point::new(1, 1), Size::new(10, 20)));
    ctx.set_child_position(2, Point::new(5, 6));
    ctx.set_child_position(3, Point::new(7, 8));
    let bounds: HashMap<usize, Rect> = ctx.bounds();
    assert_eq!(bounds[&2], Rect::new(Point::new(5, 6), Size::new(10, 20)));
    assert_eq!(bounds[&3], Rect::new(Point::new(7, 8), Size::new(0, 0)));
    let size_ctx = SizeCtx::new(1, &tree);
    assert_eq!(size_ctx.id(), 1);
    assert_eq!(size_ctx.element_tree().root_id(), 1);
}

#[test]
fn ui_context_messages_and_child_ids() {
    let mut ids = ElementIds::new();
    let mut tree = Tree::new((), &mut ids);
    let a = tree.add_node((), &mut ids);
    tree.add_child(1, a);
    let mut ctx = UIContext::new(1, &tree);
    assert_eq!(ctx.id(), 1);
    assert_eq!(ctx.child_id(0), a);
    ctx.send_internal_message(UIMessage::new(1, a, "ping"));
    let messages = ctx.ui_messages();
    assert_eq!(messages.len(), 1);
    assert_eq!(messages[0].target, "ping");
}

#[test]
fn widget_element_state() {
    let mut e: WidgetElement<&str, u8> = WidgetElement::new("label");
    assert_eq!(*e.widget(), "label");
    assert!(e.widget_state().is_none());
    e.set_state(Some(3));
    assert_eq!(*e.widget_state(), Some(3));
    *e.widget_state_mut() = Some(4);
    assert_eq!(*e.widget_state(), Some(4));
    assert_eq!(e.into_widget(), "label");
}

#[test]
fn the_last_ui_builder_wins() {
    let r: WindowRequest<fn() -> u8> = WindowRequest::new(10, 20);
    let r = r.with_ui((|| 1u8) as fn() -> u8).with_title("a").with_ui((|| 2u8) as fn() -> u8);
    assert_eq!((r.builder().as_ref().unwrap())(), 2);
    assert_eq!(r.title.as_deref(), Some("a"));
}
