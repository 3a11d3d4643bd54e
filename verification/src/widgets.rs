//! The standard widgets: what each one is made of. Their children are given
//! by builders `C` (functions that make a widget), their handlers by `H`.
//! How they size and lay out their children is in `layout`; how they react
//! to the pointer is in `pointer`.
use vstd::prelude::*;
use std::time::Duration;
use crate::geo::{Point, Size};
use crate::layout::Insets;
use crate::pointer::MouseEventKind;
use crate::value::{Value, var_text};
use crate::ui_state::UIState;

verus! {

/// Centers its only child in all the space it is given.
pub struct Center<C> {
    pub child: C,
}

impl<C> Center<C> {
    pub fn new(child: C) -> (w: Self)
        ensures
            w.child == child,
    {
        Center { child }
    }
}

/// Lays out its children from left to right.
pub struct Row<F> {
    pub children: F,
}

impl<F> Row<F> {
    pub fn new(children: F) -> (w: Self)
        ensures
            w.children == children,
    {
        Row { children }
    }
}

/// Stacks its children from top to bottom, each as wide as the list.
pub struct List<F> {
    pub children: F,
}

impl<F> List<F> {
    pub fn new(children: F) -> (w: Self)
        ensures
            w.children == children,
    {
        List { children }
    }
}

/// A widget that has a fixed size. It does not exceed the limits it is
/// given, and gives its only child its own size.
pub struct SizedBox<C> {
    pub size: Size,
    pub child: Option<C>,
}

impl<C> SizedBox<C> {
    /// A sized box without child.
    pub fn new(size: Size) -> (w: Self)
        ensures
            w.size == size,
            w.child is None,
    {
        SizedBox { size, child: None }
    }

    /// The box with `child` as its child.
    pub fn with_child<D>(self, child: D) -> (w: SizedBox<D>)
        ensures
            w.size == self.size,
            w.child == Some(child),
    {
        SizedBox { size: self.size, child: Some(child) }
    }
}

/// A boxed sized box without child.
pub fn sized_box<C>(size: Size) -> (w: Box<SizedBox<C>>)
    ensures
        w.size == size,
        w.child is None,
{
    Box::new(SizedBox::new(size))
}

/// A box around its child, with an optional fixed width and height, a
/// color `K` and padding.
pub struct Container<C, K> {
    pub width: Option<i64>,
    pub height: Option<i64>,
    pub child: C,
    pub color: Option<K>,
    pub padding: Option<Insets>,
}

impl<C, K> Container<C, K> {
    /// A container of `child` with nothing fixed.
    pub fn new(child: C) -> (w: Self)
        ensures
            w.child == child,
            w.width is None,
            w.height is None,
            w.color is None,
            w.padding is None,
    {
        Container { width: None, height: None, child, color: None, padding: None }
    }

    pub fn with_width(self, width: i64) -> (w: Self)
        ensures
            w == (Container { width: Some(width), ..self }),
    {
        Container { width: Some(width), ..self }
    }

    pub fn with_height(self, height: i64) -> (w: Self)
        ensures
            w == (Container { height: Some(height), ..self }),
    {
        Container { height: Some(height), ..self }
    }

    pub fn with_color(self, color: K) -> (w: Self)
        ensures
            w == (Container { color: Some(color), ..self }),
    {
        Container { color: Some(color), ..self }
    }

    pub fn with_padding(self, padding: Insets) -> (w: Self)
        ensures
            w == (Container { padding: Some(padding), ..self }),
    {
        Container { padding: Some(padding), ..self }
    }

    /// The padding, none meaning no space.
    pub fn padding_or_default(&self) -> (p: Insets)
        ensures
            p == match self.padding {
                Some(p) => p,
                None => Insets { left: 0, right: 0, top: 0, bottom: 0 },
            },
    {
        match self.padding {
            Some(p) => p,
            None => Insets::all(0, 0, 0, 0),
        }
    }
}

/// A drag start, a drag or a drag end.
pub open spec fn is_drag_kind(kind: MouseEventKind) -> bool {
    kind == MouseEventKind::MouseDragStart || kind == MouseEventKind::MouseDrag || kind == MouseEventKind::MouseDragEnd
}

/// The state of a drag source: whether it is being dragged, and where.
#[derive(Clone, Copy, PartialEq, Eq, Structural, Debug)]
pub struct DragState {
    pub dragging: bool,
    pub position: Point,
}

impl DragState {
    /// Not dragged, at the origin.
    pub fn initial() -> (s: Self)
        ensures
            s == (DragState { dragging: false, position: Point { x: 0, y: 0 } }),
    {
        DragState { dragging: false, position: Point::new(0, 0) }
    }
}

/// A widget that can be dragged: its child, what it shows while dragged,
/// what follows the pointer, and the handler `H` that makes the dragged data.
pub struct DragSource<C, H> {
    pub child: C,
    pub child_when_dragging: Option<C>,
    pub dragging_child: Option<C>,
    pub drag_start: Option<H>,
}

impl<C, H> DragSource<C, H> {
    pub fn new(child: C) -> (w: Self)
        ensures
            w.child == child,
            w.child_when_dragging is None,
            w.dragging_child is None,
            w.drag_start is None,
    {
        DragSource { child, drag_start: None, child_when_dragging: None, dragging_child: None }
    }

    pub fn with_drag_start<G>(self, handler: G) -> (w: DragSource<C, G>)
        ensures
            w.child == self.child,
            w.child_when_dragging == self.child_when_dragging,
            w.dragging_child == self.dragging_child,
            w.drag_start == Some(handler),
    {
        DragSource {
            child: self.child,
            child_when_dragging: self.child_when_dragging,
            dragging_child: self.dragging_child,
            drag_start: Some(handler),
        }
    }

    pub fn with_child_when_dragging(self, child: C) -> (w: Self)
        ensures
            w == (DragSource { child_when_dragging: Some(child), ..self }),
    {
        DragSource { child_when_dragging: Some(child), ..self }
    }

    pub fn with_dragging_child(self, child: C) -> (w: Self)
        ensures
            w == (DragSource { dragging_child: Some(child), ..self }),
    {
        DragSource { dragging_child: Some(child), ..self }
    }

    /// The child shown in the given state: the one for while dragging, when
    /// there is one and a drag goes on, else the child.
    pub fn shown_child(&self, state: &DragState) -> (c: &C)
        ensures
            *c == if state.dragging && self.child_when_dragging is Some {
                self.child_when_dragging->0
            } else {
                self.child
            },
    {
        match &self.child_when_dragging {
            Some(c) => if state.dragging {
                c
            } else {
                &self.child
            },
            None => &self.child,
        }
    }

    /// The widget that follows the pointer during a drag: the dragging child
    /// when there is one, else the child.
    pub fn drag_image(&self) -> (c: &C)
        ensures
            *c == if self.dragging_child is Some { self.dragging_child->0 } else { self.child },
    {
        match &self.dragging_child {
            Some(c) => c,
            None => &self.child,
        }
    }

    /// What the drag source does on a mouse event of `kind` at the local
    /// position `local_position`. On a drag start, a drag or a drag end it
    /// takes a new state (dragged from that position, or, at the end, not
    /// dragged and at the origin) and, when it has a drag handler, registers
    /// itself as what is dragged: the handler, which makes the dragged data,
    /// and its drag image. On any other event it does nothing.
    pub fn drag_response(&self, kind: MouseEventKind, local_position: Point) -> (r: (Option<DragState>, Option<(&C, &H)>))
        ensures
            is_drag_kind(kind) ==> r.0 == Some(DragState {
                dragging: kind != MouseEventKind::MouseDragEnd,
                position: if kind == MouseEventKind::MouseDragEnd { Point { x: 0, y: 0 } } else { local_position },
            }),
            !is_drag_kind(kind) ==> r.0 is None,
            r.1 is Some <==> is_drag_kind(kind) && self.drag_start is Some,
            r.1 is Some ==> {
                &&& *(r.1->0).0 == if self.dragging_child is Some { self.dragging_child->0 } else { self.child }
                &&& *(r.1->0).1 == self.drag_start->0
            },
    {
        let drag = match kind {
            MouseEventKind::MouseDragStart | MouseEventKind::MouseDrag => true,
            MouseEventKind::MouseDragEnd => true,
            _ => false,
        };
        if !drag {
            return (None, None);
        }
        let state = match kind {
            MouseEventKind::MouseDragEnd => DragState { dragging: false, position: Point::new(0, 0) },
            _ => DragState { dragging: true, position: local_position },
        };
        let registration = match &self.drag_start {
            Some(handler) => Some((self.drag_image(), handler)),
            None => None,
        };
        (Some(state), registration)
    }
}

/// The state of a drop target: whether it accepted what is dragged over it.
#[derive(Clone, Copy, PartialEq, Eq, Structural, Debug)]
pub struct DropTargetState {
    pub accepted: bool,
}

/// A widget that dragged data can be dropped on: its child, what it shows
/// once it accepted, and the test `A` of what it accepts.
pub struct DropTarget<C, A> {
    pub child: C,
    pub child_on_accept: Option<C>,
    pub accept: Option<A>,
}

impl<C, A> DropTarget<C, A> {
    pub fn new(child: C) -> (w: Self)
        ensures
            w.child == child,
            w.child_on_accept is None,
            w.accept is None,
    {
        DropTarget { child, child_on_accept: None, accept: None }
    }

    pub fn with_accept<B>(self, accept: B) -> (w: DropTarget<C, B>)
        ensures
            w.child == self.child,
            w.child_on_accept == self.child_on_accept,
            w.accept == Some(accept),
    {
        DropTarget { child: self.child, child_on_accept: self.child_on_accept, accept: Some(accept) }
    }

    pub fn with_child_on_accept(self, child: C) -> (w: Self)
        ensures
            w == (DropTarget { child_on_accept: Some(child), ..self }),
    {
        DropTarget { child_on_accept: Some(child), ..self }
    }

    /// The child shown in the given state: the one for once it accepted,
    /// when there is one and it accepted, else the child.
    pub fn shown_child(&self, state: &DropTargetState) -> (c: &C)
        ensures
            *c == if state.accepted && self.child_on_accept is Some {
                self.child_on_accept->0
            } else {
                self.child
            },
    {
        match &self.child_on_accept {
            Some(c) => if state.accepted {
                c
            } else {
                &self.child
            },
            None => &self.child,
        }
    }
}

/// Shows a text, constant or bound to a name of the UI state.
pub struct Label {
    pub text: Value,
}

impl Label {
    pub fn new(text: Value) -> (w: Self)
        ensures
            w.text == text,
    {
        Label { text }
    }

    /// The name that the label is bound to, if any.
    pub fn binding(&self) -> (b: Option<&String>)
        ensures
            b is Some <==> self.text is Binding,
            b is Some ==> *b->0 == self.text->Binding_0,
    {
        match &self.text {
            Value::Binding(name) => Some(name),
            Value::Const(_) => None,
        }
    }

    /// The text the label shows with the UI state `ui_state`: that of the
    /// value bound to its name, when the state holds one, or that of its
    /// constant; none for a real number, whose text is not made here.
    pub fn shown_text(&self, ui_state: &UIState) -> (s: Option<String>)
        ensures
            s is Some <==> label_text(self.text, ui_state.values()) is Some,
            s is Some ==> s->0@ == label_text(self.text, ui_state.values())->0,
    {
        match &self.text {
            Value::Binding(name) => match ui_state.get(name.as_str()) {
                Some(var) => var.text(),
                None => None,
            },
            Value::Const(var) => var.text(),
        }
    }
}

/// The text of a label showing `text` with the values `values`.
pub open spec fn label_text(text: Value, values: Map<Seq<char>, crate::value::Var>) -> Option<Seq<char>> {
    match text {
        Value::Binding(name) => if values.contains_key(name@) { var_text(values[name@]) } else { None },
        Value::Const(var) => var_text(var),
    }
}

/// A button with a text and a click handler `H`.
pub struct TextButton<H> {
    pub text: Value,
    pub click_handler: Option<H>,
}

impl<H> TextButton<H> {
    pub fn new(text: Value) -> (w: Self)
        ensures
            w.text == text,
            w.click_handler is None,
    {
        TextButton { text, click_handler: None }
    }

    pub fn on_click<G>(self, click_handler: G) -> (w: TextButton<G>)
        ensures
            w.text == self.text,
            w.click_handler == Some(click_handler),
    {
        TextButton { text: self.text, click_handler: Some(click_handler) }
    }
}

/// What paints a text button: its text.
pub struct TextButtonPainter {
    pub text: String,
}

impl TextButtonPainter {
    pub fn new(text: String) -> (p: Self)
        ensures
            p.text == text,
    {
        TextButtonPainter { text }
    }
}

/// The state of a viewport: how far its child is moved.
#[derive(Clone, Copy, PartialEq, Eq, Structural, Debug)]
pub struct ViewportState {
    pub offset: Point,
}

impl ViewportState {
    /// Not moved.
    pub fn initial() -> (s: Self)
        ensures
            s.offset == (Point { x: 0, y: 0 }),
    {
        ViewportState { offset: Point::new(0, 0) }
    }

    /// The state after a `set_offset` message moving the child by `(x, y)`.
    pub fn moved_by(&self, x: i64, y: i64) -> (s: Self)
        requires
            crate::geo::fits_i64(self.offset.x + x),
            crate::geo::fits_i64(self.offset.y + y),
        ensures
            s.offset.x == self.offset.x + x,
            s.offset.y == self.offset.y + y,
    {
        ViewportState { offset: self.offset.add(Point::new(x, y)) }
    }
}

/// Shows its child moved by an offset, clipped to its own bounds.
pub struct Viewport<C> {
    pub child: C,
}

impl<C> Viewport<C> {
    pub fn new(child: C) -> (w: Self)
        ensures
            w.child == child,
    {
        Viewport { child }
    }
}

/// A viewport whose child scrolls with the mouse wheel, `speed` pixels per
/// step of the wheel.
pub struct Scrollable<C> {
    pub child: C,
    pub speed: i64,
}

impl<C> Scrollable<C> {
    pub fn new(child: C) -> (w: Self)
        ensures
            w.child == child,
            w.speed == 5,
    {
        Scrollable { child, speed: 5 }
    }

    /// How far a scroll of `(x, y)` wheel steps moves the child.
    pub fn scroll_offset(&self, x: i64, y: i64) -> (d: (i64, i64))
        requires
            crate::geo::fits_i64(x * self.speed),
            crate::geo::fits_i64(y * self.speed),
        ensures
            d.0 == x * self.speed,
            d.1 == y * self.speed,
    {
        (x * self.speed, y * self.speed)
    }
}

/// A box whose color `K` runs through `colors` in `duration`, with an
/// optional child.
pub struct AnimatedColorBox<K, C> {
    pub colors: Vec<K>,
    pub child: Option<C>,
    pub duration: Duration,
}

impl<K, C> AnimatedColorBox<K, C> {
    pub fn new(colors: Vec<K>, duration: Duration) -> (w: Self)
        ensures
            w.colors == colors,
            w.child is None,
            w.duration == duration,
    {
        AnimatedColorBox { colors, child: None, duration }
    }

    pub fn with_child(self, child: C) -> (w: Self)
        ensures
            w == (AnimatedColorBox { child: Some(child), ..self }),
    {
        AnimatedColorBox { child: Some(child), ..self }
    }
}

/// A label bound to a name whose value the state holds shows what a label
/// with that value as constant shows; that is a text for every value but a
/// real number, and for none when the state holds no value there.
pub proof fn law_bound_label_shows_the_value(name: String, values: Map<Seq<char>, crate::value::Var>)
    ensures
        values.contains_key(name@) ==> label_text(Value::Binding(name), values) == label_text(Value::Const(values[name@]), values),
        values.contains_key(name@) && !(values[name@] is Real) ==> label_text(Value::Binding(name), values) is Some,
        values.contains_key(name@) && values[name@] is Real ==> label_text(Value::Binding(name), values) is None,
        !values.contains_key(name@) ==> label_text(Value::Binding(name), values) is None,
{
}

} // verus!
