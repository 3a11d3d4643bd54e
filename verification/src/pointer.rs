//! The pointer rules of a user interface: which kind of mouse event a move,
//! a press and a release make, and which elements receive each event.
use vstd::prelude::*;
use crate::geo::Point;
use crate::tree::ElementId;

verus! {

/// The kinds of mouse events that elements receive.
#[derive(Clone, Copy, PartialEq, Eq, Structural, Debug)]
pub enum MouseEventKind {
    MouseMove,
    MouseDragStart,
    MouseDrag,
    MouseDragEnd,
    MouseDown,
    MouseUp,
    MouseScroll,
}

/// What the interface remembers of the pointer: where it last was, the
/// elements pressed since the last release, and whether a drag is going on.
pub struct PointerState {
    pub mouse_position: Option<Point>,
    pub mouse_down_elements: Vec<ElementId>,
    pub dragging: bool,
}

/// The kind of event that a move makes, and whether a drag goes on after
/// it, when `pressed_count` elements are pressed and `dragging` tells
/// whether a drag goes on before it.
pub open spec fn moved(pressed_count: nat, dragging: bool) -> (MouseEventKind, bool) {
    if pressed_count == 0 {
        (MouseEventKind::MouseMove, dragging)
    } else if !dragging {
        (MouseEventKind::MouseDragStart, true)
    } else {
        (MouseEventKind::MouseDrag, true)
    }
}

/// The events that a release makes, in order.
pub open spec fn released(dragging: bool) -> Seq<MouseEventKind> {
    if dragging {
        seq![MouseEventKind::MouseDragEnd, MouseEventKind::MouseUp]
    } else {
        seq![MouseEventKind::MouseUp]
    }
}

impl PointerState {
    /// No position yet, nothing pressed, no drag.
    pub fn new() -> (s: Self)
        ensures
            s.mouse_position is None,
            s.mouse_down_elements@ == Seq::<ElementId>::empty(),
            !s.dragging,
    {
        PointerState { mouse_position: None, mouse_down_elements: Vec::new(), dragging: false }
    }

    /// The pointer moved to `location`: a plain move when nothing is
    /// pressed, the start of a drag on the first move while something is
    /// pressed, a drag afterwards.
    pub fn mouse_move(&mut self, location: Point) -> (kind: MouseEventKind)
        ensures
            final(self).mouse_position == Some(location),
            final(self).mouse_down_elements == old(self).mouse_down_elements,
            (kind, final(self).dragging) == moved(old(self).mouse_down_elements@.len(), old(self).dragging),
    {
        self.mouse_position = Some(location);
        if self.mouse_down_elements.len() == 0 {
            MouseEventKind::MouseMove
        } else if !self.dragging {
            self.dragging = true;
            MouseEventKind::MouseDragStart
        } else {
            MouseEventKind::MouseDrag
        }
    }

    /// The events that a release makes: the end of the drag, if one is going
    /// on, then the release; the drag is over.
    pub fn mouse_up(&mut self) -> (kinds: Vec<MouseEventKind>)
        ensures
            !final(self).dragging,
            final(self).mouse_position == old(self).mouse_position,
            final(self).mouse_down_elements == old(self).mouse_down_elements,
            kinds@ == released(old(self).dragging),
    {
        let mut kinds = Vec::new();
        if self.dragging {
            self.dragging = false;
            kinds.push(MouseEventKind::MouseDragEnd);
        }
        kinds.push(MouseEventKind::MouseUp);
        proof {
            if old(self).dragging {
                assert(kinds@ =~= seq![MouseEventKind::MouseDragEnd, MouseEventKind::MouseUp]);
            } else {
                assert(kinds@ =~= seq![MouseEventKind::MouseUp]);
            }
        }
        kinds
    }

    /// The elements that receive an event of `kind` hit at `hit` and
    /// intercepted by `intercepted`, in order: the hit element, the
    /// intercepting ones, then, for a release, a drag or the end of a drag,
    /// the elements pressed before. A release forgets the pressed elements;
    /// a press adds the hit and the intercepting elements to them.
    pub fn route(&mut self, kind: MouseEventKind, hit: Option<ElementId>, intercepted: &Vec<ElementId>) -> (targets: Vec<ElementId>)
        ensures
            (targets@, final(self).mouse_down_elements@) == routed(kind, hit, intercepted@, old(self).mouse_down_elements@),
            final(self).mouse_position == old(self).mouse_position,
            final(self).dragging == old(self).dragging,
    {
        let mut first: Vec<ElementId> = Vec::new();
        if let Some(h) = hit {
            first.push(h);
        }
        let mut i: usize = 0;
        while i < intercepted.len()
            invariant
                i <= intercepted@.len(),
                first@ == (if hit is Some { seq![hit->0] } else { Seq::<ElementId>::empty() }) + intercepted@.take(i as int),
            decreases intercepted@.len() - i,
        {
            first.push(intercepted[i]);
            proof {
                assert(intercepted@.take(i + 1) =~= intercepted@.take(i as int).push(intercepted@[i as int]));
            }
            i += 1;
        }
        proof {
            assert(intercepted@.take(i as int) =~= intercepted@);
        }
        let ghost first_v = first@;
        let mut targets = crate::ui_state::copy_ids(&first);
        match kind {
            MouseEventKind::MouseUp => {
                let mut pressed = crate::ui_state::copy_ids(&self.mouse_down_elements);
                targets.append(&mut pressed);
                self.mouse_down_elements = Vec::new();
            },
            MouseEventKind::MouseDown => {
                let mut more = first;
                self.mouse_down_elements.append(&mut more);
            },
            MouseEventKind::MouseDrag | MouseEventKind::MouseDragEnd => {
                let mut pressed = crate::ui_state::copy_ids(&self.mouse_down_elements);
                targets.append(&mut pressed);
            },
            _ => {},
        }
        targets
    }
}

/// The kind of event that the drag source widget reacts to, and the state
/// it takes: dragging from the local position on a drag start or a drag,
/// no longer dragging, at the origin, at the end of a drag.
pub fn drag_state_after(kind: MouseEventKind, local_position: Point) -> (s: Option<(bool, Point)>)
    ensures
        kind == MouseEventKind::MouseDragStart || kind == MouseEventKind::MouseDrag ==> s == Some((true, local_position)),
        kind == MouseEventKind::MouseDragEnd ==> s == Some((false, Point { x: 0, y: 0 })),
        !(kind == MouseEventKind::MouseDragStart || kind == MouseEventKind::MouseDrag || kind == MouseEventKind::MouseDragEnd)
            ==> s is None,
{
    match kind {
        MouseEventKind::MouseDragStart | MouseEventKind::MouseDrag => Some((true, local_position)),
        MouseEventKind::MouseDragEnd => Some((false, Point::new(0, 0))),
        _ => None,
    }
}

/// The look of a button: pressed, at rest, or under the pointer.
#[derive(Clone, Copy, PartialEq, Eq, Structural, Debug)]
pub enum ButtonState {
    Active,
    Inactive,
    Hovered,
}

/// The state a button takes on a mouse event, and whether the event is a
/// click: a move hovers, a press activates, a release clicks and rests.
pub fn button_state_after(kind: MouseEventKind) -> (r: (Option<ButtonState>, bool))
    ensures
        kind == MouseEventKind::MouseMove ==> r == (Some(ButtonState::Hovered), false),
        kind == MouseEventKind::MouseDown ==> r == (Some(ButtonState::Active), false),
        kind == MouseEventKind::MouseUp ==> r == (Some(ButtonState::Inactive), true),
        !(kind == MouseEventKind::MouseMove || kind == MouseEventKind::MouseDown || kind == MouseEventKind::MouseUp)
            ==> r == (None::<ButtonState>, false),
{
    match kind {
        MouseEventKind::MouseMove => (Some(ButtonState::Hovered), false),
        MouseEventKind::MouseDown => (Some(ButtonState::Active), false),
        MouseEventKind::MouseUp => (Some(ButtonState::Inactive), true),
        _ => (None, false),
    }
}

/// The targets and the pressed elements that `route` gives for an event of
/// `kind` hit at `hit` and intercepted by `intercepted`, when `pressed` were
/// pressed before.
pub open spec fn routed(
    kind: MouseEventKind,
    hit: Option<ElementId>,
    intercepted: Seq<ElementId>,
    pressed: Seq<ElementId>,
) -> (Seq<ElementId>, Seq<ElementId>) {
    let first = (if hit is Some { seq![hit->0] } else { Seq::<ElementId>::empty() }) + intercepted;
    (
        if kind == MouseEventKind::MouseUp || kind == MouseEventKind::MouseDrag || kind == MouseEventKind::MouseDragEnd {
            first + pressed
        } else {
            first
        },
        if kind == MouseEventKind::MouseUp {
            Seq::<ElementId>::empty()
        } else if kind == MouseEventKind::MouseDown {
            pressed + first
        } else {
            pressed
        },
    )
}

/// A release reaches every element that the press before it reached, after
/// the elements that the release itself hits, and then nothing is pressed.
pub proof fn law_release_reaches_pressed(
    pressed: Seq<ElementId>,
    down_hit: Option<ElementId>,
    down_intercepted: Seq<ElementId>,
    up_hit: Option<ElementId>,
    up_intercepted: Seq<ElementId>,
)
    ensures
        ({
            let (down_targets, after_down) = routed(MouseEventKind::MouseDown, down_hit, down_intercepted, pressed);
            let (up_targets, after_up) = routed(MouseEventKind::MouseUp, up_hit, up_intercepted, after_down);
            &&& forall|e: ElementId| #[trigger] down_targets.contains(e) ==> up_targets.contains(e)
            &&& after_up.len() == 0
        }),
{
    let (down_targets, after_down) = routed(MouseEventKind::MouseDown, down_hit, down_intercepted, pressed);
    let (up_targets, after_up) = routed(MouseEventKind::MouseUp, up_hit, up_intercepted, after_down);
    let up_first = (if up_hit is Some { seq![up_hit->0] } else { Seq::<ElementId>::empty() }) + up_intercepted;
    assert forall|e: ElementId| #[trigger] down_targets.contains(e) implies up_targets.contains(e) by {
        let j = choose|j: int| 0 <= j < down_targets.len() && down_targets[j] == e;
        assert(after_down[pressed.len() + j] == e);
        assert(up_targets[up_first.len() + pressed.len() + j] == e);
    }
}

/// A move while something is pressed and no drag is going on starts a drag,
/// and the release after it ends the drag before releasing.
pub proof fn law_drag_is_ended_on_release(pressed_count: nat)
    requires
        pressed_count > 0,
    ensures
        moved(pressed_count, false) == (MouseEventKind::MouseDragStart, true),
        released(moved(pressed_count, false).1) == seq![MouseEventKind::MouseDragEnd, MouseEventKind::MouseUp],
        released(false) == seq![MouseEventKind::MouseUp],
{
}

/// A drag, a drag end and a release reach, after the hit element and the
/// intercepting ones, in that order, every element pressed before them,
/// in the order they were pressed; nothing else.
pub proof fn law_pressed_elements_receive_drags_and_releases(
    kind: MouseEventKind,
    hit: Option<ElementId>,
    intercepted: Seq<ElementId>,
    pressed: Seq<ElementId>,
)
    requires
        kind == MouseEventKind::MouseDrag || kind == MouseEventKind::MouseDragEnd || kind == MouseEventKind::MouseUp,
    ensures
        ({
            let targets = routed(kind, hit, intercepted, pressed).0;
            let h: int = if hit is Some { 1 } else { 0 };
            &&& targets.len() == h + intercepted.len() + pressed.len()
            &&& hit is Some ==> targets[0] == hit->0
            &&& forall|j: int| 0 <= j < intercepted.len() ==> targets[h + j] == intercepted[j]
            &&& forall|j: int| 0 <= j < pressed.len() ==> targets[h + intercepted.len() + j] == pressed[j]
        }),
{
}

/// A move and a scroll reach only the hit element and the intercepting ones,
/// and a press adds exactly those to the pressed elements, after the ones
/// pressed before.
pub proof fn law_moves_and_presses_reach_what_they_hit(
    kind: MouseEventKind,
    hit: Option<ElementId>,
    intercepted: Seq<ElementId>,
    pressed: Seq<ElementId>,
)
    requires
        kind == MouseEventKind::MouseMove || kind == MouseEventKind::MouseDown || kind == MouseEventKind::MouseScroll
            || kind == MouseEventKind::MouseDragStart,
    ensures
        ({
            let (targets, after) = routed(kind, hit, intercepted, pressed);
            let h: int = if hit is Some { 1 } else { 0 };
            &&& targets.len() == h + intercepted.len()
            &&& hit is Some ==> targets[0] == hit->0
            &&& forall|j: int| 0 <= j < intercepted.len() ==> targets[h + j] == intercepted[j]
            &&& kind == MouseEventKind::MouseDown ==> after.len() == pressed.len() + targets.len()
                && after.take(pressed.len() as int) == pressed
                && after.skip(pressed.len() as int) == targets
            &&& kind != MouseEventKind::MouseDown ==> after == pressed
        }),
{
    let (targets, after) = routed(kind, hit, intercepted, pressed);
    if kind == MouseEventKind::MouseDown {
        assert(after.take(pressed.len() as int) =~= pressed);
        assert(after.skip(pressed.len() as int) =~= targets);
    }
}

} // verus!
