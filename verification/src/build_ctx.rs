//! What a widget sees while it builds its children.
use std::collections::HashMap;
use vstd::prelude::*;
use std::time::Duration;
use crate::animation::{AnimationId, AnimationRequest, copy_requests};
use crate::tree::ElementId;
use crate::ui_state::UIState;
use crate::value::Var;

verus! {

broadcast use vstd::std_specs::hash::group_hash_axioms;

/// The context of building the element `id`: its state `S`, the UI state,
/// and the animations that the build asks for.
pub struct BuildCtx<'a, S> {
    pub id: ElementId,
    ui_state: &'a UIState,
    animation_requests: Vec<AnimationRequest>,
    widget_state: Option<S>,
}

impl<'a, S> BuildCtx<'a, S> {
    /// The element being built.
    pub closed spec fn id_spec(&self) -> ElementId {
        self.id
    }

    pub closed spec fn ui_state_spec(&self) -> UIState {
        *self.ui_state
    }

    pub closed spec fn requests(&self) -> Seq<AnimationRequest> {
        self.animation_requests@
    }

    pub closed spec fn state_spec(&self) -> Option<S> {
        self.widget_state
    }

    /// A context with no animation requested yet.
    pub fn new(id: ElementId, widget_state: Option<S>, ui_state: &'a UIState) -> (c: Self)
        ensures
            c.id_spec() == id,
            c.state_spec() == widget_state,
            c.ui_state_spec() == *ui_state,
            c.requests() == Seq::<AnimationRequest>::empty(),
    {
        BuildCtx { id, widget_state, ui_state, animation_requests: Vec::new() }
    }

    /// The state of the element being built, if it has one.
    pub fn state(&self) -> (s: Option<&S>)
        ensures
            s is Some <==> self.state_spec() is Some,
            s is Some ==> *s->0 == self.state_spec()->0,
    {
        match &self.widget_state {
            Some(s) => Some(s),
            None => None,
        }
    }

    /// The value bound to `name` in the UI state, if any.
    pub fn bind(&mut self, name: &str) -> (v: Option<&Var>)
        ensures
            v is Some <==> old(self).ui_state_spec().values().contains_key(name@),
            v is Some ==> *v->0 == old(self).ui_state_spec().values()[name@],
            final(self).id_spec() == old(self).id_spec(),
            final(self).requests() == old(self).requests(),
            final(self).state_spec() == old(self).state_spec(),
            final(self).ui_state_spec() == old(self).ui_state_spec(),
    {
        self.ui_state.get(name)
    }

    pub fn ui_state(&self) -> (s: &UIState)
        ensures
            *s == self.ui_state_spec(),
    {
        self.ui_state
    }

    /// Asks for an animation of the element's painter.
    pub fn request_painter_animation(&mut self, id: AnimationId, duration: Duration)
        ensures
            final(self).requests() == old(self).requests().push(AnimationRequest::Painter(id, duration)),
            final(self).id_spec() == old(self).id_spec(),
            final(self).state_spec() == old(self).state_spec(),
            final(self).ui_state_spec() == old(self).ui_state_spec(),
    {
        self.animation_requests.push(AnimationRequest::Painter(id, duration));
    }

    /// Asks for an animation of the element's widget.
    pub fn request_widget_animation(&mut self, id: AnimationId, duration: Duration)
        ensures
            final(self).requests() == old(self).requests().push(AnimationRequest::Widget(id, duration)),
            final(self).id_spec() == old(self).id_spec(),
            final(self).state_spec() == old(self).state_spec(),
            final(self).ui_state_spec() == old(self).ui_state_spec(),
    {
        self.animation_requests.push(AnimationRequest::Widget(id, duration));
    }

    /// The animations asked for so far, in order.
    pub fn animation_requests(&self) -> (r: Vec<AnimationRequest>)
        ensures
            r@ == self.requests(),
    {
        copy_requests(&self.animation_requests)
    }
}

/// What building a tree asked for: the animations of each element and the
/// names each element is bound to.
pub struct BuildResult {
    pub animation_requests: HashMap<ElementId, Vec<AnimationRequest>>,
    pub binds: HashMap<ElementId, Vec<String>>,
}

impl BuildResult {
    /// Records what building the element `id` asked for; nothing is kept of
    /// an empty list.
    pub fn record(&mut self, id: ElementId, animation_requests: Vec<AnimationRequest>, binds: Vec<String>)
        ensures
            final(self).animation_requests@ == if animation_requests@.len() > 0 {
                old(self).animation_requests@.insert(id, animation_requests)
            } else {
                old(self).animation_requests@
            },
            final(self).binds@ == if binds@.len() > 0 {
                old(self).binds@.insert(id, binds)
            } else {
                old(self).binds@
            },
    {
        if animation_requests.len() > 0 {
            self.animation_requests.insert(id, animation_requests);
        }
        if binds.len() > 0 {
            self.binds.insert(id, binds);
        }
    }
}

impl Default for BuildResult {
    fn default() -> (r: Self)
        ensures
            r.animation_requests@ == Map::<ElementId, Vec<AnimationRequest>>::empty(),
            r.binds@ == Map::<ElementId, Vec<String>>::empty(),
    {
        BuildResult { animation_requests: HashMap::new(), binds: HashMap::new() }
    }
}

} // verus!
