//! The data of an element of a widget tree: its widget `W` and its state `S`.
use vstd::prelude::*;

verus! {

/// An element: a widget and, once it has one, its state.
pub struct WidgetElement<W, S> {
    widget: W,
    widget_state: Option<S>,
}

impl<W, S> WidgetElement<W, S> {
    pub closed spec fn widget_spec(&self) -> W {
        self.widget
    }

    pub closed spec fn state_spec(&self) -> Option<S> {
        self.widget_state
    }

    /// An element of `widget`, without state.
    pub fn new(widget: W) -> (e: Self)
        ensures
            e.widget_spec() == widget,
            e.state_spec() is None,
    {
        WidgetElement { widget, widget_state: None }
    }

    pub fn widget(&self) -> (w: &W)
        ensures
            *w == self.widget_spec(),
    {
        &self.widget
    }

    /// The widget, taking the element apart.
    pub fn into_widget(self) -> (w: W)
        ensures
            w == self.widget_spec(),
    {
        self.widget
    }

    pub fn widget_state(&self) -> (s: &Option<S>)
        ensures
            *s == self.state_spec(),
    {
        &self.widget_state
    }

    pub fn widget_state_mut(&mut self) -> (s: &mut Option<S>)
        ensures
            *s == old(self).state_spec(),
            final(self).state_spec() == *final(s),
            final(self).widget_spec() == old(self).widget_spec(),
    {
        &mut self.widget_state
    }

    pub fn set_state(&mut self, state: Option<S>)
        ensures
            final(self).state_spec() == state,
            final(self).widget_spec() == old(self).widget_spec(),
    {
        self.widget_state = state
    }
}

} // verus!
