//! What a widget sees while it sizes itself and lays out its children.
use std::collections::HashMap;
use vstd::prelude::*;
use crate::geo::{Point, Rect, Size};
use crate::tree::{ElementId, Tree};
use crate::ui_state::UIState;
use crate::value::Var;

verus! {

broadcast use vstd::std_specs::hash::group_hash_axioms;

/// The context of sizing the element `id` of a tree.
pub struct SizeCtx<'a, T> {
    id: ElementId,
    element_tree: &'a Tree<T>,
}

impl<'a, T> SizeCtx<'a, T> {
    pub closed spec fn id_spec(&self) -> ElementId {
        self.id
    }

    pub closed spec fn tree_spec(&self) -> Tree<T> {
        *self.element_tree
    }

    pub fn new(id: ElementId, element_tree: &'a Tree<T>) -> (c: Self)
        ensures
            c.id_spec() == id,
            c.tree_spec() == *element_tree,
    {
        SizeCtx { id, element_tree }
    }

    pub fn id(&self) -> (id: ElementId)
        ensures
            id == self.id_spec(),
    {
        self.id
    }

    pub fn element_tree(&self) -> (t: &'a Tree<T>)
        ensures
            *t == self.tree_spec(),
    {
        self.element_tree
    }
}

/// The context of laying out the children of the element `id`: the bounds
/// given so far to each child, relative to the element.
pub struct LayoutCtx<'a, T> {
    id: ElementId,
    element_tree: &'a Tree<T>,
    ui_state: &'a UIState,
    bounds: HashMap<ElementId, Rect>,
}

impl<'a, T> LayoutCtx<'a, T> {
    pub closed spec fn id_spec(&self) -> ElementId {
        self.id
    }

    pub closed spec fn tree_spec(&self) -> Tree<T> {
        *self.element_tree
    }

    pub closed spec fn ui_state_spec(&self) -> UIState {
        *self.ui_state
    }

    /// The bounds given so far, by child id.
    pub closed spec fn bounds_spec(&self) -> Map<ElementId, Rect> {
        self.bounds@
    }

    /// A context where no child has bounds yet.
    pub fn new(id: ElementId, element_tree: &'a Tree<T>, ui_state: &'a UIState) -> (c: Self)
        ensures
            c.id_spec() == id,
            c.tree_spec() == *element_tree,
            c.ui_state_spec() == *ui_state,
            c.bounds_spec() == Map::<ElementId, Rect>::empty(),
    {
        LayoutCtx { id, element_tree, bounds: HashMap::new(), ui_state }
    }

    pub fn id(&self) -> (id: ElementId)
        ensures
            id == self.id_spec(),
    {
        self.id
    }

    pub fn element_tree(&self) -> (t: &'a Tree<T>)
        ensures
            *t == self.tree_spec(),
    {
        self.element_tree
    }

    /// The value bound to `name` in the UI state, if any.
    pub fn binding(&self, name: &str) -> (v: Option<&Var>)
        ensures
            v is Some <==> self.ui_state_spec().values().contains_key(name@),
            v is Some ==> *v->0 == self.ui_state_spec().values()[name@],
    {
        self.ui_state.get(name)
    }

    /// The bounds given to the children, taking the context apart.
    pub fn bounds(self) -> (b: HashMap<ElementId, Rect>)
        ensures
            b@ == self.bounds_spec(),
    {
        self.bounds
    }

    /// Gives the child `id` the bounds `rect`.
    pub fn set_child_bounds(&mut self, id: ElementId, rect: Rect)
        ensures
            final(self).bounds_spec() == old(self).bounds_spec().insert(id, rect),
            final(self).id_spec() == old(self).id_spec(),
            final(self).tree_spec() == old(self).tree_spec(),
            final(self).ui_state_spec() == old(self).ui_state_spec(),
    {
        self.bounds.insert(id, rect);
    }

    /// Moves the child `id` to `position`, keeping its size; a child with
    /// no bounds yet gets an empty size there.
    pub fn set_child_position(&mut self, id: ElementId, position: Point)
        ensures
            final(self).bounds_spec() == old(self).bounds_spec().insert(
                id,
                Rect {
                    position,
                    size: if old(self).bounds_spec().contains_key(id) {
                        old(self).bounds_spec()[id].size
                    } else {
                        Size { width: 0, height: 0 }
                    },
                },
            ),
            final(self).id_spec() == old(self).id_spec(),
            final(self).tree_spec() == old(self).tree_spec(),
            final(self).ui_state_spec() == old(self).ui_state_spec(),
    {
        let current = match self.bounds.get(&id) {
            Some(b) => *b,
            None => Rect::new(position, Size::new(0, 0)),
        };
        let mut moved = current;
        moved.set_position(position);
        self.bounds.insert(id, moved);
    }
}

} // verus!
