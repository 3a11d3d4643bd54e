//! What an element sees while it handles a message or an event: its id, the
//! tree, and the messages it sends to other elements.
use vstd::prelude::*;
use crate::tree::{ElementId, Tree};
use crate::ui_message::UIMessage;

verus! {

/// The context of the element `id` of a tree.
pub struct UIContext<'a, T> {
    id: ElementId,
    element_tree: &'a Tree<T>,
    ui_messages: Vec<UIMessage>,
}

impl<'a, T> UIContext<'a, T> {
    pub closed spec fn id_spec(&self) -> ElementId {
        self.id
    }

    pub closed spec fn tree_spec(&self) -> Tree<T> {
        *self.element_tree
    }

    /// The messages sent so far, in order.
    pub closed spec fn messages(&self) -> Seq<UIMessage> {
        self.ui_messages@
    }

    /// A context that has sent no message yet.
    pub fn new(id: ElementId, element_tree: &'a Tree<T>) -> (c: Self)
        ensures
            c.id_spec() == id,
            c.tree_spec() == *element_tree,
            c.messages() == Seq::<UIMessage>::empty(),
    {
        UIContext { id, element_tree, ui_messages: Vec::new() }
    }

    /// Sends `message` to another element.
    pub fn send_internal_message(&mut self, message: UIMessage)
        ensures
            final(self).messages() == old(self).messages().push(message),
            final(self).id_spec() == old(self).id_spec(),
            final(self).tree_spec() == old(self).tree_spec(),
    {
        self.ui_messages.push(message);
    }

    /// The messages sent, taking the context apart.
    pub fn ui_messages(self) -> (m: Vec<UIMessage>)
        ensures
            m@ == self.messages(),
    {
        self.ui_messages
    }

    pub fn id(&self) -> (id: ElementId)
        ensures
            id == self.id_spec(),
    {
        self.id
    }

    /// The id of the child at `index` of this element.
    pub fn child_id(&self, index: usize) -> (c: ElementId)
        requires
            self.tree_spec()@.contains_key(self.id_spec()),
            index < self.tree_spec()@[self.id_spec()].children@.len(),
        ensures
            c == self.tree_spec()@[self.id_spec()].children@[index as int],
    {
        let node = self.element_tree.get(self.id).unwrap();
        node.children[index]
    }
}

} // verus!
