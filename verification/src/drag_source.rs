//! What a drag carries: the items dragged, each an element or a widget `W`
//! with optional data `D`.
use vstd::prelude::*;
use crate::tree::ElementId;

verus! {

/// What stands for a dragged item: an existing element or a widget to show.
pub enum DragSourceWidget<W> {
    Id(ElementId),
    Widget(W),
}

/// A dragged item.
pub struct DragSourceItem<W, D> {
    widget: DragSourceWidget<W>,
    data: Option<D>,
}

impl<W, D> DragSourceItem<W, D> {
    pub closed spec fn widget_spec(&self) -> DragSourceWidget<W> {
        self.widget
    }

    pub closed spec fn data_spec(&self) -> Option<D> {
        self.data
    }

    pub fn widget(&self) -> (w: &DragSourceWidget<W>)
        ensures
            *w == self.widget_spec(),
    {
        &self.widget
    }

    /// An item without data.
    pub fn new(widget: DragSourceWidget<W>) -> (i: Self)
        ensures
            i.widget_spec() == widget,
            i.data_spec() is None,
    {
        DragSourceItem { widget, data: None }
    }

    /// The item's data, if any.
    pub fn data(&self) -> (d: &Option<D>)
        ensures
            *d == self.data_spec(),
    {
        &self.data
    }
}

/// The items of a drag, in order.
pub struct DragSourceData<W, D> {
    items: Vec<DragSourceItem<W, D>>,
}

impl<W, D> DragSourceData<W, D> {
    pub closed spec fn items_spec(&self) -> Seq<DragSourceItem<W, D>> {
        self.items@
    }

    /// A drag of no items.
    pub fn new() -> (d: Self)
        ensures
            d.items_spec() == Seq::<DragSourceItem<W, D>>::empty(),
    {
        DragSourceData { items: Vec::new() }
    }

    /// The drag with `item` added last.
    pub fn with_item(self, item: DragSourceItem<W, D>) -> (d: Self)
        ensures
            d.items_spec() == self.items_spec().push(item),
    {
        let mut d = self;
        d.items.push(item);
        d
    }

    pub fn items(&self) -> (s: &[DragSourceItem<W, D>])
        ensures
            s@ == self.items_spec(),
    {
        self.items.as_slice()
    }
}

impl<W, D> Default for DragSourceData<W, D> {
    fn default() -> (d: Self)
        ensures
            d.items_spec() == Seq::<DragSourceItem<W, D>>::empty(),
    {
        Self::new()
    }
}

} // verus!
