//! A request to open a window showing a user interface.
use vstd::prelude::*;

verus! {

/// A request for a window of a given size, with an optional title and an
/// optional builder `B` of the interface it shows.
pub struct WindowRequest<B> {
    pub width: u32,
    pub height: u32,
    pub title: Option<String>,
    pub builder: Option<B>,
}

impl<B> WindowRequest<B> {
    /// The builder of the interface, if one was given.
    pub closed spec fn builder_spec(&self) -> Option<B> {
        self.builder
    }

    /// A request for a window of the given size, without title or builder.
    pub fn new(width: u32, height: u32) -> (r: Self)
        ensures
            r.width == width,
            r.height == height,
            r.title is None,
            r.builder_spec() is None,
    {
        WindowRequest { width, height, title: None, builder: None }
    }

    /// The request with the given title.
    pub fn with_title(self, title: &str) -> (r: Self)
        ensures
            r.width == self.width,
            r.height == self.height,
            r.title is Some && r.title->0@ == title@,
            r.builder_spec() == self.builder_spec(),
    {
        let mut r = self;
        r.title = Some(title.to_owned());
        r
    }

    /// The request with `builder` as the builder of its interface.
    pub fn with_ui<F>(self, builder: F) -> (r: WindowRequest<F>)
        ensures
            r.width == self.width,
            r.height == self.height,
            r.title == self.title,
            r.builder_spec() == Some(builder),
    {
        WindowRequest { width: self.width, height: self.height, title: self.title, builder: Some(builder) }
    }

    /// The builder of the interface, if one was given.
    pub fn builder(&self) -> (b: &Option<B>)
        ensures
            *b == self.builder_spec(),
    {
        &self.builder
    }
}

} // verus!
