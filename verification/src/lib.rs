//! The core of a retained-mode user interface: an arena tree of elements,
//! the shared UI state with its bindings, values, messages, and the layout
//! and input-routing rules that the widgets rely on.

pub mod geo;
pub mod tree;
pub mod strmap;
pub mod value;
pub mod ui_state;
pub mod ui_message;
pub mod window_request;
pub mod drag_source;
pub mod animation;
pub mod build_ctx;
pub mod layout_ctx;
pub mod ui_ctx;
pub mod widget_element;
pub mod tree_builder;
pub mod layout;
pub mod hit_test;
pub mod pointer;
pub mod rebuild;
pub mod dot;
pub mod widgets;
