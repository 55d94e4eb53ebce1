//! Indented, scoped text documents assembled from reusable fragments.
//!
//! A [`Builder`] assembles a [`Doc`] whose scopes are properly nested; a
//! [`RenderContext`] registers documents under names and renders one of them,
//! inlining the documents that it references, into a single string.
use vstd::prelude::*;

mod builder;
mod doc;
mod err;
pub mod laws;
pub mod model;
mod render;

pub use builder::Builder;
pub use builder::BuilderView;
pub use doc::Doc;
pub use err::Error;
pub use model::NodeView;
pub use render::RenderContext;

verus! {

/// One element of a document.
pub enum Node {
    Line(String),
    BeginScope(String),
    EndScope(Option<String>),
    OptRef(String),
    ReqRef(String),
}

impl View for Node {
    type V = NodeView;

    open spec fn view(&self) -> NodeView {
        match self {
            Node::Line(s) => NodeView::Line(s@),
            Node::BeginScope(s) => NodeView::BeginScope(s@),
            Node::EndScope(t) => NodeView::EndScope(
                match t {
                    Some(s) => Some(s@),
                    None => None,
                },
            ),
            Node::OptRef(n) => NodeView::OptRef(n@),
            Node::ReqRef(n) => NodeView::ReqRef(n@),
        }
    }
}

} // verus!
