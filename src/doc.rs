use vstd::prelude::*;

use crate::model::{balanced, NodeView};
use crate::Node;

verus! {

/// An immutable sequence of lines, scopes and references to other documents.
///
/// Every document has balanced scopes.
pub struct Doc {
    nodes: Vec<Node>,
}

impl View for Doc {
    type V = Seq<NodeView>;

    closed spec fn view(&self) -> Seq<NodeView> {
        self.nodes@.map_values(|n: Node| n@)
    }
}

impl Doc {
    /// A document well formed: its scopes are balanced.
    pub open spec fn wf(&self) -> bool {
        balanced(self@)
    }

    /// An empty document.
    pub fn new() -> (r: Doc)
        ensures
            r@ == Seq::<NodeView>::empty(),
            r.wf(),
    {
        let r = Doc { nodes: Vec::new() };
        assert(r@ =~= Seq::<NodeView>::empty());
        assert(r@.take(0) =~= r@);
        r
    }

    /// A document holding `nodes`, whose scopes are balanced.
    pub(crate) fn from_nodes(nodes: Vec<Node>) -> (r: Doc)
        requires
            balanced(nodes@.map_values(|n: Node| n@)),
        ensures
            r@ == nodes@.map_values(|n: Node| n@),
            r.wf(),
    {
        Doc { nodes }
    }

    /// Number of elements.
    pub(crate) fn len(&self) -> (r: usize)
        ensures
            r == self@.len(),
    {
        self.nodes.len()
    }

    /// Element at position `i`.
    pub(crate) fn node(&self, i: usize) -> (r: &Node)
        requires
            i < self@.len(),
        ensures
            r@ == self@[i as int],
    {
        &self.nodes[i]
    }
}

} // verus!
