use vstd::prelude::*;
use vstd::string::StringExecFns;

use crate::doc::Doc;
use crate::err::Error;
use crate::model::{
    delta, depth, lemma_depth_push, lemma_never_negative_push, never_negative, NodeView,
};
use crate::Node;

verus! {

/// Assembles a [`Doc`], keeping track of the scopes that are still open.
pub struct Builder {
    nodes: Vec<Node>,
    scope_stack: Vec<Option<String>>,
}

/// What a builder holds: the elements appended so far, and for each open
/// scope, innermost last, the line that closes it if any.
pub struct BuilderView {
    pub nodes: Seq<NodeView>,
    pub pending: Seq<Option<Seq<char>>>,
}

pub open spec fn opt_view(t: Option<String>) -> Option<Seq<char>> {
    match t {
        Some(s) => Some(s@),
        None => None,
    }
}

impl View for Builder {
    type V = BuilderView;

    closed spec fn view(&self) -> BuilderView {
        BuilderView {
            nodes: self.nodes@.map_values(|n: Node| n@),
            pending: self.scope_stack@.map_values(|t: Option<String>| opt_view(t)),
        }
    }
}

impl Builder {
    /// No prefix closes a scope that was not opened, and one pending
    /// terminator is kept for each scope still open.
    pub open spec fn wf(&self) -> bool {
        &&& never_negative(self@.nodes)
        &&& depth(self@.nodes) == self@.pending.len()
    }

    /// A builder with no elements and no open scope.
    pub fn new() -> (r: Builder)
        ensures
            r@.nodes == Seq::<NodeView>::empty(),
            r@.pending == Seq::<Option<Seq<char>>>::empty(),
            r.wf(),
    {
        let r = Builder { nodes: Vec::new(), scope_stack: Vec::new() };
        assert(r@.nodes =~= Seq::<NodeView>::empty());
        assert(r@.pending =~= Seq::<Option<Seq<char>>>::empty());
        assert(r@.nodes.take(0) =~= r@.nodes);
        r
    }

    /// Appends `x` to the elements, leaving the pending terminators as they are.
    fn append(&mut self, x: Node)
        requires
            never_negative(old(self)@.nodes),
            depth(old(self)@.nodes) + delta(x@) >= 0,
        ensures
            final(self)@.nodes == old(self)@.nodes.push(x@),
            final(self)@.pending == old(self)@.pending,
            never_negative(final(self)@.nodes),
            depth(final(self)@.nodes) == depth(old(self)@.nodes) + delta(x@),
    {
        let ghost old_nodes = self@.nodes;
        let ghost xv = x@;
        self.nodes.push(x);
        assert(self@.nodes =~= old_nodes.push(xv));
        proof {
            lemma_depth_push(old_nodes, xv);
            lemma_never_negative_push(old_nodes, xv);
        }
    }

    /// Opens a scope whose first line is `begin_line`; `term_line`, if given,
    /// is the line that [`Builder::exit`] will write when it closes the scope.
    pub fn scope(&mut self, begin_line: &str, term_line: Option<&str>) -> (r: &mut Builder)
        requires
            old(self).wf(),
        ensures
            *final(self) == *final(r),
            r.wf(),
            r@.nodes == old(self)@.nodes.push(NodeView::BeginScope(begin_line@)),
            r@.pending == old(self)@.pending.push(
                match term_line {
                    Some(t) => Some(t@),
                    None => None,
                },
            ),
    {
        self.append(Node::BeginScope(String::from_str(begin_line)));
        let t = match term_line {
            Some(t) => Some(String::from_str(t)),
            None => None,
        };
        let ghost old_pending = self@.pending;
        let ghost tv = opt_view(t);
        self.scope_stack.push(t);
        assert(self@.pending =~= old_pending.push(tv));
        self
    }

    /// Closes the innermost open scope, writing the terminator line given
    /// when it was opened, if any.
    pub fn exit(&mut self) -> (r: &mut Builder)
        requires
            old(self).wf(),
            old(self)@.pending.len() > 0,
        ensures
            *final(self) == *final(r),
            r.wf(),
            r@.nodes == old(self)@.nodes.push(NodeView::EndScope(old(self)@.pending.last())),
            r@.pending == old(self)@.pending.drop_last(),
    {
        let ghost old_pending = self@.pending;
        let t = self.scope_stack.pop().unwrap();
        assert(self@.pending =~= old_pending.drop_last());
        self.append(Node::EndScope(t));
        self
    }
    /// Closes the innermost open scope with `line`, in place of the
    /// terminator given when it was opened.
    pub fn exit_line(&mut self, line: &str) -> (r: &mut Builder)
        requires
            old(self).wf(),
            old(self)@.pending.len() > 0,
        ensures
            *final(self) == *final(r),
            r.wf(),
            r@.nodes == old(self)@.nodes.push(NodeView::EndScope(Some(line@))),
            r@.pending == old(self)@.pending.drop_last(),
    {
        let ghost old_pending = self@.pending;
        let _ = self.scope_stack.pop().unwrap();
        assert(self@.pending =~= old_pending.drop_last());
        self.append(Node::EndScope(Some(String::from_str(line))));
        self
    }

    /// Adds a line at the current scope.
    pub fn line(&mut self, line: &str) -> (r: &mut Builder)
        requires
            old(self).wf(),
        ensures
            *final(self) == *final(r),
            r.wf(),
            r@.nodes == old(self)@.nodes.push(NodeView::Line(line@)),
            r@.pending == old(self)@.pending,
    {
        self.append(Node::Line(String::from_str(line)));
        self
    }

    /// Adds a reference to the document registered as `name`, which renders
    /// as nothing where no such document is registered.
    pub fn optref(&mut self, name: &str) -> (r: &mut Builder)
        requires
            old(self).wf(),
        ensures
            *final(self) == *final(r),
            r.wf(),
            r@.nodes == old(self)@.nodes.push(NodeView::OptRef(name@)),
            r@.pending == old(self)@.pending,
    {
        self.append(Node::OptRef(String::from_str(name)));
        self
    }

    /// Adds a reference to the document registered as `name`, which must be
    /// registered when the document is rendered.
    pub fn reqref(&mut self, name: &str) -> (r: &mut Builder)
        requires
            old(self).wf(),
        ensures
            *final(self) == *final(r),
            r.wf(),
            r@.nodes == old(self)@.nodes.push(NodeView::ReqRef(name@)),
            r@.pending == old(self)@.pending,
    {
        self.append(Node::ReqRef(String::from_str(name)));
        self
    }

    /// The document assembled so far, provided that every scope is closed;
    /// otherwise the number of scopes still open.
    pub fn build(self) -> (r: Result<Doc, Error>)
        requires
            self.wf(),
        ensures
            self@.pending.len() == depth(self@.nodes),
            r is Ok <==> self@.pending.len() == 0,
            r matches Ok(d) ==> d@ == self@.nodes && d.wf(),
            r matches Err(e) ==> e == Error::BadNesting(self@.pending.len() as usize),
    {
        if self.scope_stack.len() == 0 {
            Ok(Doc::from_nodes(self.nodes))
        } else {
            Err(Error::BadNesting(self.scope_stack.len()))
        }
    }
}

} // verus!
