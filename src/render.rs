use std::sync::Arc;

use vstd::prelude::*;
use vstd::string::{StrSliceExecFns, StringExecFns};

use crate::doc::Doc;
use crate::err::Error;
use crate::model::{
    balanced, depth, expand, lemma_layout_len, lemma_layout_push, lemma_then_assoc,
    lemma_then_empty, layout, never_negative, pad, ref_name, rendered, root_budget, text_line,
    then, work, Expansion, Fault, NodeView,
};
use crate::Node;

verus! {

/// Documents registered by name, and the engine that renders one of them.
pub struct RenderContext {
    unit: String,
    entries: Vec<(String, Arc<Doc>)>,
    docs: Ghost<Map<Seq<char>, Seq<NodeView>>>,
}

impl View for RenderContext {
    type V = Map<Seq<char>, Seq<NodeView>>;

    closed spec fn view(&self) -> Map<Seq<char>, Seq<NodeView>> {
        self.docs@
    }
}

/// Writes `t` on a line of its own, indented `d` times by `unit`.
fn write_line(out: &mut String, unit: &String, d: usize, t: &String)
    ensures
        final(out)@ == old(out)@ + text_line(unit@, d as int, t@),
{
    let ghost start = out@;
    let mut k: usize = 0;
    while k < d
        invariant
            k <= d,
            out@ == start + pad(unit@, k as int),
        decreases d - k,
    {
        out.append(unit.as_str());
        assert(start + pad(unit@, k as int) + unit@ =~= start + pad(unit@, k + 1));
        k = k + 1;
    }
    out.append(t.as_str());
    out.append("\n");
    proof {
        reveal_strlit("\n");
    }
    assert(out@ =~= start + text_line(unit@, d as int, t@));
}

impl RenderContext {
    /// The text that indents a line by one level.
    pub closed spec fn indent_unit(&self) -> Seq<char> {
        self.unit@
    }

    /// Each registered name appears in exactly one entry, which holds the
    /// document registered under it; every registered document is balanced.
    pub closed spec fn wf(&self) -> bool {
        &&& self.docs@.dom().finite()
        &&& self.docs@.dom().len() == self.entries@.len()
        &&& forall|i: int|
            0 <= i < self.entries@.len() ==> self.docs@.contains_key(#[trigger] self.entries@[i].0@)
                && self.docs@[self.entries@[i].0@] == self.entries@[i].1@
        &&& forall|k: Seq<char>|
            #[trigger] self.docs@.contains_key(k) ==> exists|i: int|
                0 <= i < self.entries@.len() && #[trigger] self.entries@[i].0@ == k
        &&& forall|i: int, j: int|
            0 <= i < self.entries@.len() && 0 <= j < self.entries@.len() && #[trigger] self.entries@[i].0@
                == #[trigger] self.entries@[j].0@ ==> i == j
        &&& forall|k: Seq<char>| #[trigger] self.docs@.contains_key(k) ==> balanced(self.docs@[k])
    }

    /// A context with no documents, indenting by two spaces.
    pub fn new() -> (r: RenderContext)
        ensures
            r.wf(),
            r@ == Map::<Seq<char>, Seq<NodeView>>::empty(),
            r.indent_unit() == seq![' ', ' '],
    {
        let unit = String::from_str("  ");
        proof {
            reveal_strlit("  ");
        }
        let r = RenderContext { unit, entries: Vec::new(), docs: Ghost(Map::empty()) };
        assert(r.docs@.dom() =~= Set::<Seq<char>>::empty());
        r
    }

    /// Position of the entry registered as `name`.
    fn find(&self, name: &String) -> (r: Option<usize>)
        requires
            self.wf(),
        ensures
            match r {
                Some(i) => i < self.entries@.len() && self.entries@[i as int].0@ == name@,
                None => !self@.contains_key(name@),
            },
    {
        let mut i: usize = 0;
        while i < self.entries.len()
            invariant
                i <= self.entries@.len(),
                forall|j: int| 0 <= j < i ==> self.entries@[j].0@ != name@,
            decreases self.entries@.len() - i,
        {
            if self.entries[i].0 == *name {
                return Some(i);
            }
            i = i + 1;
        }
        None
    }

    /// Registers `doc` under `id`, replacing any document registered under it.
    pub fn doc(&mut self, id: &str, doc: Arc<Doc>)
        requires
            old(self).wf(),
            doc.wf(),
        ensures
            final(self).wf(),
            final(self)@ == old(self)@.insert(id@, doc@),
            final(self).indent_unit() == old(self).indent_unit(),
    {
        let key = String::from_str(id);
        let ghost docs = self.docs@;
        let ghost old_entries = self.entries@;
        let ghost dv = doc@;
        let ghost pos: int;
        match self.find(&key) {
            Some(i) => {
                let _ = self.entries.remove(i);
                self.entries.insert(i, (key, doc));
                proof {
                    pos = i as int;
                }
                assert(self.entries@ =~= old_entries.update(pos, self.entries@[pos]));
                assert(docs.dom().insert(id@) =~= docs.dom());
            },
            None => {
                self.entries.push((key, doc));
                proof {
                    pos = old_entries.len() as int;
                }
                assert(self.entries@ =~= old_entries.push(self.entries@[pos]));
            },
        }
        self.docs = Ghost(docs.insert(id@, dv));
        assert forall|k: Seq<char>| #[trigger] self.docs@.contains_key(k) implies exists|i: int|
            0 <= i < self.entries@.len() && #[trigger] self.entries@[i].0@ == k by {
            if k != id@ {
                let j = choose|j: int| 0 <= j < old_entries.len() && #[trigger] old_entries[j].0@ == k;
                assert(self.entries@[j].0@ == k);
            } else {
                assert(self.entries@[pos].0@ == k);
            }
        }
    }

    /// Elements of the document that frame `f` walks.
    closed spec fn frame_nodes(&self, f: (usize, usize)) -> Seq<NodeView> {
        self.entries@[f.0 as int].1@
    }

    /// Documents that may still be nested below a frame at `level`.
    closed spec fn budget(&self, level: int) -> nat {
        (self.entries@.len() - 1 - level) as nat
    }

    /// Each frame walks a registered document and stands within it.
    closed spec fn frames_ok(&self, st: Seq<(usize, usize)>) -> bool {
        forall|i: int|
            0 <= i < st.len() ==> (#[trigger] st[i]).0 < self.entries@.len() && st[i].1
                <= self.frame_nodes(st[i]).len()
    }

    /// What is left to expand: the rest of the top frame, then of each frame below.
    closed spec fn pending(&self, st: Seq<(usize, usize)>) -> Expansion
        decreases st.len(),
    {
        if st.len() == 0 {
            Ok(Seq::empty())
        } else {
            let f = st.last();
            let s = self.frame_nodes(f);
            then(
                expand(self.docs@, s.subrange(f.1 as int, s.len() as int), self.budget(st.len() - 1)),
                self.pending(st.drop_last()),
            )
        }
    }

    /// Scopes opened and not yet closed by the frames.
    closed spec fn open_depth(&self, st: Seq<(usize, usize)>) -> int
        decreases st.len(),
    {
        if st.len() == 0 {
            0
        } else {
            let f = st.last();
            self.open_depth(st.drop_last()) + depth(self.frame_nodes(f).take(f.1 as int))
        }
    }

    /// Steps left to the traversal.
    closed spec fn remaining(&self, st: Seq<(usize, usize)>) -> nat
        decreases st.len(),
    {
        if st.len() == 0 {
            0
        } else {
            let f = st.last();
            let s = self.frame_nodes(f);
            self.remaining(st.drop_last()) + work(
                self.docs@,
                s.subrange(f.1 as int, s.len() as int),
                self.budget(st.len() - 1),
            ) + 1
        }
    }

    proof fn lemma_open_depth_nonneg(&self, st: Seq<(usize, usize)>)
        requires
            self.wf(),
            self.frames_ok(st),
        ensures
            self.open_depth(st) >= 0,
        decreases st.len(),
    {
        if st.len() > 0 {
            let f = st.last();
            assert(self.frames_ok(st.drop_last()));
            self.lemma_open_depth_nonneg(st.drop_last());
            assert(st[st.len() - 1] == f);
            assert(self.docs@.contains_key(self.entries@[f.0 as int].0@));
        }
    }

    /// Renders the document registered as `name`, with every reference
    /// replaced by the rendering of the document it names, indented from the
    /// point of reference.
    ///
    /// Fails on the first required reference, in text order, whose name is
    /// not registered, and when `name` is not registered. A reference nested
    /// deeper than there are registered documents closes a cycle, whose
    /// expansion would never end: it fails too.
    pub fn render(&self, name: &str) -> (r: Result<String, Error>)
        requires
            self.wf(),
        ensures
            match rendered(self@, self.indent_unit(), name@) {
                Ok(t) => r matches Ok(s) && s@ == t,
                Err(Fault::Missing(n)) => r matches Err(Error::BadRef(m)) && m@ == n,
                Err(Fault::Cycle(n)) => r matches Err(Error::Cycle(m)) && m@ == n,
            },
    {
        let root = String::from_str(name);
        let first = match self.find(&root) {
            Some(i) => i,
            None => {
                return Err(Error::BadRef(root));
            },
        };
        let ghost docs = self.docs@;
        let ghost unit = self.unit@;
        let ghost n = self.entries@.len() as int;
        let ghost goal = expand(docs, docs[name@], root_budget(docs));
        let mut out = String::new();
        let mut indent: usize = 0;
        let mut stack: Vec<(usize, usize)> = Vec::new();
        stack.push((first, 0));
        let ghost mut done: Seq<NodeView> = Seq::empty();
        proof {
            let s = self.frame_nodes((first, 0));
            assert(s.subrange(0, s.len() as int) =~= s);
            assert(s.take(0) =~= Seq::<NodeView>::empty());
            assert(stack@.drop_last() =~= Seq::<(usize, usize)>::empty());
            assert(stack@.last() == (first, 0usize));
            assert(self.docs@.contains_key(self.entries@[first as int].0@));
            assert(docs[name@] == s);
            assert(self.budget(0) == root_budget(docs));
            let empty = Seq::<(usize, usize)>::empty();
            assert(self.open_depth(empty) == 0);
            assert(self.pending(empty) == Ok::<Seq<NodeView>, Fault>(Seq::empty()));
            assert(self.open_depth(stack@) == 0);
            let e = expand(docs, s, self.budget(0));
            if let Ok(x) = e {
                assert(x + Seq::<NodeView>::empty() =~= x);
            }
            lemma_then_empty(self.pending(stack@));
        }
        while stack.len() > 0
            invariant
                self.wf(),
                docs == self@,
                docs.contains_key(name@),
                goal == expand(docs, docs[name@], root_budget(docs)),
                unit == self.unit@,
                n == self.entries@.len(),
                n >= 1,
                stack@.len() <= n,
                self.frames_ok(stack@),
                then(Ok(done), self.pending(stack@)) == goal,
                out@ == layout(unit, 0, done),
                indent == depth(done),
                indent == self.open_depth(stack@),
            decreases self.remaining(stack@),
        {
            let ghost st0 = stack@;
            let ghost rest = st0.drop_last();
            let (e, p) = stack.pop().unwrap();
            assert(stack@ == rest);
            assert(st0.last() == (e, p));
            let ghost level = st0.len() - 1;
            let ghost b = self.budget(level);
            let ghost s = self.frame_nodes((e, p));
            let ghost suffix = s.subrange(p as int, s.len() as int);
            assert(self.pending(st0) == then(expand(docs, suffix, b), self.pending(rest)));
            assert(self.open_depth(st0) == self.open_depth(rest) + depth(s.take(p as int)));
            assert(self.remaining(st0) == self.remaining(rest) + work(docs, suffix, b) + 1);
            assert(self.frames_ok(rest));
            assert(self.docs@.contains_key(self.entries@[e as int].0@));
            let d: &Doc = &self.entries[e].1;
            if p < d.len() {
                stack.push((e, p + 1));
                let ghost st1 = stack@;
                let ghost suffix1 = s.subrange(p + 1, s.len() as int);
                assert(suffix.drop_first() =~= suffix1);
                assert(st1.drop_last() =~= rest);
                assert(st1.last() == (e, (p + 1) as usize));
                assert(self.pending(st1) == then(expand(docs, suffix1, b), self.pending(rest)));
                assert(self.open_depth(st1) == self.open_depth(rest) + depth(s.take(p + 1)));
                assert(self.remaining(st1) == self.remaining(rest) + work(docs, suffix1, b) + 1);
                assert(s.take(p + 1) =~= s.take(p as int).push(s[p as int]));
                proof {
                    crate::model::lemma_depth_push(s.take(p as int), s[p as int]);
                }
                let node = d.node(p);
                let ghost x = node@;
                assert(suffix[0] == x);
                match node {
                    Node::Line(t) => {
                        write_line(&mut out, &self.unit, indent, t);
                        proof {
                            lemma_layout_push(unit, 0, done, x);
                            crate::model::lemma_depth_push(done, x);
                            lemma_then_assoc(Ok(done), Ok(seq![x]), self.pending(st1));
                            lemma_then_assoc(Ok(seq![x]), expand(docs, suffix1, b), self.pending(rest));
                            assert(done + seq![x] =~= done.push(x));
                            done = done.push(x);
                        }
                    },
                    Node::BeginScope(t) => {
                        write_line(&mut out, &self.unit, indent, t);
                        proof {
                            lemma_layout_push(unit, 0, done, x);
                            crate::model::lemma_depth_push(done, x);
                            lemma_then_assoc(Ok(done), Ok(seq![x]), self.pending(st1));
                            lemma_then_assoc(Ok(seq![x]), expand(docs, suffix1, b), self.pending(rest));
                            assert(done + seq![x] =~= done.push(x));
                            done = done.push(x);
                            lemma_layout_len(unit, done);
                        }
                        if indent == usize::MAX {
                            // a string never holds more than `usize::MAX`
                            // characters, and each open scope wrote a line
                            let _len = out.as_str().unicode_len();
                            assert(false);
                        }
                        indent = indent + 1;
                    },
                    Node::EndScope(t) => {
                        proof {
                            self.lemma_open_depth_nonneg(rest);
                            assert(never_negative(s));
                            assert(depth(s.take(p + 1)) >= 0);
                        }
                        indent = indent - 1;
                        match t {
                            Some(t) => {
                                write_line(&mut out, &self.unit, indent, t);
                            },
                            None => {},
                        }
                        proof {
                            lemma_layout_push(unit, 0, done, x);
                            crate::model::lemma_depth_push(done, x);
                            lemma_then_assoc(Ok(done), Ok(seq![x]), self.pending(st1));
                            lemma_then_assoc(Ok(seq![x]), expand(docs, suffix1, b), self.pending(rest));
                            assert(done + seq![x] =~= done.push(x));
                            done = done.push(x);
                        }
                    },
                    Node::OptRef(m) | Node::ReqRef(m) => {
                        match self.find(m) {
                            Some(j) => {
                                proof {
                                    assert(self.docs@.contains_key(self.entries@[j as int].0@));
                                    assert(ref_name(suffix[0]) == Some(m@));
                                }
                                if stack.len() >= self.entries.len() {
                                    assert(expand(docs, suffix, b) == Err::<Seq<NodeView>, Fault>(Fault::Cycle(m@)));
                                    return Err(Error::Cycle(m.clone()));
                                }
                                stack.push((j, 0));
                                proof {
                                    let st2 = stack@;
                                    let dn = self.frame_nodes((j, 0));
                                    assert(st2.drop_last() =~= st1);
                                    assert(st2.last() == (j, 0usize));
                                    assert(self.docs@.contains_key(self.entries@[j as int].0@));
                                    assert(dn.subrange(0, dn.len() as int) =~= dn);
                                    assert(dn.take(0) =~= Seq::<NodeView>::empty());
                                    assert(self.budget(st2.len() - 1) == (b - 1) as nat);
                                    assert(self.open_depth(st2) == self.open_depth(st1) + depth(dn.take(0)));
                                    assert(self.remaining(st2) == self.remaining(st1) + work(docs, dn, (b - 1) as nat) + 1);
                                    assert(self.pending(st2) == then(expand(docs, dn, (b - 1) as nat), self.pending(st1)));
                                    lemma_then_assoc(expand(docs, dn, (b - 1) as nat), expand(docs, suffix1, b), self.pending(rest));
                                }
                            },
                            None => {
                                assert(ref_name(suffix[0]) == Some(m@));
                                if matches!(node, Node::ReqRef(_)) {
                                    assert(expand(docs, suffix, b) == Err::<Seq<NodeView>, Fault>(Fault::Missing(m@)));
                                    return Err(Error::BadRef(m.clone()));
                                }
                            },
                        }
                    },
                }
            } else {
                proof {
                    assert(suffix =~= Seq::<NodeView>::empty());
                    assert(s.take(p as int) =~= s);
                    lemma_then_empty(self.pending(rest));
                }
            }
        }
        proof {
            assert(done + Seq::<NodeView>::empty() =~= done);
        }
        Ok(out)
    }
}

} // verus!
