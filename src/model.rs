//! The mathematical model of documents: nesting depth, reference expansion
//! and the text layout of expanded documents.
use vstd::prelude::*;

verus! {

/// What a document element stands for.
pub enum NodeView {
    Line(Seq<char>),
    BeginScope(Seq<char>),
    EndScope(Option<Seq<char>>),
    OptRef(Seq<char>),
    ReqRef(Seq<char>),
}

/// Change of nesting depth caused by one element.
pub open spec fn delta(x: NodeView) -> int {
    match x {
        NodeView::BeginScope(_) => 1,
        NodeView::EndScope(_) => -1,
        _ => 0,
    }
}

/// Nesting depth reached after the elements of `s`.
pub open spec fn depth(s: Seq<NodeView>) -> int
    decreases s.len(),
{
    if s.len() == 0 {
        0
    } else {
        depth(s.drop_last()) + delta(s.last())
    }
}

/// No prefix of `s` closes more scopes than it opened.
pub open spec fn never_negative(s: Seq<NodeView>) -> bool {
    forall|i: int| 0 <= i <= s.len() ==> depth(#[trigger] s.take(i)) >= 0
}

/// Every scope of `s` is closed after being opened, in stack order.
pub open spec fn balanced(s: Seq<NodeView>) -> bool {
    never_negative(s) && depth(s) == 0
}

pub proof fn lemma_depth_push(s: Seq<NodeView>, x: NodeView)
    ensures
        depth(s.push(x)) == depth(s) + delta(x),
{
    assert(s.push(x).drop_last() =~= s);
}

pub proof fn lemma_never_negative_push(s: Seq<NodeView>, x: NodeView)
    requires
        never_negative(s),
        depth(s) + delta(x) >= 0,
    ensures
        never_negative(s.push(x)),
{
    lemma_depth_push(s, x);
    assert forall|i: int| 0 <= i <= s.push(x).len() implies depth(#[trigger] s.push(x).take(i)) >= 0 by {
        if i <= s.len() {
            assert(s.push(x).take(i) =~= s.take(i));
        } else {
            assert(s.push(x).take(i) =~= s.push(x));
        }
    }
}

/// Why a document cannot be rendered.
pub enum Fault {
    /// A required reference, or the requested root, names no registered document.
    Missing(Seq<char>),
    /// The reference would nest deeper than there are registered documents,
    /// so expanding it would never end.
    Cycle(Seq<char>),
}

pub type Expansion = Result<Seq<NodeView>, Fault>;

/// `a` followed by `b`; the first failure wins.
pub open spec fn then(a: Expansion, b: Expansion) -> Expansion {
    match a {
        Err(f) => Err(f),
        Ok(x) => match b {
            Err(f) => Err(f),
            Ok(y) => Ok(x + y),
        },
    }
}

/// The name that `x` refers to, if it is a reference.
pub open spec fn ref_name(x: NodeView) -> Option<Seq<char>> {
    match x {
        NodeView::OptRef(n) => Some(n),
        NodeView::ReqRef(n) => Some(n),
        _ => None,
    }
}

/// The elements of `s` with every reference replaced, in place, by the
/// expansion of the document that `docs` registers under its name.
///
/// `budget` is how many documents may still be nested below `s`; a
/// registered reference met when it is used up is a cycle. An optional
/// reference to an unregistered name expands to nothing, a required one fails.
pub open spec fn expand(docs: Map<Seq<char>, Seq<NodeView>>, s: Seq<NodeView>, budget: nat) -> Expansion
    decreases budget, s.len(),
{
    if s.len() == 0 {
        Ok(Seq::empty())
    } else {
        let rest = expand(docs, s.drop_first(), budget);
        match ref_name(s[0]) {
            Some(n) => if docs.contains_key(n) {
                if budget == 0 {
                    Err(Fault::Cycle(n))
                } else {
                    then(expand(docs, docs[n], (budget - 1) as nat), rest)
                }
            } else if s[0] is ReqRef {
                Err(Fault::Missing(n))
            } else {
                rest
            },
            None => then(Ok(seq![s[0]]), rest),
        }
    }
}

/// Work left in expanding `s`, counting each element once and each
/// registered reference once more with the work of the document it names.
pub open spec fn work(docs: Map<Seq<char>, Seq<NodeView>>, s: Seq<NodeView>, budget: nat) -> nat
    decreases budget, s.len(),
{
    if s.len() == 0 {
        0
    } else {
        let rest = work(docs, s.drop_first(), budget);
        match ref_name(s[0]) {
            Some(n) => if docs.contains_key(n) && budget > 0 {
                2 + work(docs, docs[n], (budget - 1) as nat) + rest
            } else {
                1 + rest
            },
            None => 1 + rest,
        }
    }
}

/// `unit` repeated `d` times.
pub open spec fn pad(unit: Seq<char>, d: int) -> Seq<char>
    decreases d,
{
    if d <= 0 {
        Seq::empty()
    } else {
        pad(unit, d - 1) + unit
    }
}

/// `t` on a line of its own, indented `d` times.
pub open spec fn text_line(unit: Seq<char>, d: int, t: Seq<char>) -> Seq<char> {
    pad(unit, d) + t + seq!['\n']
}

/// Text written for `x` at nesting depth `d`: a line or the opening of a
/// scope at `d`, the terminator of a scope one level out, nothing otherwise.
pub open spec fn piece_text(unit: Seq<char>, d: int, x: NodeView) -> Seq<char> {
    match x {
        NodeView::Line(t) => text_line(unit, d, t),
        NodeView::BeginScope(t) => text_line(unit, d, t),
        NodeView::EndScope(Some(t)) => text_line(unit, d - 1, t),
        _ => Seq::empty(),
    }
}

/// The text of the elements of `s`, the first of them at depth `base`.
pub open spec fn layout(unit: Seq<char>, base: int, s: Seq<NodeView>) -> Seq<char>
    decreases s.len(),
{
    if s.len() == 0 {
        Seq::empty()
    } else {
        layout(unit, base, s.drop_last()) + piece_text(unit, base + depth(s.drop_last()), s.last())
    }
}

/// How many documents may be nested below the root of a render when `docs`
/// is registered: a deeper chain names some document twice.
pub open spec fn root_budget(docs: Map<Seq<char>, Seq<NodeView>>) -> nat {
    (docs.dom().len() - 1) as nat
}

/// The text of the document registered as `root`, or why there is none.
pub open spec fn rendered(docs: Map<Seq<char>, Seq<NodeView>>, unit: Seq<char>, root: Seq<char>) -> Result<Seq<char>, Fault> {
    if !docs.contains_key(root) {
        Err(Fault::Missing(root))
    } else {
        match expand(docs, docs[root], root_budget(docs)) {
            Ok(p) => Ok(layout(unit, 0, p)),
            Err(f) => Err(f),
        }
    }
}

pub proof fn lemma_then_assoc(a: Expansion, b: Expansion, c: Expansion)
    ensures
        then(then(a, b), c) == then(a, then(b, c)),
{
    if let (Ok(x), Ok(y), Ok(z)) = (a, b, c) {
        assert(x + y + z =~= x + (y + z));
    }
}

pub proof fn lemma_then_empty(b: Expansion)
    ensures
        then(Ok(Seq::empty()), b) == b,
{
    if let Ok(y) = b {
        assert(Seq::<NodeView>::empty() + y =~= y);
    }
}

pub proof fn lemma_layout_push(unit: Seq<char>, base: int, s: Seq<NodeView>, x: NodeView)
    ensures
        layout(unit, base, s.push(x)) == layout(unit, base, s) + piece_text(unit, base + depth(s), x),
{
    assert(s.push(x).drop_last() =~= s);
}

/// Every scope still open at the end of `s` wrote a line.
pub proof fn lemma_layout_len(unit: Seq<char>, s: Seq<NodeView>)
    ensures
        layout(unit, 0, s).len() >= depth(s),
    decreases s.len(),
{
    if s.len() > 0 {
        lemma_layout_len(unit, s.drop_last());
    }
}

} // verus!
