//! Laws of reference expansion and layout.
use vstd::prelude::*;

use crate::model::{
    depth, expand, lemma_layout_push, lemma_then_assoc, lemma_then_empty, layout, piece_text,
    ref_name, rendered, root_budget, then, Expansion, Fault, NodeView,
};

verus! {

/// `a` followed by nothing is `a`.
proof fn lemma_then_empty_right(a: Expansion)
    ensures
        then(a, Ok(Seq::empty())) == a,
{
    if let Ok(x) = a {
        assert(x + Seq::<NodeView>::empty() =~= x);
    }
}

/// A document without references expands to itself.
pub proof fn lemma_expand_plain(docs: Map<Seq<char>, Seq<NodeView>>, s: Seq<NodeView>, b: nat)
    requires
        forall|i: int| 0 <= i < s.len() ==> ref_name(#[trigger] s[i]) is None,
    ensures
        expand(docs, s, b) == Ok::<Seq<NodeView>, Fault>(s),
    decreases s.len(),
{
    if s.len() > 0 {
        let t = s.drop_first();
        assert forall|i: int| 0 <= i < t.len() implies ref_name(#[trigger] t[i]) is None by {
            assert(t[i] == s[i + 1]);
        }
        lemma_expand_plain(docs, t, b);
        assert(ref_name(s[0]) is None);
        assert(seq![s[0]] + t =~= s);
    } else {
        assert(s =~= Seq::<NodeView>::empty());
    }
}

/// The expansion of two sequences placed one after the other is the
/// expansion of the first followed by that of the second.
pub proof fn lemma_expand_concat(docs: Map<Seq<char>, Seq<NodeView>>, s: Seq<NodeView>, t: Seq<NodeView>, b: nat)
    ensures
        expand(docs, s + t, b) == then(expand(docs, s, b), expand(docs, t, b)),
    decreases s.len(),
{
    if s.len() == 0 {
        assert(s + t =~= t);
        lemma_then_empty(expand(docs, t, b));
    } else {
        let u = s + t;
        assert(u.drop_first() =~= s.drop_first() + t);
        assert(u[0] == s[0]);
        lemma_expand_concat(docs, s.drop_first(), t, b);
        let r1 = expand(docs, s.drop_first(), b);
        let r2 = expand(docs, t, b);
        match ref_name(s[0]) {
            Some(n) => {
                if docs.contains_key(n) && b > 0 {
                    lemma_then_assoc(expand(docs, docs[n], (b - 1) as nat), r1, r2);
                }
            },
            None => {
                lemma_then_assoc(Ok(seq![s[0]]), r1, r2);
            },
        }
    }
}

/// A successful expansion does not change when more nesting is allowed.
pub proof fn lemma_budget_stable(docs: Map<Seq<char>, Seq<NodeView>>, s: Seq<NodeView>, b: nat, c: nat)
    requires
        expand(docs, s, b) is Ok,
        b <= c,
    ensures
        expand(docs, s, c) == expand(docs, s, b),
    decreases b, s.len(),
{
    if s.len() > 0 {
        let rest = expand(docs, s.drop_first(), b);
        match ref_name(s[0]) {
            Some(n) => {
                if docs.contains_key(n) {
                    let inner = expand(docs, docs[n], (b - 1) as nat);
                    assert(inner is Ok && rest is Ok);
                    lemma_budget_stable(docs, docs[n], (b - 1) as nat, (c - 1) as nat);
                    lemma_budget_stable(docs, s.drop_first(), b, c);
                } else {
                    lemma_budget_stable(docs, s.drop_first(), b, c);
                }
            },
            None => {
                lemma_budget_stable(docs, s.drop_first(), b, c);
            },
        }
    }
}

/// A required reference to an unregistered name makes the whole expansion
/// fail, wherever it stands.
pub proof fn lemma_missing_required_fails(docs: Map<Seq<char>, Seq<NodeView>>, s: Seq<NodeView>, b: nat, i: int)
    requires
        0 <= i < s.len(),
        s[i] is ReqRef,
        !docs.contains_key(s[i]->ReqRef_0),
    ensures
        expand(docs, s, b) is Err,
    decreases i,
{
    if i > 0 {
        assert(s.drop_first()[i - 1] == s[i]);
        lemma_missing_required_fails(docs, s.drop_first(), b, i - 1);
    }
}

/// A reference to a registered document whose own expansion fails makes
/// the whole expansion fail, wherever it stands: failure of a nested
/// document reaches the root.
pub proof fn lemma_failure_propagates(docs: Map<Seq<char>, Seq<NodeView>>, s: Seq<NodeView>, b: nat, i: int)
    requires
        0 <= i < s.len(),
        ref_name(s[i]) is Some,
        docs.contains_key(ref_name(s[i])->0),
        b == 0 || expand(docs, docs[ref_name(s[i])->0], (b - 1) as nat) is Err,
    ensures
        expand(docs, s, b) is Err,
    decreases i,
{
    if i > 0 {
        assert(s.drop_first()[i - 1] == s[i]);
        lemma_failure_propagates(docs, s.drop_first(), b, i - 1);
    }
}

/// Rendering fails when the root holds a required reference to an
/// unregistered name.
pub proof fn lemma_render_missing_required_fails(docs: Map<Seq<char>, Seq<NodeView>>, unit: Seq<char>, root: Seq<char>, i: int)
    requires
        docs.contains_key(root),
        0 <= i < docs[root].len(),
        docs[root][i] is ReqRef,
        !docs.contains_key(docs[root][i]->ReqRef_0),
    ensures
        rendered(docs, unit, root) is Err,
{
    lemma_missing_required_fails(docs, docs[root], root_budget(docs), i);
}

/// An optional reference to an unregistered name expands to nothing: the
/// expansion is that of the same elements without it, so the elements
/// around it are laid out exactly as if it were absent.
pub proof fn lemma_missing_optional_is_empty(docs: Map<Seq<char>, Seq<NodeView>>, s: Seq<NodeView>, b: nat, i: int)
    requires
        0 <= i < s.len(),
        s[i] is OptRef,
        !docs.contains_key(s[i]->OptRef_0),
    ensures
        expand(docs, s, b) == expand(docs, s.remove(i), b),
    decreases i,
{
    if i == 0 {
        assert(s.remove(0) =~= s.drop_first());
    } else {
        let t = s.remove(i);
        assert(t.drop_first() =~= s.drop_first().remove(i - 1));
        assert(t[0] == s[0]);
        assert(s.drop_first()[i - 1] == s[i]);
        lemma_missing_optional_is_empty(docs, s.drop_first(), b, i - 1);
    }
}

/// Nesting depth adds up over consecutive sequences.
pub proof fn lemma_depth_concat(x: Seq<NodeView>, y: Seq<NodeView>)
    ensures
        depth(x + y) == depth(x) + depth(y),
    decreases y.len(),
{
    if y.len() == 0 {
        assert(x + y =~= x);
    } else {
        assert((x + y).drop_last() =~= x + y.drop_last());
        lemma_depth_concat(x, y.drop_last());
    }
}

/// The text of two consecutive sequences is the text of the first followed
/// by that of the second, laid out from the depth where the first ends.
pub proof fn lemma_layout_concat(unit: Seq<char>, base: int, x: Seq<NodeView>, y: Seq<NodeView>)
    ensures
        layout(unit, base, x + y) == layout(unit, base, x) + layout(unit, base + depth(x), y),
    decreases y.len(),
{
    if y.len() == 0 {
        assert(x + y =~= x);
        assert(layout(unit, base, x) + Seq::<char>::empty() =~= layout(unit, base, x));
    } else {
        let y1 = y.drop_last();
        assert((x + y).drop_last() =~= x + y1);
        assert((x + y).last() == y.last());
        lemma_layout_concat(unit, base, x, y1);
        lemma_depth_concat(x, y1);
        assert(layout(unit, base, x) + layout(unit, base + depth(x), y1) + piece_text(unit, base + depth(x) + depth(y1), y.last())
            =~= layout(unit, base, x) + (layout(unit, base + depth(x), y1) + piece_text(unit, base + depth(x) + depth(y1), y.last())));
    }
}

/// Each line, scope opening and terminator of a document without
/// references is written at the nesting depth of the elements before it,
/// indented by `unit` once per level, and rendering that document gives
/// exactly that text.
pub proof fn lemma_plain_render(docs: Map<Seq<char>, Seq<NodeView>>, unit: Seq<char>, root: Seq<char>)
    requires
        docs.contains_key(root),
        forall|i: int| 0 <= i < docs[root].len() ==> ref_name(#[trigger] docs[root][i]) is None,
    ensures
        rendered(docs, unit, root) == Ok::<Seq<char>, Fault>(layout(unit, 0, docs[root])),
        forall|i: int|
            0 <= i < docs[root].len() ==> #[trigger] layout(unit, 0, docs[root].take(i + 1)) == layout(
                unit,
                0,
                docs[root].take(i),
            ) + piece_text(unit, depth(docs[root].take(i)), docs[root][i]),
{
    let s = docs[root];
    lemma_expand_plain(docs, s, root_budget(docs));
    assert forall|i: int| 0 <= i < s.len() implies #[trigger] layout(unit, 0, s.take(i + 1)) == layout(
        unit,
        0,
        s.take(i),
    ) + piece_text(unit, depth(s.take(i)), s[i]) by {
        assert(s.take(i + 1) =~= s.take(i).push(s[i]));
        lemma_layout_push(unit, 0, s.take(i), s[i]);
    }
}

/// The expansion of a sequence that refers to a registered document at
/// position `i` is the expansion of what precedes the reference, then that
/// of the document, then that of what follows; the document's text is laid
/// out from the depth at which the reference stands.
pub proof fn lemma_reference_inlined(docs: Map<Seq<char>, Seq<NodeView>>, unit: Seq<char>, s: Seq<NodeView>, b: nat, i: int)
    requires
        0 <= i < s.len(),
        ref_name(s[i]) is Some,
        docs.contains_key(ref_name(s[i])->0),
        expand(docs, s, b) is Ok,
    ensures
        b > 0,
        ({
            let pre = expand(docs, s.take(i), b)->Ok_0;
            let body = expand(docs, docs[ref_name(s[i])->0], (b - 1) as nat)->Ok_0;
            let post = expand(docs, s.skip(i + 1), b)->Ok_0;
            &&& expand(docs, s.take(i), b) is Ok
            &&& expand(docs, docs[ref_name(s[i])->0], (b - 1) as nat) is Ok
            &&& expand(docs, s.skip(i + 1), b) is Ok
            &&& expand(docs, s, b) == Ok::<Seq<NodeView>, Fault>(pre + body + post)
            &&& layout(unit, 0, pre + body + post) == layout(unit, 0, pre) + layout(unit, depth(pre), body)
                + layout(unit, depth(pre) + depth(body), post)
        }),
{
    let n = ref_name(s[i])->0;
    let one = seq![s[i]];
    assert(s =~= s.take(i) + one + s.skip(i + 1));
    lemma_expand_concat(docs, s.take(i) + one, s.skip(i + 1), b);
    lemma_expand_concat(docs, s.take(i), one, b);
    assert(one.drop_first() =~= Seq::<NodeView>::empty());
    assert(one[0] == s[i]);
    if b == 0 {
        assert(expand(docs, one, b) is Err);
    } else {
        lemma_then_empty_right(expand(docs, docs[n], (b - 1) as nat));
        assert(expand(docs, one.drop_first(), b) == Ok::<Seq<NodeView>, Fault>(Seq::empty()));
        assert(expand(docs, one, b) == expand(docs, docs[n], (b - 1) as nat));
        let pre = expand(docs, s.take(i), b)->Ok_0;
        let body = expand(docs, docs[n], (b - 1) as nat)->Ok_0;
        let post = expand(docs, s.skip(i + 1), b)->Ok_0;
        lemma_layout_concat(unit, 0, pre + body, post);
        lemma_layout_concat(unit, 0, pre, body);
        lemma_depth_concat(pre, body);
    }
}

/// A document referenced from two parents contributes the same elements to
/// both expansions, each laid out from the depth of its own point of
/// reference.
pub proof fn lemma_shared_fragment(
    docs: Map<Seq<char>, Seq<NodeView>>,
    unit: Seq<char>,
    s1: Seq<NodeView>,
    b1: nat,
    i1: int,
    s2: Seq<NodeView>,
    b2: nat,
    i2: int,
)
    requires
        0 <= i1 < s1.len(),
        0 <= i2 < s2.len(),
        ref_name(s1[i1]) is Some,
        ref_name(s1[i1]) == ref_name(s2[i2]),
        docs.contains_key(ref_name(s1[i1])->0),
        expand(docs, s1, b1) is Ok,
        expand(docs, s2, b2) is Ok,
    ensures
        ({
            let k = ref_name(s1[i1])->0;
            let body = expand(docs, docs[k], (b1 - 1) as nat)->Ok_0;
            let pre1 = expand(docs, s1.take(i1), b1)->Ok_0;
            let post1 = expand(docs, s1.skip(i1 + 1), b1)->Ok_0;
            let pre2 = expand(docs, s2.take(i2), b2)->Ok_0;
            let post2 = expand(docs, s2.skip(i2 + 1), b2)->Ok_0;
            &&& expand(docs, docs[k], (b2 - 1) as nat) == expand(docs, docs[k], (b1 - 1) as nat)
            &&& expand(docs, s1, b1) == Ok::<Seq<NodeView>, Fault>(pre1 + body + post1)
            &&& expand(docs, s2, b2) == Ok::<Seq<NodeView>, Fault>(pre2 + body + post2)
            &&& layout(unit, 0, pre1 + body + post1) == layout(unit, 0, pre1) + layout(unit, depth(pre1), body)
                + layout(unit, depth(pre1) + depth(body), post1)
            &&& layout(unit, 0, pre2 + body + post2) == layout(unit, 0, pre2) + layout(unit, depth(pre2), body)
                + layout(unit, depth(pre2) + depth(body), post2)
        }),
{
    let k = ref_name(s1[i1])->0;
    lemma_reference_inlined(docs, unit, s1, b1, i1);
    lemma_reference_inlined(docs, unit, s2, b2, i2);
    if b1 <= b2 {
        lemma_budget_stable(docs, docs[k], (b1 - 1) as nat, (b2 - 1) as nat);
    } else {
        lemma_budget_stable(docs, docs[k], (b2 - 1) as nat, (b1 - 1) as nat);
    }
}

} // verus!
