use std::sync::Arc;

use sidoc::{Builder, Doc, Error, RenderContext};

fn head() -> Doc {
    let mut b = Builder::new();
    b.scope("<head>", Some("</head>")).exit();
    b.build().unwrap()
}

#[test]
fn balanced_build_succeeds() {
    let mut b = Builder::new();
    b.scope("a", Some("/a")).scope("b", None::<&str>).line("x").exit().exit();
    assert!(b.build().is_ok());
}

#[test]
fn unclosed_scopes_are_counted() {
    let mut b = Builder::new();
    b.scope("a", Some("/a")).scope("b", Some("/b")).scope("c", None::<&str>).exit();
    match b.build() {
        Err(Error::BadNesting(n)) => assert_eq!(n, 2),
        _ => panic!("expected a nesting error"),
    }
}

#[test]
fn lines_indented_by_depth() {
    let mut b = Builder::new();
    b.line("top")
        .scope("{", Some("}"))
        .line("one")
        .scope("[", None::<&str>)
        .line("two")
        .exit()
        .line("one again")
        .exit();
    let mut r = RenderContext::new();
    r.doc("d", Arc::new(b.build().unwrap()));
    assert_eq!(
        r.render("d").unwrap(),
        "top\n{\n  one\n  [\n    two\n  one again\n}\n"
    );
}

#[test]
fn exit_line_overrides_terminator() {
    let mut b = Builder::new();
    b.scope("begin", Some("end")).line("body").exit_line("finish");
    let mut r = RenderContext::new();
    r.doc("d", Arc::new(b.build().unwrap()));
    assert_eq!(r.render("d").unwrap(), "begin\n  body\nfinish\n");
}

#[test]
fn missing_required_at_root_level_fails() {
    let mut b = Builder::new();
    b.line("x").reqref("absent").line("y");
    let mut r = RenderContext::new();
    r.doc("root", Arc::new(b.build().unwrap()));
    match r.render("root") {
        Err(Error::BadRef(n)) => assert_eq!(n, "absent"),
        _ => panic!("expected a reference error"),
    }
}

#[test]
fn missing_required_nested_fails() {
    let mut nested = Builder::new();
    nested.scope("<div>", Some("</div>")).reqref("deep").exit();
    let mut plain = Builder::new();
    plain.line("a").reqref("nested").line("b");
    let mut r = RenderContext::new();
    r.doc("nested", Arc::new(nested.build().unwrap()));
    r.doc("root", Arc::new(plain.build().unwrap()));
    match r.render("root") {
        Err(Error::BadRef(n)) => assert_eq!(n, "deep"),
        _ => panic!("expected a reference error"),
    }
}

#[test]
fn missing_optional_is_empty() {
    let mut with_ref = Builder::new();
    with_ref.scope("<p>", Some("</p>")).line("a").optref("missing").line("b").exit();
    let mut without = Builder::new();
    without.scope("<p>", Some("</p>")).line("a").line("b").exit();
    let mut r = RenderContext::new();
    r.doc("with", Arc::new(with_ref.build().unwrap()));
    r.doc("without", Arc::new(without.build().unwrap()));
    let a = r.render("with").unwrap();
    assert_eq!(a, r.render("without").unwrap());
    assert_eq!(a, "<p>\n  a\n  b\n</p>\n");
}

#[test]
fn shared_fragment_in_two_parents() {
    let mut plain = Builder::new();
    plain.reqref("shared");
    let mut nested = Builder::new();
    nested.scope("<x>", Some("</x>")).scope("<y>", Some("</y>")).reqref("shared").exit().exit();
    let mut root = Builder::new();
    root.reqref("plain").reqref("nested");
    let mut r = RenderContext::new();
    r.doc("shared", Arc::new(head()));
    r.doc("plain", Arc::new(plain.build().unwrap()));
    r.doc("nested", Arc::new(nested.build().unwrap()));
    r.doc("root", Arc::new(root.build().unwrap()));
    assert_eq!(
        r.render("root").unwrap(),
        "<head>\n</head>\n<x>\n  <y>\n    <head>\n    </head>\n  </y>\n</x>\n"
    );
}

#[test]
fn example_doctype_and_html() {
    let mut b = Builder::new();
    b.line("<!DOCTYPE html>");
    b.scope("<html>", Some("</html>")).exit();
    let mut r = RenderContext::new();
    r.doc("root", Arc::new(b.build().unwrap()));
    assert_eq!(r.render("root").unwrap(), "<!DOCTYPE html>\n<html>\n</html>\n");
}

#[test]
fn example_required_head() {
    let mut b = Builder::new();
    b.scope("<html>", Some("</html>")).reqref("head").exit();
    let mut r = RenderContext::new();
    r.doc("root", Arc::new(b.build().unwrap()));
    r.doc("head", Arc::new(head()));
    assert_eq!(r.render("root").unwrap(), "<html>\n  <head>\n  </head>\n</html>\n");
}

#[test]
fn example_optional_missing_in_scope() {
    let mut b = Builder::new();
    b.scope("<html>", Some("</html>")).optref("missing").exit();
    let mut r = RenderContext::new();
    r.doc("root", Arc::new(b.build().unwrap()));
    assert_eq!(r.render("root").unwrap(), "<html>\n</html>\n");
}

#[test]
fn example_unregistered_root() {
    let r = RenderContext::new();
    match r.render("nowhere") {
        Err(Error::BadRef(n)) => assert_eq!(n, "nowhere"),
        _ => panic!("expected a reference error"),
    }
}

#[test]
fn empty_doc_renders_nothing() {
    let mut r = RenderContext::new();
    r.doc("e", Arc::new(Doc::new()));
    assert_eq!(r.render("e").unwrap(), "");
}

#[test]
fn registering_again_replaces() {
    let mut first = Builder::new();
    first.line("first");
    let mut second = Builder::new();
    second.line("second");
    let mut r = RenderContext::new();
    r.doc("d", Arc::new(first.build().unwrap()));
    r.doc("d", Arc::new(second.build().unwrap()));
    assert_eq!(r.render("d").unwrap(), "second\n");
}

#[test]
fn scope_without_terminator_writes_nothing_on_exit() {
    let mut b = Builder::new();
    b.scope("fn f() {", None::<&str>).line("body").exit().line("after");
    let mut r = RenderContext::new();
    r.doc("d", Arc::new(b.build().unwrap()));
    assert_eq!(r.render("d").unwrap(), "fn f() {\n  body\nafter\n");
}

#[test]
fn cyclic_reference_fails() {
    let mut a = Builder::new();
    a.line("a").reqref("b");
    let mut b = Builder::new();
    b.line("b").optref("a");
    let mut r = RenderContext::new();
    r.doc("a", Arc::new(a.build().unwrap()));
    r.doc("b", Arc::new(b.build().unwrap()));
    match r.render("a") {
        Err(Error::Cycle(n)) => assert_eq!(n, "a"),
        _ => panic!("expected a cycle error"),
    }
}

#[test]
fn self_reference_fails() {
    let mut a = Builder::new();
    a.optref("a");
    let mut r = RenderContext::new();
    r.doc("a", Arc::new(a.build().unwrap()));
    assert!(matches!(r.render("a"), Err(Error::Cycle(_))));
}

#[test]
fn same_doc_referenced_twice_in_sequence() {
    let mut leaf = Builder::new();
    leaf.line("leaf");
    let mut root = Builder::new();
    root.scope("<r>", Some("</r>")).reqref("leaf").reqref("leaf").exit();
    let mut r = RenderContext::new();
    r.doc("leaf", Arc::new(leaf.build().unwrap()));
    r.doc("root", Arc::new(root.build().unwrap()));
    assert_eq!(r.render("root").unwrap(), "<r>\n  leaf\n  leaf\n</r>\n");
}
