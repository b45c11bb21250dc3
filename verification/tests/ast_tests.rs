use alteraparser::ast::{Ast, AstAttr, AstStrWriter};

#[test]
fn test_add_and_get_children() {
    let mut root = Ast::new("sum");
    root.add_child(Ast::with_value("NUMBER", "3"));
    root.add_child(Ast::with_value("PLUS", "+"));
    root.add_child(Ast::with_value("NUMBER", "5"));
    assert_eq!(root.children().len(), 3);
    assert_eq!(root.nth_child(0).value.as_deref(), Some("3"));
}

#[test]
fn test_children_by_name() {
    let mut root = Ast::new("call");
    root.add_child(Ast::new("callee"));
    root.add_child(Ast::new("arg"));
    root.add_child(Ast::new("arg"));
    let args = root.children_by_name("arg");
    assert_eq!(args.len(), 2);
}

#[test]
fn test_child_by_id_clears_id() {
    let mut root = Ast::new("call");
    let child = Ast::new("NUMBER").with_id("callee");
    root.add_child(child);
    let found = root.child_by_id("callee", true).unwrap();
    assert_eq!(found.name, "NUMBER");
    assert_eq!(found.id, "");
}

#[test]
fn test_children_by_id() {
    let mut root = Ast::new("call");
    root.add_child(Ast::new("NUMBER").with_id("arg"));
    root.add_child(Ast::new("IDENT").with_id("arg"));
    let args = root.children_by_id("arg", true);
    assert_eq!(args.len(), 2);
    assert!(args.iter().all(|a| a.id.is_empty()));
}

#[test]
fn test_set_get_attr() {
    let mut node = Ast::new("x");
    node.set_attr("flag", true);
    assert!(node.has_attr("flag"));
    assert_eq!(node.get_attr("flag"), Some(&AstAttr::Bool(true)));
    assert!(!node.has_attr("missing"));
}

#[test]
fn test_ast_str_writer() {
    let mut root = Ast::new("sum");
    root.add_child(Ast::with_value("NUMBER", "3"));
    let out = AstStrWriter::default().write_ast_to_str(&root);
    assert!(out.contains("<sum>"));
    assert!(out.contains("<NUMBER> 3 </NUMBER>"));
    assert!(out.contains("</sum>"));
}

#[test]
fn test_child_by_id_keeps_id() {
    let mut root = Ast::new("call");
    root.add_child(Ast::new("A").with_id("x"));
    root.add_child(Ast::new("B").with_id("x"));
    let found = root.child_by_id("x", false).unwrap();
    assert_eq!(found.name, "A");
    assert_eq!(found.id, "x");
    assert!(root.child_by_id("y", true).is_none());
}

#[test]
fn test_set_attr_replaces_value() {
    let mut node = Ast::new("x");
    node.set_attr("k", true);
    node.set_attr("k", String::from("v"));
    assert_eq!(node.get_attr("k"), Some(&AstAttr::Str(String::from("v"))));
    assert_eq!(node.attributes.len(), 1);
}

#[test]
fn test_writer_exact_output() {
    let mut root = Ast::new("sum").with_id("s");
    let mut inner = Ast::with_value("op", "+");
    inner.add_child(Ast::new("leaf"));
    root.add_child(Ast::with_value("NUMBER", "3"));
    root.add_child(inner);
    let out = AstStrWriter::new(2).write_ast_to_str(&root);
    assert_eq!(
        out,
        "<sum id=\"s\">\n  <NUMBER> 3 </NUMBER>\n  <op> +\n    <leaf/>\n  </op>\n</sum>\n"
    );
}

#[test]
fn test_writer_zero_indent() {
    let mut root = Ast::new("a");
    root.add_child(Ast::new("b"));
    let out = AstStrWriter::new(0).write_ast_to_str(&root);
    assert_eq!(out, "<a>\n<b/>\n</a>\n");
}

#[test]
fn test_clone_is_deep_copy() {
    let mut root = Ast::new("r");
    root.add_child(Ast::with_value("T", "v").with_id("i"));
    root.set_attr("flag", false);
    let copy = root.clone();
    assert_eq!(copy.name, "r");
    assert_eq!(copy.children().len(), 1);
    assert_eq!(copy.nth_child(0).id, "i");
    assert_eq!(copy.get_attr("flag"), Some(&AstAttr::Bool(false)));
}

#[test]
fn set_attr_from_str_slice() {
    let mut a = Ast::new("n");
    a.set_attr("k", "text");
    assert_eq!(a.get_attr("k"), Some(&AstAttr::Str(String::from("text"))));
}
