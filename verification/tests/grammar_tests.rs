use alteraparser::ast::Ast;
use alteraparser::grammar::{choice, many, one_or_more, opt, tok, tok_id, with_id, AstTransformer, Grammar};
use alteraparser::graph::{find_follow_tokens, path_to_string, GrammarNodeKind};
use alteraparser::parser::Parser;
use alteraparser::token::{Token, TokenStreamFromList};

#[test]
fn test_tok_single_child() {
    let t = tok("NUM");
    let follows = find_follow_tokens(&t.in_node());
    assert_eq!(follows.len(), 0);
}

#[test]
fn test_seq_follow() {
    let mut g = Grammar::new();
    g.add_rule("expr", true, |_| alteraparser::grammar::seq(vec![tok("A"), tok("B")]));
    g.compile();
    let follows = find_follow_tokens(&g.start_node());
    assert_eq!(follows.len(), 1);
    assert_eq!(follows[0].0, "A");
}

#[test]
fn test_choice_follow() {
    let mut g = Grammar::new();
    g.add_rule("expr", true, |_| choice(vec![tok("A"), tok("B")]));
    g.compile();
    let mut types: Vec<String> = find_follow_tokens(&g.start_node()).into_iter().map(|(t, _)| t).collect();
    types.sort();
    assert_eq!(types, vec!["A", "B"]);
}

#[test]
fn test_opt_follow() {
    let mut g = Grammar::new();
    g.add_rule("expr", true, |_| alteraparser::grammar::seq(vec![opt(tok("A")), tok("B")]));
    g.compile();
    let mut types: Vec<String> = find_follow_tokens(&g.start_node()).into_iter().map(|(t, _)| t).collect();
    types.sort();
    assert_eq!(types, vec!["A", "B"]);
}

#[test]
fn test_many_follow() {
    let mut g = Grammar::new();
    g.add_rule("expr", true, |_| alteraparser::grammar::seq(vec![many(tok("A")), tok("B")]));
    g.compile();
    let mut types: Vec<String> = find_follow_tokens(&g.start_node()).into_iter().map(|(t, _)| t).collect();
    types.sort();
    assert_eq!(types, vec!["A", "B"]);
}

#[test]
fn test_grammar_compile() {
    let mut g = Grammar::new();
    g.add_rule("expr", true, |_| tok("NUM"));
    g.compile();
    let start = g.start_node();
    assert!(!start.get_children().is_empty());
}

#[test]
fn test_grammar_find_path_to_end() {
    let mut g = Grammar::new();
    g.add_rule("expr", true, |_| tok("NUM"));
    g.compile();
    let start = g.start_node();
    assert!(g.find_path_to_end(&start).is_none());
}

#[test]
fn test_grammar_multi_rule() {
    let mut g = Grammar::new();
    g.add_rule("term", false, |_| tok("NUM"));
    g.add_rule("sum", true, |h| {
        alteraparser::grammar::seq(vec![
            h.rule_ref("term"),
            many(alteraparser::grammar::seq(vec![tok("PLUS"), h.rule_ref("term")])),
        ])
    });
    g.compile();
    let follows = find_follow_tokens(&g.start_node());
    let types: Vec<String> = follows.into_iter().map(|(t, _)| t).collect();
    assert_eq!(types, vec!["NUM"]);
}

#[test]
fn test_rule_ref_independent_ends() {
    let mut g = Grammar::new();
    g.add_rule("factor", false, |_| tok("NUM"));
    g.add_rule("term", true, |h| {
        alteraparser::grammar::seq(vec![
            h.rule_ref("factor"),
            many(alteraparser::grammar::seq(vec![tok("MUL"), h.rule_ref("factor")])),
        ])
    });
    g.compile();
    let parser = Parser::new(g);
    let mut stream = TokenStreamFromList::new(vec![Token::new("NUM", "1", 1, 1)]);
    let result = parser.parse(&mut stream);
    assert!(result.is_ok(), "should parse without ambiguity: {:?}", result);
}

#[test]
fn test_find_path_to_end_nullable() {
    let mut g = Grammar::new();
    g.add_rule("expr", true, |_| opt(tok("NUM")));
    g.compile();
    let start = g.start_node();
    let path = g.find_path_to_end(&start).expect("the rule can match no token");
    assert_eq!(path.len(), 2);
    assert_eq!(path[0].kind, alteraparser::graph::GrammarNodeKind::RuleStart(String::from("expr")));
    assert_eq!(path[1].kind, alteraparser::graph::GrammarNodeKind::RuleEnd(String::from("expr")));
}

#[test]
fn test_follow_path_records_rule_nodes() {
    let mut g = Grammar::new();
    g.add_rule("inner", false, |_| tok_id("X", "x"));
    g.add_rule("outer", true, |h| h.rule_ref("inner"));
    g.compile();
    let follows = find_follow_tokens(&g.start_node());
    assert_eq!(follows.len(), 1);
    let kinds: Vec<_> = follows[0].1.iter().map(|n| n.kind.clone()).collect();
    assert_eq!(
        kinds,
        vec![
            alteraparser::graph::GrammarNodeKind::RuleStart(String::from("outer")),
            alteraparser::graph::GrammarNodeKind::RuleStart(String::from("inner")),
            alteraparser::graph::GrammarNodeKind::Token(String::from("X")),
        ]
    );
    assert_eq!(follows[0].1[2].id, "x");
}

#[test]
fn test_one_or_more_and_with_id() {
    let mut g = Grammar::new();
    g.add_rule("list", true, |_| one_or_more(tok("A")));
    let parser = Parser::new(g);
    let two = vec![Token::new("A", "a", 1, 1), Token::new("A", "a", 1, 3)];
    let ast = parser.parse(&mut TokenStreamFromList::new(two)).unwrap();
    assert_eq!(ast.children().len(), 2);
    let none: Vec<Token> = Vec::new();
    assert_eq!(
        parser.parse(&mut TokenStreamFromList::new(none)).unwrap_err(),
        alteraparser::error::ParseError::IncompleteParse
    );
    let t = with_id(tok("A"), "a");
    assert_eq!(t.get_id(), "a");
    let s = with_id(alteraparser::grammar::seq(vec![tok("A")]), "ignored");
    assert_eq!(s.get_id(), "");
}

#[test]
fn test_walk_check_rejects_left_recursion() {
    let mut g = Grammar::new();
    g.add_rule("expr", true, |h| alteraparser::grammar::seq(vec![h.rule_ref("expr"), tok("PLUS")]));
    g.compile();
    assert!(!g.walks_bounded());
    let mut ok = Grammar::new();
    ok.add_rule("expr", true, |h| alteraparser::grammar::seq(vec![tok("NUM"), opt(h.rule_ref("expr"))]));
    ok.compile();
    assert!(ok.walks_bounded());
}

#[test]
fn path_to_string_labels_rule_and_token_nodes() {
    let mut g = Grammar::new();
    g.add_rule("expr", true, |_| opt(tok("NUM")));
    g.compile();
    let path = g.find_path_to_end(&g.start_node()).expect("the rule can match no token");
    assert_eq!(path_to_string(&path), "RuleStart(expr) -> RuleEnd(expr)");

    let mut h = Grammar::new();
    h.add_rule("inner", false, |_| tok("X"));
    h.add_rule("outer", true, |r| r.rule_ref("inner"));
    h.compile();
    let follows = find_follow_tokens(&h.start_node());
    assert_eq!(path_to_string(&follows[0].1), "RuleStart(outer) -> RuleStart(inner) -> Token(X)");
    assert_eq!(path_to_string(&Vec::new()), "");
}

#[test]
fn get_ast_transformer_returns_registered_transformer() {
    let mut g = Grammar::new();
    g.add_rule("expr", true, |_| tok("NUM"));
    assert!(g.get_ast_transformer("expr").is_none());
    g.add_ast_transformer("expr", |a: Ast| Ast::new("renamed").with_id(&a.name));
    let t = g.get_ast_transformer("expr").expect("registered");
    let out = t.transform(Ast::new("expr"));
    assert_eq!(out.name, "renamed");
    assert_eq!(out.id, "expr");
    assert!(g.get_ast_transformer("other").is_none());
}

#[test]
fn element_in_node_enters_rule_body() {
    let mut g = Grammar::new();
    g.add_rule("num", true, |_| tok("NUM"));
    let reference = alteraparser::grammar::GrammarHandle.rule_ref("num");
    let n = g.element_in_node(&reference);
    assert_eq!(n.kind, GrammarNodeKind::RuleStart(String::from("num")));
    let children = n.get_children();
    assert_eq!(children.len(), 1);
    assert_eq!(children[0].kind, GrammarNodeKind::Token(String::from("NUM")));
    assert_eq!(children[0].get_children().len(), 1);
    assert_eq!(children[0].get_children()[0].kind, GrammarNodeKind::RuleEnd(String::from("num")));
    assert_eq!(g.element_out_node(&reference).kind, GrammarNodeKind::RuleEnd(String::from("num")));
}

#[test]
fn find_path_to_end_through_token_free_cycle() {
    // `many` of an optional element: a cycle that consumes no token.
    let mut g = Grammar::new();
    g.add_rule("list", true, |_| many(opt(tok("A"))));
    g.compile();
    assert!(!g.walks_bounded());
    let path = g.find_path_to_end(&g.start_node()).expect("the rule can match no token");
    assert_eq!(path_to_string(&path), "RuleStart(list) -> RuleEnd(list)");
}

#[test]
fn find_path_to_end_none_through_token_free_cycle() {
    let mut g = Grammar::new();
    g.add_rule("list", true, |_| alteraparser::grammar::seq(vec![many(opt(tok("A"))), tok("B")]));
    g.compile();
    assert!(g.find_path_to_end(&g.start_node()).is_none());
}

#[test]
fn find_path_to_end_ends_on_left_recursion() {
    let mut g = Grammar::new();
    g.add_rule("expr", true, |h| alteraparser::grammar::seq(vec![h.rule_ref("expr"), tok("PLUS")]));
    g.compile();
    assert!(g.find_path_to_end(&g.start_node()).is_none());
}

#[test]
fn start_node_enters_start_rule() {
    let mut g = Grammar::new();
    g.add_rule("other", false, |_| tok("X"));
    g.add_rule("expr", true, |_| tok("NUM"));
    g.compile();
    let children = g.start_node().get_children();
    assert_eq!(children.len(), 1);
    assert_eq!(children[0].kind, GrammarNodeKind::RuleStart(String::from("expr")));
    let inner = children[0].get_children();
    assert_eq!(inner.len(), 1);
    assert_eq!(inner[0].kind, GrammarNodeKind::Token(String::from("NUM")));
}

#[test]
fn nodes_share_their_graph() {
    let mut g = Grammar::new();
    g.add_rule("expr", true, |_| tok("NUM"));
    g.compile();
    let start = g.start_node();
    let children = start.get_children();
    assert!(std::rc::Rc::ptr_eq(&start.graph, &children[0].graph));
    assert!(std::rc::Rc::ptr_eq(&start.graph, &g.end_node().graph));
}

#[test]
fn token_element_new_sets_type_and_id() {
    let t = alteraparser::grammar::TokenElement::new("NUM", "n");
    assert_eq!(t.token_type, "NUM");
    assert_eq!(t.id, "n");
    let e = alteraparser::grammar::GrammarElement::Token(t);
    assert_eq!(e.get_id(), "n");
    assert_eq!(e.in_node().kind, GrammarNodeKind::Token(String::from("NUM")));
}

#[test]
fn rule_ref_has_reference_node_form() {
    let mut g = Grammar::new();
    g.add_rule("expr", true, |_| tok("NUM"));
    let r = alteraparser::grammar::GrammarHandle.rule_ref("expr");
    assert_eq!(r.get_id(), "");
    assert_eq!(r.in_node().kind, GrammarNodeKind::RuleStart(String::from("expr")));
    assert_eq!(r.out_node().kind, GrammarNodeKind::RuleEnd(String::from("expr")));
    assert!(r.in_node().get_children().is_empty());
    assert_eq!(g.element_in_node(&r).get_children()[0].kind, GrammarNodeKind::Token(String::from("NUM")));
}

#[test]
fn find_path_to_end_records_nested_rule_nodes() {
    let mut g = Grammar::new();
    g.add_rule("inner", false, |_| many(tok("X")));
    g.add_rule("outer", true, |h| h.rule_ref("inner"));
    g.compile();
    let path = g.find_path_to_end(&g.start_node()).expect("the rules can match no token");
    assert_eq!(
        path_to_string(&path),
        "RuleStart(outer) -> RuleStart(inner) -> RuleEnd(inner) -> RuleEnd(outer)"
    );
}
