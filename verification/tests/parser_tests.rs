use alteraparser::ast::{Ast, AstStrWriter};
use alteraparser::error::ParseError;
use alteraparser::grammar::{choice, many, opt, tok, tok_id, with_id, Grammar};
use alteraparser::lexer_grammar::LexerGrammar;
use alteraparser::parser::Parser;
use alteraparser::token::{Token, TokenStreamFromList};

fn make_lexer_grammar() -> LexerGrammar {
    let mut lg = LexerGrammar::new();
    lg.add_rule("WHITESPACE", r"\s+", true, false);
    lg.add_rule("COMMENT", r"//.*", true, false);
    lg.add_rule("NUMBER", r"\d+", false, false);
    lg.add_rule("IDENT", r"[a-zA-Z_][a-zA-Z0-9_]*", false, false);
    lg.add_rule("PLUS", r"\+", false, false);
    lg.add_rule("MINUS", r"-", false, false);
    lg.add_rule("MULTIPLY", r"\*", false, false);
    lg.add_rule("DIVIDE", r"/", false, false);
    lg.add_rule("LPAREN", r"\(", false, false);
    lg.add_rule("RPAREN", r"\)", false, false);
    lg.add_rule("COMMA", r",", false, false);
    lg
}

fn trans_single_child(ast: Ast) -> Ast {
    if ast.children().len() == 1 {
        ast.nth_child(0).clone()
    } else {
        ast
    }
}

fn make_grammar() -> Grammar {
    let mut g = Grammar::new();
    g.add_rule("sum", true, |h| {
        alteraparser::grammar::seq(vec![
            h.rule_ref("term"),
            many(alteraparser::grammar::seq(vec![choice(vec![tok("PLUS"), tok("MINUS")]), h.rule_ref("term")])),
        ])
    });
    g.add_rule("term", false, |h| {
        alteraparser::grammar::seq(vec![
            h.rule_ref("factor"),
            many(alteraparser::grammar::seq(vec![choice(vec![tok("MULTIPLY"), tok("DIVIDE")]), h.rule_ref("factor")])),
        ])
    });
    g.add_rule("factor", false, |h| {
        choice(vec![tok("NUMBER"), tok("IDENT"), h.rule_ref("group"), h.rule_ref("call")])
    });
    g.add_rule("group", false, |h| alteraparser::grammar::seq(vec![tok("LPAREN"), h.rule_ref("sum"), tok("RPAREN")]));
    g.add_ast_transformer("group", |ast: Ast| ast.nth_child(1).clone());
    g.add_rule("call", false, |h| {
        let rest_args = many(alteraparser::grammar::seq(vec![tok("COMMA"), with_id(h.rule_ref("sum"), "arg")]));
        let args = opt(alteraparser::grammar::seq(vec![with_id(h.rule_ref("sum"), "arg"), rest_args]));
        alteraparser::grammar::seq(vec![tok_id("IDENT", "callee"), tok("LPAREN"), args, tok("RPAREN")])
    });
    g.add_ast_transformer("call", |ast: Ast| {
        let mut call_node = Ast::new("call");
        let callee_value = ast.child_by_id("callee", true).expect("callee missing").value.unwrap_or_default();
        call_node.add_child(Ast::with_value("callee", &callee_value));
        let mut args_node = Ast::new("arguments");
        for arg in ast.children_by_id("arg", true) {
            args_node.add_child(arg);
        }
        call_node.add_child(args_node);
        call_node
    });
    g.add_ast_transformer("sum", trans_single_child);
    g.add_ast_transformer("term", trans_single_child);
    g.add_ast_transformer("factor", trans_single_child);
    g
}

fn run_parser(tokens: Vec<Token>) -> Ast {
    let grammar = make_grammar();
    let parser = Parser::new(grammar);
    let mut stream = TokenStreamFromList::new(tokens);
    let ast = parser.parse(&mut stream).expect("parse should succeed");
    let writer = AstStrWriter::default();
    println!("{}", writer.write_ast_to_str(&ast));
    ast
}

fn single_token_grammar() -> Grammar {
    let mut g = Grammar::new();
    g.add_rule("expr", true, |_| tok("NUM"));
    g
}

#[test]
fn test_parse_single_token() {
    let g = single_token_grammar();
    let parser = Parser::new(g);
    let mut stream = TokenStreamFromList::new(vec![Token::new("NUM", "42", 1, 1)]);
    let ast = parser.parse(&mut stream).unwrap();
    assert_eq!(ast.name, "expr");
    assert_eq!(ast.children()[0].value.as_deref(), Some("42"));
}

#[test]
fn test_unexpected_token_error() {
    let g = single_token_grammar();
    let parser = Parser::new(g);
    let mut stream = TokenStreamFromList::new(vec![Token::new("IDENT", "foo", 1, 1)]);
    let err = parser.parse(&mut stream).unwrap_err();
    assert!(matches!(err, ParseError::UnexpectedToken { .. }));
}

#[test]
fn test_incomplete_parse_error() {
    let mut g = Grammar::new();
    g.add_rule("expr", true, |_| alteraparser::grammar::seq(vec![tok("NUM"), tok("PLUS"), tok("NUM")]));
    let parser = Parser::new(g);
    let mut stream = TokenStreamFromList::new(vec![Token::new("NUM", "1", 1, 1)]);
    let err = parser.parse(&mut stream).unwrap_err();
    assert!(matches!(err, ParseError::IncompleteParse));
}

#[test]
fn test_parse_sequence() {
    let mut g = Grammar::new();
    g.add_rule("expr", true, |_| alteraparser::grammar::seq(vec![tok("NUM"), tok("PLUS"), tok("NUM")]));
    let parser = Parser::new(g);
    let tokens = vec![Token::new("NUM", "1", 1, 1), Token::new("PLUS", "+", 1, 2), Token::new("NUM", "2", 1, 3)];
    let mut stream = TokenStreamFromList::new(tokens);
    let ast = parser.parse(&mut stream).unwrap();
    assert_eq!(ast.children().len(), 3);
}

#[test]
fn test_simple_expr() {
    let lg = make_lexer_grammar();
    let tokens = vec![
        Token::new(lg.token_type("LPAREN"), "(", 1, 1),
        Token::new(lg.token_type("NUMBER"), "3", 1, 2),
        Token::new(lg.token_type("PLUS"), "+", 1, 4),
        Token::new(lg.token_type("NUMBER"), "5", 1, 6),
        Token::new(lg.token_type("RPAREN"), ")", 1, 7),
        Token::new(lg.token_type("MULTIPLY"), "*", 1, 9),
        Token::new(lg.token_type("IDENT"), "x", 1, 11),
    ];
    let ast = run_parser(tokens);
    assert_eq!(ast.name, "term");
}

#[test]
fn test_call_expr() {
    let lg = make_lexer_grammar();
    let tokens = vec![
        Token::new(lg.token_type("IDENT"), "foo", 1, 1),
        Token::new(lg.token_type("LPAREN"), "(", 1, 4),
        Token::new(lg.token_type("NUMBER"), "42", 1, 5),
        Token::new(lg.token_type("COMMA"), ",", 1, 7),
        Token::new(lg.token_type("IDENT"), "bar", 1, 9),
        Token::new(lg.token_type("RPAREN"), ")", 1, 12),
    ];
    let ast = run_parser(tokens);
    assert_eq!(ast.name, "call");
    assert_eq!(ast.nth_child(0).value.as_deref(), Some("foo"));
    let args = ast.nth_child(1);
    assert_eq!(args.children().len(), 2);
}

#[test]
fn test_ambiguous_grammar() {
    let mut g = Grammar::new();
    g.add_rule("expr", true, |_| choice(vec![tok("A"), tok("A")]));
    let parser = Parser::new(g);
    let mut stream = TokenStreamFromList::new(vec![Token::new("A", "a", 1, 1)]);
    assert_eq!(parser.parse(&mut stream).unwrap_err(), ParseError::AmbiguousGrammar);
}

#[test]
fn test_unexpected_token_position() {
    let g = single_token_grammar();
    let parser = Parser::new(g);
    let mut stream =
        TokenStreamFromList::new(vec![Token::new("NUM", "1", 1, 1), Token::new("NUM", "2", 4, 9)]);
    assert_eq!(
        parser.parse(&mut stream).unwrap_err(),
        ParseError::UnexpectedToken { found: String::from("2"), line: 4, col: 9 }
    );
}

#[test]
fn test_empty_input_for_nullable_start() {
    let mut g = Grammar::new();
    g.add_rule("list", true, |_| many(tok("A")));
    let parser = Parser::new(g);
    let none: Vec<Token> = Vec::new();
    let ast = parser.parse(&mut TokenStreamFromList::new(none)).unwrap();
    assert_eq!(ast.name, "list");
    assert_eq!(ast.children().len(), 0);
}

#[test]
fn test_ids_and_nested_rules() {
    let mut g = Grammar::new();
    g.add_rule("inner", false, |_| tok_id("NUM", "n"));
    g.add_rule("outer", true, |h| alteraparser::grammar::seq(vec![h.rule_ref_id("inner", "i"), tok("END")]));
    let parser = Parser::new(g);
    let tokens = vec![Token::new("NUM", "7", 1, 1), Token::new("END", ";", 1, 2)];
    let ast = parser.parse(&mut TokenStreamFromList::new(tokens)).unwrap();
    assert_eq!(ast.name, "outer");
    assert_eq!(ast.children().len(), 2);
    let inner = ast.nth_child(0);
    assert_eq!(inner.name, "inner");
    assert_eq!(inner.id, "i");
    assert_eq!(inner.nth_child(0).id, "n");
    assert_eq!(inner.nth_child(0).value.as_deref(), Some("7"));
    assert_eq!(ast.nth_child(1).value.as_deref(), Some(";"));
}

#[test]
fn test_parse_rule_on_its_own() {
    let parser = Parser::new(make_grammar());
    let tokens = vec![Token::new("NUMBER", "2", 1, 1), Token::new("MULTIPLY", "*", 1, 2), Token::new("NUMBER", "3", 1, 3)];
    let ast = parser.parse_rule("term", &mut TokenStreamFromList::new(tokens)).unwrap();
    assert_eq!(ast.name, "term");
    assert_eq!(ast.children().len(), 3);
}

#[test]
fn test_transformer_keeps_id() {
    let mut g = Grammar::new();
    g.add_rule("inner", false, |_| tok("NUM"));
    g.add_rule("outer", true, |h| h.rule_ref_id("inner", "kept"));
    g.add_ast_transformer("inner", |_ast: Ast| Ast::new("replaced").with_id("lost"));
    let parser = Parser::new(g);
    let ast = parser.parse(&mut TokenStreamFromList::new(vec![Token::new("NUM", "1", 1, 1)])).unwrap();
    assert_eq!(ast.nth_child(0).name, "replaced");
    assert_eq!(ast.nth_child(0).id, "kept");
}
