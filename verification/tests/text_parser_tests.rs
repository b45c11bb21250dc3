use alteraparser::ast::{Ast, AstStrWriter};
use alteraparser::error::ParseError;
use alteraparser::grammar::{choice, many, opt, tok, tok_id, with_id, Grammar};
use alteraparser::lexer_grammar::LexerGrammar;
use alteraparser::parser::TextParser;

fn make_lexer_grammar() -> LexerGrammar {
    let mut lg = LexerGrammar::new();
    lg.add_rule("WHITESPACE", r"\s+", true, false);
    lg.add_rule("COMMENT", r"//.*", true, false);
    lg.add_rule("NUMBER", r"\d+", false, false);
    lg.add_rule("IDENT", r"[a-zA-Z_][a-zA-Z0-9_]*", false, false);
    lg.add_rule("PLUS", r"\+", false, false);
    lg.add_rule("MINUS", r"-", false, false);
    lg.add_rule("MULTIPLY", r"\*", false, false);
    lg.add_rule("DIVIDE", r"/", false, false);
    lg.add_rule("LPAREN", r"\(", false, false);
    lg.add_rule("RPAREN", r"\)", false, false);
    lg.add_rule("COMMA", r",", false, false);
    lg
}

fn trans_single_child(ast: Ast) -> Ast {
    if ast.children().len() == 1 {
        ast.nth_child(0).clone()
    } else {
        ast
    }
}

fn make_grammar() -> Grammar {
    let mut g = Grammar::new();
    g.add_rule("sum", true, |h| {
        alteraparser::grammar::seq(vec![
            h.rule_ref("term"),
            many(alteraparser::grammar::seq(vec![choice(vec![tok("PLUS"), tok("MINUS")]), h.rule_ref("term")])),
        ])
    });
    g.add_rule("term", false, |h| {
        alteraparser::grammar::seq(vec![
            h.rule_ref("factor"),
            many(alteraparser::grammar::seq(vec![choice(vec![tok("MULTIPLY"), tok("DIVIDE")]), h.rule_ref("factor")])),
        ])
    });
    g.add_rule("factor", false, |h| {
        choice(vec![tok("NUMBER"), tok("IDENT"), h.rule_ref("group"), h.rule_ref("call")])
    });
    g.add_rule("group", false, |h| alteraparser::grammar::seq(vec![tok("LPAREN"), h.rule_ref("sum"), tok("RPAREN")]));
    g.add_ast_transformer("group", |ast: Ast| ast.nth_child(1).clone());
    g.add_rule("call", false, |h| {
        let rest_args = many(alteraparser::grammar::seq(vec![tok("COMMA"), with_id(h.rule_ref("sum"), "arg")]));
        let args = opt(alteraparser::grammar::seq(vec![with_id(h.rule_ref("sum"), "arg"), rest_args]));
        alteraparser::grammar::seq(vec![tok_id("IDENT", "callee"), tok("LPAREN"), args, tok("RPAREN")])
    });
    g.add_ast_transformer("call", |ast: Ast| {
        let mut call_node = Ast::new("call");
        let callee_value = ast.child_by_id("callee", true).expect("callee missing").value.unwrap_or_default();
        call_node.add_child(Ast::with_value("callee", &callee_value));
        let mut args_node = Ast::new("arguments");
        for arg in ast.children_by_id("arg", true) {
            args_node.add_child(arg);
        }
        call_node.add_child(args_node);
        call_node
    });
    g.add_ast_transformer("sum", trans_single_child);
    g.add_ast_transformer("term", trans_single_child);
    g.add_ast_transformer("factor", trans_single_child);
    g
}

fn make_text_parser() -> TextParser {
    TextParser::new(make_grammar(), make_lexer_grammar())
}

#[test]
fn test_text_parser_simple_expr() {
    let parser = make_text_parser();
    let input = "\n        3 + 5 * x * y(42, mult(a, b))\n    ";
    let ast = parser.parse_text(input).expect("parse should succeed");
    assert!(
        ast.name == "sum" || ast.name == "term" || ast.name == "call" || ast.name == "NUMBER" || ast.name == "IDENT",
        "unexpected root name: {}",
        ast.name
    );
    let writer = AstStrWriter::default();
    println!("AST:\n{}", writer.write_ast_to_str(&ast));
}

#[test]
fn test_invalid_syntax() {
    let parser = make_text_parser();
    let input = "\n        3 + * 5\n    ";
    let err = parser.parse_text(input).unwrap_err();
    match err {
        ParseError::UnexpectedToken { found, line, col: _ } => {
            assert_eq!(found, "*");
            assert_eq!(line, 2);
        },
        other => panic!("Expected UnexpectedToken, got {:?}", other),
    }
}

#[test]
fn text_parser_reports_lex_error() {
    let parser = make_text_parser();
    let err = parser.parse_text("1 + $").unwrap_err();
    assert_eq!(err, ParseError::UnexpectedChar { ch: '$', line: 1, col: 5 });
}

#[test]
fn text_parser_builds_call_node() {
    let parser = make_text_parser();
    let ast = parser.parse("f(1, 2)").unwrap();
    assert_eq!(ast.name, "call");
    assert_eq!(ast.nth_child(0).name, "callee");
    assert_eq!(ast.nth_child(0).value.as_deref(), Some("f"));
    assert_eq!(ast.nth_child(1).name, "arguments");
    assert_eq!(ast.nth_child(1).children().len(), 2);
}

#[test]
fn text_parser_parse_rule_on_term() {
    let parser = make_text_parser();
    let ast = parser.parse_rule("term", "2 * 3").unwrap();
    assert_eq!(ast.name, "term");
    assert_eq!(ast.children().len(), 3);
    assert!(parser.walks_bounded());
}

#[test]
fn text_parser_incomplete_input() {
    let parser = make_text_parser();
    assert_eq!(parser.parse_text("(1 + 2").unwrap_err(), ParseError::IncompleteParse);
}
