use alteraparser::ast::{Ast, AstStrWriter};
use alteraparser::error::ParseError;
use alteraparser::lexer::Lexer;
use alteraparser::meta::codegen::{CodeGenerator, CodeGeneratorBuilder, Lines};
use alteraparser::meta::grammar::make_grammar;
use alteraparser::meta::lexer_grammar::make_lexer_grammar;
use alteraparser::meta::macros::MacroExpander;
use alteraparser::parser::Parser;

const EXPRESSION_GRAMMAR: &str = r#"
        -- Expression grammar
        @start
        sum -> term ((op#ADD | op#SUB) term)*;

        term -> product ((op#MUL | op#DIV) product)*;

        product -> NUMBER | IDENTIFIER | group;

        group -> LPAREN sum RPAREN;
        "#;

#[test]
fn test_codegen() {
    let code_gen = CodeGeneratorBuilder::new()
        .indent_size(4)
        .top_comment("Generated grammar code")
        .function_name("make_expression_grammar")
        .build();

    println!("{}", code_gen.generate_code(&EXPRESSION_GRAMMAR).unwrap());
}

#[test]
fn test_grammar() {
    let lexer_grammar = make_lexer_grammar();
    let mut lexer = Lexer::new(&lexer_grammar, EXPRESSION_GRAMMAR);

    let grammar = make_grammar();
    let parser = Parser::new(grammar);

    let ast = parser.parse(&mut lexer).unwrap();
    let writer = AstStrWriter::new(2);

    println!("{}", writer.write_ast_to_str(&ast));
}

#[test]
fn scan_grammar_def() {
    let lexer_grammar = make_lexer_grammar();
    let mut lexer = Lexer::new(&lexer_grammar, EXPRESSION_GRAMMAR);

    loop {
        match lexer.next_token() {
            Ok(Some(token)) => println!("{:?}", token),
            Ok(None) => break,
            Err(e) => panic!("Lex error: {:?}", e),
        }
    }
}

#[test]
fn meta_grammar_builds_rule_nodes() {
    let lexer_grammar = make_lexer_grammar();
    let mut lexer = Lexer::new(&lexer_grammar, "@start s -> A b?; b -> x#B;");
    let ast = Parser::new(make_grammar()).parse(&mut lexer).unwrap();
    assert_eq!(ast.name, "grammar");
    assert_eq!(ast.children().len(), 2);

    let s = ast.nth_child(0);
    assert_eq!(s.name, "start_rule");
    assert_eq!(s.nth_child(0).name, "name");
    assert_eq!(s.nth_child(0).value.as_deref(), Some("s"));
    let body = s.nth_child(1);
    assert_eq!(body.name, "seq");
    assert_eq!(body.nth_child(0).name, "token");
    assert_eq!(body.nth_child(0).value.as_deref(), Some("A"));
    assert_eq!(body.nth_child(1).name, "opt");
    assert_eq!(body.nth_child(1).nth_child(0).name, "rule_ref");
    assert_eq!(body.nth_child(1).nth_child(0).value.as_deref(), Some("b"));

    let b = ast.nth_child(1);
    assert_eq!(b.name, "rule");
    let tok = b.nth_child(1);
    assert_eq!(tok.name, "token");
    assert_eq!(tok.value.as_deref(), Some("B"));
    assert_eq!(tok.nth_child(0).name, "id");
    assert_eq!(tok.nth_child(0).value.as_deref(), Some("x"));
}

#[test]
fn codegen_emits_exact_code_for_small_grammar() {
    let code_gen = CodeGeneratorBuilder::new().build();
    let code = code_gen.generate_code("@start s -> A b?; b -> B;").unwrap();
    let expected = [
        "#![allow(unused)]",
        "use alteraparser::prelude::*;",
        "",
        "pub fn make_grammar() -> Grammar {",
        "  let mut grammar = Grammar::new();",
        "  ",
        "  grammar.add_rule(\"s\", true, |g| {",
        "    seq(vec![",
        "      tok(\"A\"),",
        "      opt(",
        "        g.rule_ref(\"b\")",
        "      ),",
        "    ])",
        "  });",
        "  ",
        "  grammar.add_rule(\"b\", false, |g| {",
        "    tok(\"B\")",
        "  });",
        "  ",
        "  grammar",
        "}",
    ]
    .join("\n")
        + "\n";
    assert_eq!(code, expected);
}

#[test]
fn codegen_top_comment_and_ids() {
    let code_gen = CodeGenerator::new(4, "made here".to_string(), "build".to_string());
    let code = code_gen.generate_code("x -> a#A | r#y+;").unwrap();
    let expected = [
        "// made here",
        "",
        "#![allow(unused)]",
        "use alteraparser::prelude::*;",
        "",
        "pub fn build() -> Grammar {",
        "    let mut grammar = Grammar::new();",
        "    ",
        "    grammar.add_rule(\"x\", false, |g| {",
        "        choice(vec![",
        "            tok_id(\"A\", \"a\"),",
        "            one_or_more(",
        "                g.rule_ref_id(\"y\", \"r\")",
        "            ),",
        "        ])",
        "    });",
        "    ",
        "    grammar",
        "}",
    ]
    .join("\n")
        + "\n";
    assert_eq!(code, expected);
}

#[test]
fn codegen_reports_syntax_error() {
    let code_gen = CodeGeneratorBuilder::new().build();
    let err = code_gen.generate_code("s -> ;;").unwrap_err();
    assert!(matches!(err, ParseError::UnexpectedToken { .. }));
}

#[test]
fn lines_indent_and_content() {
    let mut lines = Lines::new(3);
    lines.writeln("a");
    lines.indent();
    lines.write("b");
    lines.write("c");
    lines.writeln("");
    lines.dedent();
    lines.write("d");
    assert_eq!(lines.get_content(), "a\n   bc\nd\n");
}

fn leaf(name: &str, value: &str) -> Ast {
    Ast::with_value(name, value)
}

fn node(name: &str, children: Vec<Ast>) -> Ast {
    let mut a = Ast::new(name);
    for c in children {
        a.add_child(c);
    }
    a
}

#[test]
fn macro_expander_substitutes_arguments() {
    // enclosed<content> -> LPAREN content RPAREN;
    let def = node(
        "macro",
        vec![
            leaf("name", "enclosed"),
            node("parameters", vec![leaf("param", "content")]),
            node("seq", vec![leaf("token", "LPAREN"), leaf("param_ref", "content"), leaf("token", "RPAREN")]),
        ],
    );
    // item -> enclosed<NUMBER>;
    let call = node("macro_call", vec![leaf("name", "enclosed"), node("arguments", vec![leaf("token", "NUMBER")])]);
    let rule = node("rule", vec![leaf("name", "item"), call]);
    let grammar = node("grammar", vec![rule, def]);

    let mut expander = MacroExpander::new();
    let expanded = expander.expand_macros(grammar);
    assert_eq!(expanded.name, "grammar");
    assert_eq!(expanded.children().len(), 1);
    let body = expanded.nth_child(0).nth_child(1);
    assert_eq!(body.name, "seq");
    let values: Vec<Option<&str>> = body.children().iter().map(|c| c.value.as_deref()).collect();
    assert_eq!(values, vec![Some("LPAREN"), Some("NUMBER"), Some("RPAREN")]);
}

#[test]
fn macro_expander_nested_calls() {
    // group<content> -> LPAREN content RPAREN;  a -> group<group<B>>;
    let def = node(
        "macro",
        vec![
            leaf("name", "group"),
            node("parameters", vec![leaf("param", "content")]),
            node("seq", vec![leaf("token", "LPAREN"), leaf("param_ref", "content"), leaf("token", "RPAREN")]),
        ],
    );
    let inner = node("macro_call", vec![leaf("name", "group"), node("arguments", vec![leaf("token", "B")])]);
    let outer = node("macro_call", vec![leaf("name", "group"), node("arguments", vec![inner])]);
    let grammar = node("grammar", vec![def, node("rule", vec![leaf("name", "a"), outer])]);

    let expanded = MacroExpander::new().expand_macros(grammar);
    let body = expanded.nth_child(0).nth_child(1);
    assert_eq!(body.name, "seq");
    assert_eq!(body.nth_child(0).value.as_deref(), Some("LPAREN"));
    assert_eq!(body.nth_child(1).name, "seq");
    assert_eq!(body.nth_child(1).nth_child(1).value.as_deref(), Some("B"));
    assert_eq!(body.nth_child(2).value.as_deref(), Some("RPAREN"));
}

#[test]
fn macro_call_syntax_is_not_in_the_definition_grammar() {
    let code = "definition -> enclosed<DEF IDENTIFIER expr>;";
    let lexer_grammar = make_lexer_grammar();
    let mut lexer = Lexer::new(&lexer_grammar, code);
    let parser = Parser::new(make_grammar());
    let r = parser.parse(&mut lexer);
    assert!(matches!(r, Err(ParseError::UnexpectedToken { .. })), "{:?}", r);
}
