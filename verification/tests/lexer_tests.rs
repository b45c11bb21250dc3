use alteraparser::error::ParseError;
use alteraparser::lexer::{advance_position, match_prefix_len, Lexer};
use alteraparser::lexer_grammar::{make_rule_source, LexerGrammar};
use alteraparser::token::TokenStream;

fn make_lg() -> LexerGrammar {
    let mut lg = LexerGrammar::new();
    lg.add_rule("WS", r"\s+", true, false);
    lg.add_rule("NUMBER", r"\d+", false, false);
    lg.add_rule("PLUS", r"\+", false, false);
    lg
}

fn make_expr_lexer_grammar() -> LexerGrammar {
    let mut lg = LexerGrammar::new();
    lg.add_rule("WHITESPACE", r"\s+", true, false);
    lg.add_rule("COMMENT", r"//.*", true, false);
    lg.add_rule("NUMBER", r"\d+", false, false);
    lg.add_rule("IDENT", r"[a-zA-Z_][a-zA-Z0-9_]*", false, false);
    lg.add_rule("PLUS", r"\+", false, false);
    lg.add_rule("MINUS", r"-", false, false);
    lg.add_rule("MULTIPLY", r"\*", false, false);
    lg.add_rule("DIVIDE", r"/", false, false);
    lg.add_rule("LPAREN", r"\(", false, false);
    lg.add_rule("RPAREN", r"\)", false, false);
    lg.add_rule("COMMA", r",", false, false);
    lg
}

#[test]
fn test_simple_tokenization() {
    let lg = make_lg();
    let mut lexer = Lexer::new(&lg, "3 + 42");
    assert_eq!(lexer.advance().unwrap().token_type, "NUMBER");
    assert_eq!(lexer.advance().unwrap().token_type, "PLUS");
    let t = lexer.advance().unwrap();
    assert_eq!(t.token_type, "NUMBER");
    assert_eq!(t.value, "42");
    assert!(lexer.advance().is_none());
}

#[test]
fn test_line_column_tracking() {
    let lg = make_lg();
    let mut lexer = Lexer::new(&lg, "3\n+");
    let t1 = lexer.next_token().unwrap().unwrap();
    assert_eq!(t1.line, 1);
    assert_eq!(t1.column, 1);
    let t2 = lexer.next_token().unwrap().unwrap();
    assert_eq!(t2.line, 2);
    assert_eq!(t2.column, 1);
}

#[test]
fn test_unexpected_char_error() {
    let lg = make_lg();
    let mut lexer = Lexer::new(&lg, "?");
    let result = lexer.next_token();
    assert!(matches!(result, Err(ParseError::UnexpectedChar { ch: '?', .. })));
}

#[test]
fn test_all_ignored() {
    let mut lg = LexerGrammar::new();
    lg.add_rule("WS", r"\s+", true, false);
    lg.add_rule("COMMENT", r"//.*", true, false);
    let mut lexer = Lexer::new(&lg, "// a comment\n   // another");
    assert!(lexer.next_token().unwrap().is_none());
}

#[test]
fn test_add_rule_anchors_pattern() {
    let mut lg = LexerGrammar::new();
    lg.add_rule("NUM", r"\d+", false, false);
    let r = &lg.rules()[0];
    assert!(r.pattern.is_match("123abc").unwrap());
    assert!(!r.pattern.is_match("abc123").unwrap());
}

#[test]
fn test_ignore_rule() {
    let mut lg = LexerGrammar::new();
    lg.add_rule("WS", r"\s+", true, false);
    assert!(lg.rules()[0].ignore);
}

#[test]
fn test_case_insensitive() {
    let mut lg = LexerGrammar::new();
    lg.add_rule("KW", "if", false, true);
    assert!(lg.rules()[0].pattern.is_match("IF").unwrap());
    assert!(lg.rules()[0].pattern.is_match("If").unwrap());
}

#[test]
fn test_lexer_simple_expr() {
    let lg = make_expr_lexer_grammar();
    let mut lexer = Lexer::new(&lg, "(3 + 5) * x");

    let expected: &[(&str, &str, usize, usize)] = &[
        ("LPAREN", "(", 1, 1),
        ("NUMBER", "3", 1, 2),
        ("PLUS", "+", 1, 4),
        ("NUMBER", "5", 1, 6),
        ("RPAREN", ")", 1, 7),
        ("MULTIPLY", "*", 1, 9),
        ("IDENT", "x", 1, 11),
    ];

    for &(tok_type, value, line, col) in expected {
        let t = lexer.advance().expect("expected token");
        assert_eq!(t.token_type, tok_type, "token_type mismatch");
        assert_eq!(t.value, value, "value mismatch");
        assert_eq!(t.line, line, "line mismatch");
        assert_eq!(t.column, col, "column mismatch");
    }

    assert!(lexer.advance().is_none(), "stream should be exhausted");
}

#[test]
fn test_lexer_all_commented() {
    let lg = make_expr_lexer_grammar();
    let mut lexer = Lexer::new(&lg, "// This is a comment\n   // Another comment");
    assert!(lexer.advance().is_none());
}

#[test]
fn advance_position_without_newline_adds_bytes() {
    assert_eq!(advance_position(3, 5, "abc"), (3, 8));
    // 'é' takes two bytes in UTF-8
    assert_eq!(advance_position(1, 1, "é"), (1, 3));
    assert_eq!(advance_position(4, 2, ""), (4, 2));
}

#[test]
fn advance_position_counts_newlines_and_tail() {
    assert_eq!(advance_position(1, 7, "a\nbc"), (2, 3));
    assert_eq!(advance_position(2, 9, "\n\n"), (4, 1));
    assert_eq!(advance_position(1, 1, "x\ny\nzzz"), (3, 4));
}

#[test]
fn match_prefix_len_accepts_only_nonempty_prefixes() {
    assert_eq!(match_prefix_len(&Some("ab".to_string()), "abc"), Some(2));
    assert_eq!(match_prefix_len(&Some("bc".to_string()), "abc"), None);
    assert_eq!(match_prefix_len(&Some(String::new()), "abc"), None);
    assert_eq!(match_prefix_len(&None, "abc"), None);
    assert_eq!(match_prefix_len(&Some("abcd".to_string()), "abc"), None);
}

#[test]
fn make_rule_source_anchors_and_flags() {
    assert_eq!(make_rule_source(r"\d+", false), r"^\d+");
    assert_eq!(make_rule_source(r"^\d+", false), r"^\d+");
    assert_eq!(make_rule_source("if", true), "(?i)^if");
}

#[test]
fn rule_source_is_anchored_and_lexer_uses_match_text() {
    let lg = make_lg();
    let number = lg.rule_at(1);
    assert_eq!(number.source_str(), r"^\d+");
    let mut lexer = Lexer::new(&lg, "4217+");
    assert_eq!(lexer.advance().unwrap().value, "4217");
    assert_eq!(lexer.advance().unwrap().value, "+");
}

#[test]
fn try_add_rule_rejects_bad_pattern() {
    let mut lg = LexerGrammar::new();
    assert!(!lg.try_add_rule("BAD", "(", false, false));
    assert_eq!(lg.rule_count(), 0);
    assert!(lg.try_add_rule("NUM", r"\d+", false, false));
    assert_eq!(lg.rule_count(), 1);
    assert_eq!(lg.rules()[0].token_type_of("12"), "NUM");
}

#[test]
fn lexer_stream_keeps_error_and_set_input_restarts() {
    let lg = make_lg();
    let mut lexer = Lexer::new(&lg, "1 ?");
    assert_eq!(lexer.advance().unwrap().value, "1");
    assert!(lexer.advance().is_none());
    assert_eq!(lexer.error(), Some(ParseError::UnexpectedChar { ch: '?', line: 1, col: 3 }));
    lexer.set_input("7");
    assert_eq!(lexer.error(), None);
    let t = lexer.advance().unwrap();
    assert_eq!((t.token_type.as_str(), t.value.as_str(), t.line, t.column), ("NUMBER", "7", 1, 1));
}

#[test]
fn lexer_first_rule_wins_on_equal_prefixes() {
    let mut lg = LexerGrammar::new();
    lg.add_rule("KW", "if", false, false);
    lg.add_rule("IDENT", "[a-z]+", false, false);
    let mut lexer = Lexer::new(&lg, "if");
    assert_eq!(lexer.advance().unwrap().token_type, "KW");
}
