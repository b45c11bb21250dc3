//! The tokens of the grammar definition language.
use vstd::prelude::*;

use crate::lexer_grammar::{regex_compiles, rule_source, rule_is, LexerGrammar, LexerRule};

verus! {

/// The rules of the definition language: token type, pattern, ignored.
pub open spec fn meta_lexer_table() -> Seq<(Seq<char>, Seq<char>, bool)> {
    seq![
        ("WHITESPACE"@, "\\s+"@, true),
        ("COMMENT"@, "\\-\\-.*"@, true),
        ("QUESTION_MARK"@, "\\?"@, false),
        ("ASTERISK"@, "\\*"@, false),
        ("PLUS"@, "\\+"@, false),
        ("LPAREN"@, "\\("@, false),
        ("RPAREN"@, "\\)"@, false),
        ("LBRACKET"@, "<"@, false),
        ("RBRACKET"@, ">"@, false),
        ("PIPE"@, "\\|"@, false),
        ("HASH"@, "#"@, false),
        ("SEMICOLON"@, ";"@, false),
        ("COMMA"@, ","@, false),
        ("RARROW"@, "\\->"@, false),
        ("IDENT"@, "[a-z][a-z0-9_]*"@, false),
        ("TOKEN"@, "[A-Z][A-Z0-9_]*"@, false),
        ("NUMBER"@, "\\-\\-"@, false),
        ("START_ANNOTATION"@, "@start"@, false),
    ]
}

/// The entries of `table` whose patterns compile.
pub open spec fn compiling(table: Seq<(Seq<char>, Seq<char>, bool)>) -> Seq<(Seq<char>, Seq<char>, bool)> {
    table.filter(|e: (Seq<char>, Seq<char>, bool)| regex_compiles(rule_source(e.1, false)))
}

/// The rules are the table's entries, in order, with fixed token types.
pub open spec fn rules_from_table(rules: Seq<LexerRule>, table: Seq<(Seq<char>, Seq<char>, bool)>) -> bool {
    &&& rules.len() == table.len()
    &&& forall|i: int|
        0 <= i < rules.len() ==> {
            &&& rule_is(#[trigger] rules[i], table[i].1, false, table[i].2)
            &&& rules[i].derivation().obeys()
            &&& forall|v: Seq<char>| #[trigger] rules[i].derivation().spec_derive(v) == table[i].0
        }
}

/// The lexer grammar of the definition language. A rule whose pattern
/// would not compile is left out.
pub fn make_lexer_grammar() -> (lg: LexerGrammar)
    ensures
        rules_from_table(lg.rules_view(), compiling(meta_lexer_table())),
        lg.derivations_total(),
        lg.derivations_obey(),
{
    let table: Vec<(&str, &str, bool)> = vec![
        ("WHITESPACE", "\\s+", true),
        ("COMMENT", "\\-\\-.*", true),
        ("QUESTION_MARK", "\\?", false),
        ("ASTERISK", "\\*", false),
        ("PLUS", "\\+", false),
        ("LPAREN", "\\(", false),
        ("RPAREN", "\\)", false),
        ("LBRACKET", "<", false),
        ("RBRACKET", ">", false),
        ("PIPE", "\\|", false),
        ("HASH", "#", false),
        ("SEMICOLON", ";", false),
        ("COMMA", ",", false),
        ("RARROW", "\\->", false),
        ("IDENT", "[a-z][a-z0-9_]*", false),
        ("TOKEN", "[A-Z][A-Z0-9_]*", false),
        ("NUMBER", "\\-\\-", false),
        ("START_ANNOTATION", "@start", false),
    ];
    let ghost tv = Seq::new(table@.len(), |i: int| (table@[i].0@, table@[i].1@, table@[i].2));
    assert(tv =~= meta_lexer_table());
    let mut lg = LexerGrammar::new();
    let n = table.len();
    let ghost keep = |e: (Seq<char>, Seq<char>, bool)| regex_compiles(rule_source(e.1, false));
    assert(tv.take(0).filter(keep) =~= Seq::<(Seq<char>, Seq<char>, bool)>::empty());
    for i in 0..n
        invariant
            n == table@.len(),
            tv == Seq::new(table@.len(), |i: int| (table@[i].0@, table@[i].1@, table@[i].2)),
            keep == (|e: (Seq<char>, Seq<char>, bool)| regex_compiles(rule_source(e.1, false))),
            rules_from_table(lg.rules_view(), tv.take(i as int).filter(keep)),
            lg.derivations_total(),
            lg.derivations_obey(),
    {
        let (tt, pat, ign) = table[i];
        let ghost before = lg.rules_view();
        let ghost prev = tv.take(i as int).filter(keep);
        let added = lg.try_add_rule(tt, pat, ign, false);
        proof {
            assert(tv.take(i + 1).drop_last() =~= tv.take(i as int));
            assert(tv.take(i + 1).last() == tv[i as int]);
            reveal_with_fuel(Seq::filter, 1);
            assert(tv[i as int] == (tt@, pat@, ign));
            if added {
                assert(tv.take(i + 1).filter(keep) == prev.push(tv[i as int]));
                assert forall|j: int| 0 <= j < lg.rules_view().len() implies {
                    &&& rule_is(#[trigger] lg.rules_view()[j], prev.push(tv[i as int])[j].1, false, prev.push(tv[i as int])[j].2)
                    &&& lg.rules_view()[j].derivation().obeys()
                    &&& forall|v: Seq<char>| #[trigger] lg.rules_view()[j].derivation().spec_derive(v) == prev.push(tv[i as int])[j].0
                } by {
                    if j < before.len() {
                        assert(lg.rules_view()[j] == before[j]);
                    }
                }
            } else {
                assert(tv.take(i + 1).filter(keep) == prev);
            }
        }
    }
    assert(tv.take(n as int) =~= tv);
    lg
}

} // verus!
