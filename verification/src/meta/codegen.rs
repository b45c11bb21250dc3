//! Generation of Rust code that builds a grammar from its definition.
use vstd::prelude::*;

use crate::ast::{spaces, Ast, AstView};
use crate::error::ParseError;
use crate::meta::grammar::make_grammar;
use crate::meta::lexer_grammar::make_lexer_grammar;
use crate::graph::{lookup_rule, spec_compile, GraphView};
use crate::meta::grammar::{meta_bodies, meta_names, meta_transformed};
use crate::meta::lexer_grammar::{compiling, meta_lexer_table, rules_from_table};
use crate::parser::{text_result, transformed, TextParser};
use crate::token::Token;
use crate::walks::walk_check;

verus! {

/// The mathematical value of [`Lines`]: the finished lines, the indentation
/// level and size, and the line being written.
pub struct LinesView {
    pub lines: Seq<Seq<char>>,
    pub level: nat,
    pub size: nat,
    pub current: Seq<char>,
}

pub open spec fn capped(n: nat) -> nat {
    if n > usize::MAX {
        usize::MAX as nat
    } else {
        n
    }
}

/// `text` appended to the current line; a new line starts with the indentation.
pub open spec fn lv_write(l: LinesView, text: Seq<char>) -> LinesView {
    if l.current.len() == 0 {
        LinesView { current: spaces(capped(l.size * l.level)) + text, ..l }
    } else {
        LinesView { current: l.current + text, ..l }
    }
}

/// `text` appended to the current line, which is then finished.
pub open spec fn lv_writeln(l: LinesView, text: Seq<char>) -> LinesView {
    let w = lv_write(l, text);
    LinesView { lines: w.lines.push(w.current), current: seq![], ..w }
}

pub open spec fn lv_indent(l: LinesView) -> LinesView {
    LinesView { level: capped(l.level + 1), ..l }
}

pub open spec fn lv_dedent(l: LinesView) -> LinesView {
    LinesView {
        level: if l.level > 0 {
            (l.level - 1) as nat
        } else {
            0
        },
        ..l
    }
}

/// The lines joined by line breaks.
pub open spec fn join_lines(ls: Seq<Seq<char>>) -> Seq<char>
    decreases ls.len(),
{
    if ls.len() == 0 {
        seq![]
    } else if ls.len() == 1 {
        ls[0]
    } else {
        join_lines(ls.drop_last()) + seq!['\n'] + ls.last()
    }
}

/// The text of the lines: the finished lines, the unfinished one if any,
/// and a final line break.
pub open spec fn lv_content(l: LinesView) -> Seq<char> {
    join_lines(l.lines) + if l.current.len() > 0 {
        seq!['\n'] + l.current
    } else {
        seq![]
    } + seq!['\n']
}

/// Lines of text with an indentation level.
pub struct Lines {
    lines: Vec<String>,
    indent_level: usize,
    indent_size: usize,
    current_line: String,
}

pub open spec fn strings_view(v: Seq<String>) -> Seq<Seq<char>> {
    Seq::new(v.len(), |i: int| v[i]@)
}

impl View for Lines {
    type V = LinesView;

    closed spec fn view(&self) -> LinesView {
        LinesView {
            lines: strings_view(self.lines@),
            level: self.indent_level as nat,
            size: self.indent_size as nat,
            current: self.current_line@,
        }
    }
}

impl Lines {
    pub fn new(indent_size: usize) -> (l: Lines)
        ensures
            l@ == (LinesView { lines: seq![], level: 0, size: indent_size as nat, current: seq![] }),
    {
        let l = Lines { lines: Vec::new(), indent_level: 0, indent_size, current_line: String::new() };
        assert(strings_view(l.lines@) =~= Seq::<Seq<char>>::empty());
        l
    }

    pub fn indent(&mut self)
        ensures
            final(self)@ == lv_indent(old(self)@),
    {
        self.indent_level = self.indent_level.saturating_add(1);
    }

    /// One level less indentation (none below zero).
    pub fn dedent(&mut self)
        ensures
            final(self)@ == lv_dedent(old(self)@),
    {
        self.indent_level = self.indent_level.saturating_sub(1);
    }

    pub fn write(&mut self, text: &str)
        ensures
            final(self)@ == lv_write(old(self)@, text@),
    {
        if self.current_line.as_str().unicode_len() == 0 {
            let n = match self.indent_size.checked_mul(self.indent_level) {
                Some(n) => n,
                None => usize::MAX,
            };
            let mut pad = String::new();
            for i in 0..n
                invariant
                    pad@ == spaces(i as nat),
            {
                pad.append(" ");
                proof {
                    reveal_strlit(" ");
                }
                assert(pad@ =~= spaces((i + 1) as nat));
            }
            pad.append(text);
            self.current_line = pad;
        } else {
            self.current_line.append(text);
        }
    }

    pub fn writeln(&mut self, text: &str)
        ensures
            final(self)@ == lv_writeln(old(self)@, text@),
    {
        self.write(text);
        let line = self.current_line.clone();
        let ghost before = self.lines@;
        self.lines.push(line);
        self.current_line = String::new();
        assert(strings_view(self.lines@) =~= strings_view(before).push(line@));
    }

    pub fn get_content(&self) -> (r: String)
        ensures
            r@ == lv_content(self@),
    {
        let mut ret = String::new();
        let n = self.lines.len();
        let ghost lv = strings_view(self.lines@);
        for i in 0..n
            invariant
                n == self.lines@.len(),
                lv == strings_view(self.lines@),
                ret@ == join_lines(lv.take(i as int)),
        {
            assert(lv.take(i + 1).drop_last() =~= lv.take(i as int));
            if i > 0 {
                ret.append("\n");
                proof {
                    reveal_strlit("\n");
                }
            } else {
                assert(lv.take(1) =~= seq![lv[0]]);
            }
            ret.append(self.lines[i].as_str());
        }
        assert(lv.take(n as int) =~= lv);
        if self.current_line.as_str().unicode_len() > 0 {
            ret.append("\n");
            ret.append(self.current_line.as_str());
        }
        ret.append("\n");
        proof {
            reveal_strlit("\n");
        }
        ret
    }
}

// ---------------------------------------------------------------------------
// Generation
// ---------------------------------------------------------------------------

/// `text` written to the lines, finishing the line when `eol` is set.
pub open spec fn emit(l: LinesView, text: Seq<char>, eol: bool) -> LinesView {
    if eol {
        lv_writeln(l, text)
    } else {
        lv_write(l, text)
    }
}

/// The code for a `token` or `rule_ref` leaf: `f("value")`, or
/// `f_id("value", "id")` when the leaf has an `id` child.
pub open spec fn gen_simple(f: Seq<char>, a: AstView, l: LinesView, eol: bool) -> LinesView {
    match a.value {
        None => l,
        Some(v) => {
            let ids = a.children.filter(|c: AstView| c.name == "id"@);
            if ids.len() > 0 {
                match ids[0].value {
                    Some(idv) => emit(l, f + "_id(\""@ + v + "\", \""@ + idv + "\")"@, eol),
                    None => l,
                }
            } else {
                emit(l, f + "(\""@ + v + "\")"@, eol)
            }
        },
    }
}

/// The code for a node of a rule body.
pub open spec fn gen_body(a: AstView, l: LinesView, eol: bool) -> LinesView
    decreases a, 1int,
{
    if a.name == "seq"@ || a.name == "choice"@ {
        gen_seq_or_choice(a, l, eol)
    } else if a.name == "opt"@ || a.name == "one_or_more"@ || a.name == "many"@ {
        gen_mult(a, l, eol)
    } else if a.name == "rule_ref"@ {
        gen_simple("g.rule_ref"@, a, l, eol)
    } else if a.name == "token"@ {
        gen_simple("tok"@, a, l, eol)
    } else {
        l
    }
}

/// `opt(`, `many(` or `one_or_more(` around the code of the first child.
pub open spec fn gen_mult(a: AstView, l: LinesView, eol: bool) -> LinesView
    decreases a, 0int,
{
    if a.children.len() == 0 {
        l
    } else {
        let l1 = lv_indent(lv_writeln(l, a.name + "("@));
        let l2 = gen_body(a.children[0], l1, true);
        emit(lv_dedent(l2), ")"@, eol)
    }
}

/// `seq(vec![` or `choice(vec![` around the code of the children, one per line.
pub open spec fn gen_seq_or_choice(a: AstView, l: LinesView, eol: bool) -> LinesView
    decreases a, 0int,
{
    let l1 = lv_indent(lv_writeln(l, a.name + "(vec!["@));
    let l2 = gen_items(a.children, a.children.len() as int, l1);
    emit(lv_dedent(l2), "])"@, eol)
}

/// The code of the first `k` nodes of `cs`, each followed by `,` and a line break.
pub open spec fn gen_items(cs: Seq<AstView>, k: int, l: LinesView) -> LinesView
    decreases cs, k,
{
    if k <= 0 || k > cs.len() {
        l
    } else {
        lv_writeln(gen_body(cs[k - 1], gen_items(cs, k - 1, l), false), ","@)
    }
}

/// The `add_rule` call of a rule: its name, whether it is the start rule, and its body.
pub open spec fn gen_rule(a: AstView, l: LinesView) -> LinesView {
    if a.children.len() >= 2 && a.children[0].value is Some {
        let name = a.children[0].value->0;
        let start: Seq<char> = if a.name == "start_rule"@ {
            "true"@
        } else {
            "false"@
        };
        let l1 = lv_indent(lv_writeln(l, "grammar.add_rule(\""@ + name + "\", "@ + start + ", |g| {"@));
        let l2 = gen_body(a.children[1], l1, true);
        lv_writeln(lv_writeln(lv_dedent(l2), "});"@), ""@)
    } else {
        l
    }
}

pub open spec fn gen_rules(cs: Seq<AstView>, k: int, l: LinesView) -> LinesView
    decreases k,
{
    if k <= 0 || k > cs.len() {
        l
    } else {
        gen_rule(cs[k - 1], gen_rules(cs, k - 1, l))
    }
}

/// The whole generated file for the definition tree `a`.
pub open spec fn gen_grammar(comment: Seq<char>, fname: Seq<char>, a: AstView, l: LinesView) -> LinesView {
    let l0 = if comment.len() > 0 {
        lv_writeln(lv_writeln(l, "// "@ + comment), ""@)
    } else {
        l
    };
    let l1 = lv_writeln(lv_writeln(lv_writeln(l0, "#![allow(unused)]"@), "use alteraparser::prelude::*;"@), ""@);
    let l2 = lv_indent(lv_writeln(l1, "pub fn "@ + fname + "() -> Grammar {"@));
    let l3 = lv_writeln(lv_writeln(l2, "let mut grammar = Grammar::new();"@), ""@);
    let l4 = gen_rules(a.children, a.children.len() as int, l3);
    lv_writeln(lv_dedent(lv_writeln(l4, "grammar"@)), "}"@)
}

/// The text generated for the definition tree `a`.
pub open spec fn generated(indent_size: nat, comment: Seq<char>, fname: Seq<char>, a: AstView) -> Seq<char> {
    lv_content(gen_grammar(comment, fname, a, LinesView { lines: seq![], level: 0, size: indent_size, current: seq![] }))
}

/// Builds a [`CodeGenerator`].
pub struct CodeGeneratorBuilder {
    pub indent_size: usize,
    pub top_comment: String,
    pub function_name: String,
}

impl CodeGeneratorBuilder {
    /// Indentation 2, no top comment, function name `make_grammar`.
    pub fn new() -> (b: Self)
        ensures
            b.indent_size == 2,
            b.top_comment@ == Seq::<char>::empty(),
            b.function_name@ == "make_grammar"@,
    {
        CodeGeneratorBuilder {
            indent_size: 2,
            top_comment: String::new(),
            function_name: String::from_str("make_grammar"),
        }
    }

    pub fn indent_size(&mut self, size: usize) -> (r: &mut Self)
        ensures
            (*r).indent_size == size,
            (*r).top_comment == old(self).top_comment,
            (*r).function_name == old(self).function_name,
            *final(self) == *final(r),
    {
        self.indent_size = size;
        self
    }

    pub fn top_comment(&mut self, comment: &str) -> (r: &mut Self)
        ensures
            (*r).indent_size == old(self).indent_size,
            (*r).top_comment@ == comment@,
            (*r).function_name == old(self).function_name,
            *final(self) == *final(r),
    {
        self.top_comment = String::from_str(comment);
        self
    }

    pub fn function_name(&mut self, name: &str) -> (r: &mut Self)
        ensures
            (*r).indent_size == old(self).indent_size,
            (*r).top_comment == old(self).top_comment,
            (*r).function_name@ == name@,
            *final(self) == *final(r),
    {
        self.function_name = String::from_str(name);
        self
    }

    pub fn build(&self) -> (g: CodeGenerator)
        ensures
            g.indent_size == self.indent_size,
            g.top_comment@ == self.top_comment@,
            g.function_name@ == self.function_name@,
    {
        CodeGenerator::new(self.indent_size, self.top_comment.clone(), self.function_name.clone())
    }
}

/// Generates Rust code that builds the grammar of a definition.
pub struct CodeGenerator {
    pub indent_size: usize,
    pub top_comment: String,
    pub function_name: String,
}

impl CodeGenerator {
    pub fn new(indent_size: usize, top_comment: String, function_name: String) -> (g: Self)
        ensures
            g.indent_size == indent_size,
            g.top_comment == top_comment,
            g.function_name == function_name,
    {
        CodeGenerator { indent_size, top_comment, function_name }
    }

    fn emit(lines: &mut Lines, text: &str, eol: bool)
        ensures
            final(lines)@ == emit(old(lines)@, text@, eol),
    {
        if eol {
            lines.writeln(text);
        } else {
            lines.write(text);
        }
    }

    fn generate_simple(&self, name: &str, simple: &Ast, lines: &mut Lines, end_with_line_break: bool)
        ensures
            final(lines)@ == gen_simple(name@, simple@, old(lines)@, end_with_line_break),
    {
        let value = match &simple.value {
            Some(v) => v,
            None => {
                return;
            },
        };
        let id_nodes = simple.children_by_name("id");
        let ghost ids = simple@.children.filter(|c: AstView| c.name == "id"@);
        assert(id_nodes@.map_values(|c: &Ast| c@) == ids);
        if id_nodes.len() > 0 {
            assert(id_nodes@[0]@ == ids[0]) by {
                assert(id_nodes@.map_values(|c: &Ast| c@)[0] == id_nodes@[0]@);
            }
            let idv = match &id_nodes[0].value {
                Some(v) => v,
                None => {
                    return;
                },
            };
            let text = String::from_str(name).concat("_id(\"").concat(value.as_str()).concat("\", \"").concat(
                idv.as_str(),
            ).concat("\")");
            Self::emit(lines, text.as_str(), end_with_line_break);
        } else {
            let text = String::from_str(name).concat("(\"").concat(value.as_str()).concat("\")");
            Self::emit(lines, text.as_str(), end_with_line_break);
        }
    }

    fn generate_body(&self, body: &Ast, lines: &mut Lines, end_with_line_break: bool)
        ensures
            final(lines)@ == gen_body(body@, old(lines)@, end_with_line_break),
        decreases body, 1int,
    {
        let name = body.name.as_str();
        let n = String::from_str(name);
        if n == String::from_str("seq") || n == String::from_str("choice") {
            self.generate_seq_or_choice(body, lines, end_with_line_break);
        } else if n == String::from_str("opt") || n == String::from_str("one_or_more") || n == String::from_str(
            "many",
        ) {
            self.generate_mult(body, lines, end_with_line_break);
        } else if n == String::from_str("rule_ref") {
            self.generate_simple("g.rule_ref", body, lines, end_with_line_break);
        } else if n == String::from_str("token") {
            self.generate_simple("tok", body, lines, end_with_line_break);
        }
    }

    fn generate_mult(&self, mult: &Ast, lines: &mut Lines, end_with_line_break: bool)
        ensures
            final(lines)@ == gen_mult(mult@, old(lines)@, end_with_line_break),
        decreases mult, 0int,
    {
        proof {
            crate::ast::lemma_ast_view(*mult);
        }
        if mult.children.len() == 0 {
            return;
        }
        lines.writeln(mult.name.clone().concat("(").as_str());
        lines.indent();
        proof {
            vstd::std_specs::vec::axiom_vec_index_decreases(mult.children, 0);
            assert(mult@.children[0] == mult.children@[0]@);
        }
        self.generate_body(&mult.children[0], lines, true);
        lines.dedent();
        Self::emit(lines, ")", end_with_line_break);
    }

    fn generate_seq_or_choice(&self, seq_or_choice: &Ast, lines: &mut Lines, end_with_line_break: bool)
        ensures
            final(lines)@ == gen_seq_or_choice(seq_or_choice@, old(lines)@, end_with_line_break),
        decreases seq_or_choice, 0int,
    {
        let ghost a = seq_or_choice@;
        proof {
            crate::ast::lemma_ast_view(*seq_or_choice);
        }
        lines.writeln(seq_or_choice.name.clone().concat("(vec![").as_str());
        lines.indent();
        let ghost l1 = lines@;
        let n = seq_or_choice.children.len();
        for i in 0..n
            invariant
                a == seq_or_choice@,
                n == seq_or_choice.children@.len(),
                n == a.children.len(),
                forall|j: int| 0 <= j < n ==> #[trigger] seq_or_choice.children@[j]@ == a.children[j],
                lines@ == gen_items(a.children, i as int, l1),
        {
            proof {
                vstd::std_specs::vec::axiom_vec_index_decreases(seq_or_choice.children, i as int);
            }
            self.generate_body(&seq_or_choice.children[i], lines, false);
            lines.writeln(",");
        }
        lines.dedent();
        Self::emit(lines, "])", end_with_line_break);
    }

    fn generate_rule(&self, rule: &Ast, lines: &mut Lines)
        ensures
            final(lines)@ == gen_rule(rule@, old(lines)@),
    {
        proof {
            crate::ast::lemma_ast_view(*rule);
        }
        if rule.children.len() < 2 {
            return;
        }
        assert(rule@.children[0] == rule.children@[0]@);
        assert(rule@.children[1] == rule.children@[1]@);
        let rule_name = match &rule.children[0].value {
            Some(v) => v,
            None => {
                return;
            },
        };
        let is_start = rule.name == String::from_str("start_rule");
        let start = if is_start {
            "true"
        } else {
            "false"
        };
        let head = String::from_str("grammar.add_rule(\"").concat(rule_name.as_str()).concat("\", ").concat(start).concat(
            ", |g| {",
        );
        lines.writeln(head.as_str());
        lines.indent();
        self.generate_body(&rule.children[1], lines, true);
        lines.dedent();
        lines.writeln("});");
        lines.writeln("");
    }

    fn generate_grammar(&self, grammar: &Ast, lines: &mut Lines)
        ensures
            final(lines)@ == gen_grammar(self.top_comment@, self.function_name@, grammar@, old(lines)@),
    {
        let ghost a = grammar@;
        proof {
            crate::ast::lemma_ast_view(*grammar);
        }
        if self.top_comment.as_str().unicode_len() > 0 {
            lines.writeln(String::from_str("// ").concat(self.top_comment.as_str()).as_str());
            lines.writeln("");
        }
        lines.writeln("#![allow(unused)]");
        lines.writeln("use alteraparser::prelude::*;");
        lines.writeln("");
        lines.writeln(String::from_str("pub fn ").concat(self.function_name.as_str()).concat("() -> Grammar {").as_str());
        lines.indent();
        lines.writeln("let mut grammar = Grammar::new();");
        lines.writeln("");
        let ghost l3 = lines@;
        let n = grammar.children.len();
        for i in 0..n
            invariant
                a == grammar@,
                n == grammar.children@.len(),
                n == a.children.len(),
                forall|j: int| 0 <= j < n ==> #[trigger] grammar.children@[j]@ == a.children[j],
                lines@ == gen_rules(a.children, i as int, l3),
        {
            self.generate_rule(&grammar.children[i], lines);
        }
        lines.writeln("grammar");
        lines.dedent();
        lines.writeln("}");
    }
}

/// The start rule of the definition language is its first rule.
proof fn lemma_meta_start()
    ensures
        lookup_rule(meta_names(), "grammar"@) == Some(0usize),
{
    reveal_strlit("grammar");
    reveal_strlit("rule");
    reveal_strlit("alternatives");
    reveal_strlit("alternative");
    reveal_strlit("item");
    reveal_strlit("atom");
    reveal_strlit("group");
    crate::graph::lemma_lookup_spec(meta_names(), "grammar"@);
    assert(meta_names()[0] == "grammar"@);
}

/// The compiled graph of the definition language.
pub open spec fn meta_graph() -> GraphView {
    spec_compile(meta_names(), meta_bodies(), Some(0usize))
}

/// A text parser for the definition language: its grammar (compiled) and
/// its lexer grammar.
pub open spec fn is_meta_text_parser(tp: TextParser) -> bool {
    let g = tp.parser().grammar();
    &&& g.wf()
    &&& g.is_compiled()
    &&& g.names() == meta_names()
    &&& g.bodies() == meta_bodies()
    &&& g.start() == Some("grammar"@)
    &&& g.graph_view() == meta_graph()
    &&& g.transformers_total()
    &&& g.transformers_obey()
    &&& forall|name: Seq<char>, a: AstView| #[trigger] transformed(g, name, a) == meta_transformed(name, a)
    &&& rules_from_table(tp.lexer_grammar().rules_view(), compiling(meta_lexer_table()))
    &&& tp.lexer_grammar().derivations_total()
    &&& tp.lexer_grammar().derivations_obey()
}

impl CodeGenerator {
    /// Parse a grammar definition and generate the code that builds its
    /// grammar. When the definition language's graph fails the walk check
    /// (see [`walk_check`]) nothing is parsed and the result is
    /// `IncompleteParse`.
    pub fn generate_code(&self, grammar_definition: &str) -> (r: Result<String, ParseError>)
        ensures
            !walk_check(meta_graph()) ==> r == Err::<String, ParseError>(ParseError::IncompleteParse),
            walk_check(meta_graph()) ==> exists|tp: TextParser, toks: Seq<Token>, ar: Result<Ast, ParseError>|
                {
                    &&& is_meta_text_parser(tp)
                    &&& text_result(
                        tp.parser(),
                        tp.lexer_grammar(),
                        tp.parser().grammar().start_pos(),
                        tp.parser().grammar().end_pos(),
                        grammar_definition@,
                        toks,
                        ar,
                    )
                    &&& match ar {
                        Ok(a) => r matches Ok(s) && s@ == generated(
                            self.indent_size as nat,
                            self.top_comment@,
                            self.function_name@,
                            a@,
                        ),
                        Err(e) => r == Err::<String, ParseError>(e),
                    }
                },
    {
        let grammar = make_grammar();
        proof {
            lemma_meta_start();
        }
        let tp = TextParser::new(grammar, make_lexer_grammar());
        proof {
            let g2 = tp.parser().grammar();
            assert forall|name: Seq<char>, a: AstView| #[trigger] transformed(g2, name, a) == meta_transformed(name, a) by {
                assert(transformed(g2, name, a) == transformed(grammar, name, a));
            }
        }
        if !tp.walks_bounded() {
            return Err(ParseError::IncompleteParse);
        }
        let res = tp.parse(grammar_definition);
        let ghost toks = choose|toks: Seq<Token>|
            text_result(
                tp.parser(),
                tp.lexer_grammar(),
                tp.parser().grammar().start_pos(),
                tp.parser().grammar().end_pos(),
                grammar_definition@,
                toks,
                res,
            );
        let ghost ar = res;
        match res {
            Ok(ast) => {
                let mut lines = Lines::new(self.indent_size);
                self.generate_grammar(&ast, &mut lines);
                let out = lines.get_content();
                assert(is_meta_text_parser(tp));
                Ok(out)
            },
            Err(e) => Err(e),
        }
    }
}

} // verus!
