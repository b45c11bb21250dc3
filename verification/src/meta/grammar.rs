//! The grammar of the definition language, and the transformers that turn
//! its parse trees into the tree of a definition: rules with a name and a
//! body made of `seq`, `choice`, `opt`, `many`, `one_or_more`, `token` and
//! `rule_ref` nodes.
use vstd::prelude::*;

use crate::ast::{cleared, first_with_id, Ast, AstView};
use crate::grammar::{
    choice, many, opt, tok, tok_id, AstTransformer, ElementView, Grammar, GrammarElement, GrammarHandle,
};
use crate::graph::lookup_rule;

verus! {

/// The first child with id `id`, its id cleared.
pub open spec fn child_id(a: AstView, id: Seq<char>) -> Option<AstView> {
    match first_with_id(a.children, id, 0) {
        Some(i) => Some(cleared(a.children[i], true)),
        None => None,
    }
}

/// The children with id `id`, their ids cleared.
pub open spec fn children_id(a: AstView, id: Seq<char>) -> Seq<AstView> {
    a.children.filter(|c: AstView| c.id == id).map_values(|c: AstView| cleared(c, true))
}

pub open spec fn node(name: Seq<char>, children: Seq<AstView>) -> AstView {
    AstView { name, value: None, id: Seq::empty(), children, attrs: Map::empty() }
}

pub open spec fn leaf(name: Seq<char>, value: Seq<char>) -> AstView {
    AstView { name, value: Some(value), id: Seq::empty(), children: seq![], attrs: Map::empty() }
}

/// `rule`: a `rule` (or `start_rule`) node with the rule's name and its body.
pub open spec fn rule_tf(a: AstView) -> AstView {
    match (child_id(a, "rule_name"@), child_id(a, "alt"@)) {
        (Some(n), Some(alt)) => match n.value {
            Some(v) => node(
                if child_id(a, "start_annotation"@) is Some {
                    "start_rule"@
                } else {
                    "rule"@
                },
                seq![leaf("name"@, v), alt],
            ),
            None => a,
        },
        _ => a,
    }
}

/// `alternatives`: the single alternative, or a `choice` of all of them.
pub open spec fn alternatives_tf(a: AstView) -> AstView {
    let alts = children_id(a, "alt"@);
    if alts.len() == 1 {
        alts[0]
    } else {
        node("choice"@, alts)
    }
}

/// `alternative`: the single item, or a `seq` of all of them.
pub open spec fn alternative_tf(a: AstView) -> AstView {
    if a.children.len() == 1 {
        a.children[0]
    } else {
        node("seq"@, a.children)
    }
}

/// `item`: the atom, wrapped by `opt`, `many` or `one_or_more` after `?`, `*` or `+`.
pub open spec fn item_tf(a: AstView) -> AstView {
    match child_id(a, "atom"@) {
        None => a,
        Some(atom) => match child_id(a, "mult"@) {
            None => atom,
            Some(m) => if m.name == "QUESTION_MARK"@ {
                node("opt"@, seq![atom])
            } else if m.name == "ASTERISK"@ {
                node("many"@, seq![atom])
            } else if m.name == "PLUS"@ {
                node("one_or_more"@, seq![atom])
            } else {
                a
            },
        },
    }
}

/// The node an `atom` stands for, before its `id` child is attached.
pub open spec fn atom_base(a: AstView) -> Option<AstView> {
    match child_id(a, "token"@) {
        Some(t) => match t.value {
            Some(v) => Some(leaf("token"@, v)),
            None => None,
        },
        None => match child_id(a, "rule_ref"@) {
            Some(r) => match r.value {
                Some(v) => Some(leaf("rule_ref"@, v)),
                None => None,
            },
            None => match child_id(a, "group"@) {
                Some(g) => Some(g),
                None => if a.children.len() > 0 {
                    Some(a.children[0])
                } else {
                    None
                },
            },
        },
    }
}

/// `atom`: a `token` or `rule_ref` leaf (or the group), with an `id` child
/// when the atom is tagged with `id#`.
pub open spec fn atom_tf(a: AstView) -> AstView {
    match atom_base(a) {
        None => a,
        Some(b) => match child_id(a, "id"@) {
            None => b,
            Some(i) => match i.value {
                Some(v) => AstView { children: b.children.push(leaf("id"@, v)), ..b },
                None => a,
            },
        },
    }
}

/// `group`: the alternatives between the parentheses.
pub open spec fn group_tf(a: AstView) -> AstView {
    if a.children.len() > 1 {
        a.children[1]
    } else {
        a
    }
}

fn opt_value(a: &Option<Ast>) -> (r: Option<String>)
    ensures
        match *a {
            Some(x) => match x@.value {
                Some(v) => r matches Some(s) && s@ == v,
                None => r is None,
            },
            None => r is None,
        },
{
    match a {
        Some(x) => match &x.value {
            Some(v) => Some(v.clone()),
            None => None,
        },
        None => None,
    }
}

/// Transformer of `rule` nodes (see [`rule_tf`]).
pub struct RuleTransformer;

impl AstTransformer for RuleTransformer {
    open spec fn transforms(&self, ast: Ast, r: Ast) -> bool {
        r@ == self.spec_transform(ast@)
    }

    open spec fn accepts(&self, ast: Ast) -> bool {
        true
    }

    open spec fn obeys(&self) -> bool {
        true
    }

    open spec fn spec_transform(&self, ast: AstView) -> AstView {
        rule_tf(ast)
    }

    fn transform(&self, ast: Ast) -> (r: Ast) {
        let name = ast.child_by_id("rule_name", true);
        let alt = ast.child_by_id("alt", true);
        let start = ast.child_by_id("start_annotation", true);
        let v = opt_value(&name);
        match (v, alt) {
            (Some(v), Some(alt)) => {
                let mut ret = if start.is_some() {
                    Ast::new("start_rule")
                } else {
                    Ast::new("rule")
                };
                ret.add_child(Ast::with_value("name", v.as_str()));
                ret.add_child(alt);
                proof {
                    assert(ret@.children =~= seq![leaf("name"@, v@), alt@]);
                }
                ret
            },
            _ => ast,
        }
    }
}

/// A node with the given name and children copied from `cs`.
fn node_of(name: &str, cs: Vec<Ast>) -> (r: Ast)
    ensures
        r@ == node(name@, crate::ast::stack_of(cs@)),
{
    let mut r = Ast::new(name);
    let n = cs.len();
    let ghost all = crate::ast::stack_of(cs@);
    assert(all.take(0) =~= Seq::<AstView>::empty());
    for i in 0..n
        invariant
            n == cs@.len(),
            all == crate::ast::stack_of(cs@),
            r@ == node(name@, all.take(i as int)),
    {
        let c = cs[i].duplicate();
        r.add_child(c);
        assert(all.take(i + 1) =~= all.take(i as int).push(c@));
    }
    assert(all.take(n as int) =~= all);
    r
}

/// Transformer of `alternatives` nodes (see [`alternatives_tf`]).
pub struct AlternativesTransformer;

impl AstTransformer for AlternativesTransformer {
    open spec fn transforms(&self, ast: Ast, r: Ast) -> bool {
        r@ == self.spec_transform(ast@)
    }

    open spec fn accepts(&self, ast: Ast) -> bool {
        true
    }

    open spec fn obeys(&self) -> bool {
        true
    }

    open spec fn spec_transform(&self, ast: AstView) -> AstView {
        alternatives_tf(ast)
    }

    fn transform(&self, ast: Ast) -> (r: Ast) {
        let alts = ast.children_by_id("alt", true);
        if alts.len() == 1 {
            return alts[0].duplicate();
        }
        node_of("choice", alts)
    }
}

/// Transformer of `alternative` nodes (see [`alternative_tf`]).
pub struct AlternativeTransformer;

impl AstTransformer for AlternativeTransformer {
    open spec fn transforms(&self, ast: Ast, r: Ast) -> bool {
        r@ == self.spec_transform(ast@)
    }

    open spec fn accepts(&self, ast: Ast) -> bool {
        true
    }

    open spec fn obeys(&self) -> bool {
        true
    }

    open spec fn spec_transform(&self, ast: AstView) -> AstView {
        alternative_tf(ast)
    }

    fn transform(&self, ast: Ast) -> (r: Ast) {
        proof {
            crate::ast::lemma_ast_view(ast);
        }
        if ast.children().len() == 1 {
            return ast.nth_child(0).duplicate();
        }
        let mut kids: Vec<Ast> = Vec::new();
        let n = ast.children.len();
        for i in 0..n
            invariant
                n == ast.children@.len(),
                n == ast@.children.len(),
                forall|j: int| 0 <= j < n ==> #[trigger] ast.children@[j]@ == ast@.children[j],
                crate::ast::stack_of(kids@) =~= ast@.children.take(i as int),
        {
            let c = ast.children[i].duplicate();
            let ghost before = kids@;
            kids.push(c);
            assert(crate::ast::stack_of(kids@) =~= crate::ast::stack_of(before).push(c@));
        }
        assert(ast@.children.take(n as int) =~= ast@.children);
        node_of("seq", kids)
    }
}

/// Transformer of `item` nodes (see [`item_tf`]).
pub struct ItemTransformer;

impl AstTransformer for ItemTransformer {
    open spec fn transforms(&self, ast: Ast, r: Ast) -> bool {
        r@ == self.spec_transform(ast@)
    }

    open spec fn accepts(&self, ast: Ast) -> bool {
        true
    }

    open spec fn obeys(&self) -> bool {
        true
    }

    open spec fn spec_transform(&self, ast: AstView) -> AstView {
        item_tf(ast)
    }

    fn transform(&self, ast: Ast) -> (r: Ast) {
        let mult = ast.child_by_id("mult", true);
        let atom = match ast.child_by_id("atom", true) {
            Some(a) => a,
            None => {
                return ast;
            },
        };
        match mult {
            None => atom,
            Some(m) => {
                let wrapper = if m.name == String::from_str("QUESTION_MARK") {
                    "opt"
                } else if m.name == String::from_str("ASTERISK") {
                    "many"
                } else if m.name == String::from_str("PLUS") {
                    "one_or_more"
                } else {
                    return ast;
                };
                let mut n = Ast::new(wrapper);
                n.add_child(atom);
                proof {
                    assert(n@.children =~= seq![atom@]);
                }
                n
            },
        }
    }
}

/// What an `item` becomes is decided by its multiplier (the first child
/// tagged `mult`), around its atom (the first child tagged `atom`, its tag
/// cleared): after `*` a `many` node (zero or more), after `+` a
/// `one_or_more` node (one or more), after `?` an `opt` node, each with the
/// atom as its only child; without a multiplier, the atom itself. This holds
/// of every result of [`ItemTransformer::transform`].
pub proof fn lemma_item_multiplier(t: ItemTransformer, ast: Ast, r: Ast, atom: AstView)
    requires
        t.transforms(ast, r),
        child_id(ast@, "atom"@) == Some(atom),
    ensures
        child_id(ast@, "mult"@) is None ==> r@ == atom,
        child_id(ast@, "mult"@) matches Some(m) && m.name == "ASTERISK"@ ==> r@.name == "many"@
            && r@.children == seq![atom] && r@.value is None,
        child_id(ast@, "mult"@) matches Some(m) && m.name == "PLUS"@ ==> r@.name == "one_or_more"@
            && r@.children == seq![atom] && r@.value is None,
        child_id(ast@, "mult"@) matches Some(m) && m.name == "QUESTION_MARK"@ ==> r@.name == "opt"@
            && r@.children == seq![atom] && r@.value is None,
{
    reveal_strlit("ASTERISK");
    reveal_strlit("PLUS");
    reveal_strlit("QUESTION_MARK");
    reveal_strlit("many");
    reveal_strlit("one_or_more");
    reveal_strlit("opt");
    assert("ASTERISK"@.len() == 8 && "PLUS"@.len() == 4 && "QUESTION_MARK"@.len() == 13);
    assert("ASTERISK"@ != "QUESTION_MARK"@);
    assert("PLUS"@ != "QUESTION_MARK"@);
    assert("PLUS"@ != "ASTERISK"@);
}

/// Transformer of `atom` nodes (see [`atom_tf`]).
pub struct AtomTransformer;

fn atom_base_exec(ast: &Ast) -> (r: Option<Ast>)
    ensures
        match atom_base(ast@) {
            Some(b) => r matches Some(x) && x@ == b,
            None => r is None,
        },
{
    let token = ast.child_by_id("token", true);
    if token.is_some() {
        return match opt_value(&token) {
            Some(v) => Some(Ast::with_value("token", v.as_str())),
            None => None,
        };
    }
    let rule_ref = ast.child_by_id("rule_ref", true);
    if rule_ref.is_some() {
        return match opt_value(&rule_ref) {
            Some(v) => Some(Ast::with_value("rule_ref", v.as_str())),
            None => None,
        };
    }
    let group = ast.child_by_id("group", true);
    if group.is_some() {
        return group;
    }
    proof {
        crate::ast::lemma_ast_view(*ast);
    }
    if ast.children().len() > 0 {
        Some(ast.nth_child(0).duplicate())
    } else {
        None
    }
}

impl AstTransformer for AtomTransformer {
    open spec fn transforms(&self, ast: Ast, r: Ast) -> bool {
        r@ == self.spec_transform(ast@)
    }

    open spec fn accepts(&self, ast: Ast) -> bool {
        true
    }

    open spec fn obeys(&self) -> bool {
        true
    }

    open spec fn spec_transform(&self, ast: AstView) -> AstView {
        atom_tf(ast)
    }

    fn transform(&self, ast: Ast) -> (r: Ast) {
        let mut base = match atom_base_exec(&ast) {
            Some(b) => b,
            None => {
                return ast;
            },
        };
        let id = ast.child_by_id("id", true);
        if id.is_none() {
            return base;
        }
        match opt_value(&id) {
            Some(v) => {
                base.add_child(Ast::with_value("id", v.as_str()));
                base
            },
            None => ast,
        }
    }
}

/// Transformer of `group` nodes (see [`group_tf`]).
pub struct GroupTransformer;

impl AstTransformer for GroupTransformer {
    open spec fn transforms(&self, ast: Ast, r: Ast) -> bool {
        r@ == self.spec_transform(ast@)
    }

    open spec fn accepts(&self, ast: Ast) -> bool {
        true
    }

    open spec fn obeys(&self) -> bool {
        true
    }

    open spec fn spec_transform(&self, ast: AstView) -> AstView {
        group_tf(ast)
    }

    fn transform(&self, ast: Ast) -> (r: Ast) {
        proof {
            crate::ast::lemma_ast_view(ast);
        }
        if ast.children().len() > 1 {
            ast.nth_child(1).duplicate()
        } else {
            ast
        }
    }
}

pub open spec fn tv(token_type: Seq<char>, id: Seq<char>) -> ElementView {
    ElementView::Token { token_type, id }
}

pub open spec fn rv(name: Seq<char>, id: Seq<char>) -> ElementView {
    ElementView::Rule { name, id }
}

pub open spec fn e() -> Seq<char> {
    Seq::empty()
}

/// The rule names of the definition language, in order; the first is the start rule.
pub open spec fn meta_names() -> Seq<Seq<char>> {
    seq!["grammar"@, "rule"@, "alternatives"@, "alternative"@, "item"@, "atom"@, "group"@]
}

pub open spec fn body_grammar() -> ElementView {
    ElementView::Many(Box::new(rv("rule"@, e())))
}

pub open spec fn body_rule() -> ElementView {
    ElementView::Sequence(
        seq![
            ElementView::Opt(Box::new(tv("START_ANNOTATION"@, "start_annotation"@))),
            tv("IDENT"@, "rule_name"@),
            tv("RARROW"@, e()),
            rv("alternatives"@, "alt"@),
            tv("SEMICOLON"@, e()),
        ],
    )
}

pub open spec fn body_alternatives() -> ElementView {
    ElementView::Sequence(
        seq![
            rv("alternative"@, "alt"@),
            ElementView::Many(Box::new(ElementView::Sequence(seq![tv("PIPE"@, e()), rv("alternative"@, "alt"@)]))),
        ],
    )
}

pub open spec fn body_alternative() -> ElementView {
    ElementView::Many(Box::new(rv("item"@, e())))
}

pub open spec fn body_item() -> ElementView {
    ElementView::Sequence(
        seq![
            rv("atom"@, "atom"@),
            ElementView::Opt(
                Box::new(
                    ElementView::Choice(
                        seq![tv("QUESTION_MARK"@, "mult"@), tv("ASTERISK"@, "mult"@), tv("PLUS"@, "mult"@)],
                    ),
                ),
            ),
        ],
    )
}

pub open spec fn body_atom() -> ElementView {
    ElementView::Choice(
        seq![
            ElementView::Sequence(
                seq![
                    ElementView::Opt(Box::new(ElementView::Sequence(seq![tv("IDENT"@, "id"@), tv("HASH"@, e())]))),
                    ElementView::Choice(seq![tv("IDENT"@, "rule_ref"@), tv("TOKEN"@, "token"@)]),
                ],
            ),
            rv("group"@, e()),
        ],
    )
}

pub open spec fn body_group() -> ElementView {
    ElementView::Sequence(seq![tv("LPAREN"@, e()), rv("alternatives"@, e()), tv("RPAREN"@, e())])
}

/// The rule bodies, parallel to [`meta_names`].
pub open spec fn meta_bodies() -> Seq<ElementView> {
    seq![body_grammar(), body_rule(), body_alternatives(), body_alternative(), body_item(), body_atom(), body_group()]
}

/// The transformers of the definition language, by rule name.
pub open spec fn meta_tf(name: Seq<char>, a: AstView) -> AstView {
    if name == "rule"@ {
        rule_tf(a)
    } else if name == "alternatives"@ {
        alternatives_tf(a)
    } else if name == "alternative"@ {
        alternative_tf(a)
    } else if name == "item"@ {
        item_tf(a)
    } else if name == "atom"@ {
        atom_tf(a)
    } else if name == "group"@ {
        group_tf(a)
    } else {
        a
    }
}

/// The rules that have a transformer.
pub open spec fn meta_has_tf(name: Seq<char>) -> bool {
    name == "rule"@ || name == "alternatives"@ || name == "alternative"@ || name == "item"@ || name == "atom"@
        || name == "group"@
}

/// Names without a transformer in the definition language still have none
/// after a step that changes at most the transformer of `added`, which has one.
proof fn lemma_tf_absent_kept(before: Grammar, after: Grammar, added: Seq<char>)
    requires
        meta_has_tf(added),
        forall|m: Seq<char>| !meta_has_tf(m) ==> !#[trigger] before.has_transformer(m),
        forall|m: Seq<char>|
            m != added ==> #[trigger] after.has_transformer(m) == before.has_transformer(m),
    ensures
        forall|m: Seq<char>| !meta_has_tf(m) ==> !#[trigger] after.has_transformer(m),
{
    assert forall|m: Seq<char>| !meta_has_tf(m) implies !#[trigger] after.has_transformer(m) by {
        assert(m != added);
        assert(after.has_transformer(m) == before.has_transformer(m));
    }
}

/// A completed node of rule `name` after its transformer, keeping its id.
pub open spec fn meta_transformed(name: Seq<char>, a: AstView) -> AstView {
    if meta_has_tf(name) {
        AstView { id: a.id, ..meta_tf(name, a) }
    } else {
        a
    }
}

/// The grammar has the rules, the start rule and the transformers of the definition language.
pub open spec fn is_meta_grammar(g: Grammar) -> bool {
    &&& g.wf()
    &&& g.names() == meta_names()
    &&& g.bodies() == meta_bodies()
    &&& g.start() == Some("grammar"@)
    &&& g.transformers_total()
    &&& g.transformers_obey()
    &&& forall|name: Seq<char>, a: AstView| #[trigger] crate::parser::transformed(g, name, a) == meta_transformed(name, a)
}

fn expand_grammar(g: &GrammarHandle) -> (r: GrammarElement)
    ensures
        r@ == body_grammar(),
{
    many(g.rule_ref("rule"))
}

fn expand_rule(g: &GrammarHandle) -> (r: GrammarElement)
    ensures
        r@ == body_rule(),
{
    let v = vec![
        opt(tok_id("START_ANNOTATION", "start_annotation")),
        tok_id("IDENT", "rule_name"),
        tok("RARROW"),
        g.rule_ref_id("alternatives", "alt"),
        tok("SEMICOLON"),
    ];
    let r = crate::grammar::seq(v);
    assert(crate::grammar::views_of(v@) =~= seq![
        ElementView::Opt(Box::new(tv("START_ANNOTATION"@, "start_annotation"@))),
        tv("IDENT"@, "rule_name"@),
        tv("RARROW"@, e()),
        rv("alternatives"@, "alt"@),
        tv("SEMICOLON"@, e()),
    ]);
    r
}

fn expand_alternatives(g: &GrammarHandle) -> (r: GrammarElement)
    ensures
        r@ == body_alternatives(),
{
    let inner = vec![tok("PIPE"), g.rule_ref_id("alternative", "alt")];
    let rest = crate::grammar::seq(inner);
    assert(crate::grammar::views_of(inner@) =~= seq![tv("PIPE"@, e()), rv("alternative"@, "alt"@)]);
    let v = vec![g.rule_ref_id("alternative", "alt"), many(rest)];
    let r = crate::grammar::seq(v);
    assert(crate::grammar::views_of(v@) =~= seq![
        rv("alternative"@, "alt"@),
        ElementView::Many(Box::new(ElementView::Sequence(seq![tv("PIPE"@, e()), rv("alternative"@, "alt"@)]))),
    ]);
    r
}

fn expand_alternative(g: &GrammarHandle) -> (r: GrammarElement)
    ensures
        r@ == body_alternative(),
{
    many(g.rule_ref("item"))
}

fn expand_item(g: &GrammarHandle) -> (r: GrammarElement)
    ensures
        r@ == body_item(),
{
    let mults = vec![tok_id("QUESTION_MARK", "mult"), tok_id("ASTERISK", "mult"), tok_id("PLUS", "mult")];
    let c = choice(mults);
    assert(crate::grammar::views_of(mults@) =~= seq![
        tv("QUESTION_MARK"@, "mult"@),
        tv("ASTERISK"@, "mult"@),
        tv("PLUS"@, "mult"@),
    ]);
    let v = vec![g.rule_ref_id("atom", "atom"), opt(c)];
    let r = crate::grammar::seq(v);
    assert(crate::grammar::views_of(v@) =~= seq![
        rv("atom"@, "atom"@),
        ElementView::Opt(
            Box::new(
                ElementView::Choice(seq![tv("QUESTION_MARK"@, "mult"@), tv("ASTERISK"@, "mult"@), tv("PLUS"@, "mult"@)]),
            ),
        ),
    ]);
    r
}

fn expand_atom(g: &GrammarHandle) -> (r: GrammarElement)
    ensures
        r@ == body_atom(),
{
    let tag = vec![tok_id("IDENT", "id"), tok("HASH")];
    let tag_seq = crate::grammar::seq(tag);
    assert(crate::grammar::views_of(tag@) =~= seq![tv("IDENT"@, "id"@), tv("HASH"@, e())]);
    let names = vec![tok_id("IDENT", "rule_ref"), tok_id("TOKEN", "token")];
    let name_choice = choice(names);
    assert(crate::grammar::views_of(names@) =~= seq![tv("IDENT"@, "rule_ref"@), tv("TOKEN"@, "token"@)]);
    let first = vec![opt(tag_seq), name_choice];
    let first_seq = crate::grammar::seq(first);
    assert(crate::grammar::views_of(first@) =~= seq![
        ElementView::Opt(Box::new(ElementView::Sequence(seq![tv("IDENT"@, "id"@), tv("HASH"@, e())]))),
        ElementView::Choice(seq![tv("IDENT"@, "rule_ref"@), tv("TOKEN"@, "token"@)]),
    ]);
    let branches = vec![first_seq, g.rule_ref("group")];
    let r = choice(branches);
    assert(crate::grammar::views_of(branches@) =~= seq![
        ElementView::Sequence(
            seq![
                ElementView::Opt(Box::new(ElementView::Sequence(seq![tv("IDENT"@, "id"@), tv("HASH"@, e())]))),
                ElementView::Choice(seq![tv("IDENT"@, "rule_ref"@), tv("TOKEN"@, "token"@)]),
            ],
        ),
        rv("group"@, e()),
    ]);
    r
}

fn expand_group(g: &GrammarHandle) -> (r: GrammarElement)
    ensures
        r@ == body_group(),
{
    let v = vec![tok("LPAREN"), g.rule_ref("alternatives"), tok("RPAREN")];
    let r = crate::grammar::seq(v);
    assert(crate::grammar::views_of(v@) =~= seq![tv("LPAREN"@, e()), rv("alternatives"@, e()), tv("RPAREN"@, e())]);
    r
}

proof fn lemma_absent(names: Seq<Seq<char>>, name: Seq<char>)
    requires
        names.len() <= usize::MAX,
        forall|j: int| 0 <= j < names.len() ==> names[j] != name,
    ensures
        lookup_rule(names, name) is None,
{
    crate::graph::lemma_lookup_spec(names, name);
}

/// The grammar of the definition language.
pub fn make_grammar() -> (g: Grammar)
    ensures
        is_meta_grammar(g),
        !g.is_compiled(),
{
    proof {
        reveal_strlit("grammar");
        reveal_strlit("rule");
        reveal_strlit("alternatives");
        reveal_strlit("alternative");
        reveal_strlit("item");
        reveal_strlit("atom");
        reveal_strlit("group");
        assert("grammar"@.len() == 7);
        assert("rule"@.len() == 4 && "rule"@[0] == 'r');
        assert("alternatives"@.len() == 12);
        assert("alternative"@.len() == 11);
        assert("item"@.len() == 4 && "item"@[0] == 'i');
        assert("atom"@.len() == 4 && "atom"@[0] == 'a');
        assert("group"@.len() == 5);
    }
    let mut grammar = Grammar::new();
    assert(forall|m: Seq<char>| !meta_has_tf(m) ==> !#[trigger] grammar.has_transformer(m));
    let ghost before_rule_grammar = grammar;
    grammar.add_rule("grammar", true, expand_grammar);
    proof {
        lemma_tf_absent_kept(before_rule_grammar, grammar, "rule"@);
    }
    assert(grammar.names() =~= seq!["grammar"@]);
    proof {
        lemma_absent(seq!["grammar"@], "rule"@);
    }
    let ghost before_rule_rule = grammar;
    grammar.add_rule("rule", false, expand_rule);
    proof {
        lemma_tf_absent_kept(before_rule_rule, grammar, "rule"@);
    }
    assert(grammar.names() =~= seq!["grammar"@, "rule"@]);
    let ghost before_tf_rule = grammar;
    grammar.add_transformer("rule", RuleTransformer);
    proof {
        lemma_tf_absent_kept(before_tf_rule, grammar, "rule"@);
    }
    let ghost t_rule = grammar.transformer("rule"@);
    proof {
        lemma_absent(seq!["grammar"@, "rule"@], "alternatives"@);
    }
    let ghost before_rule_alternatives = grammar;
    grammar.add_rule("alternatives", false, expand_alternatives);
    proof {
        lemma_tf_absent_kept(before_rule_alternatives, grammar, "rule"@);
    }
    assert(grammar.names() =~= seq!["grammar"@, "rule"@, "alternatives"@]);
    assert(grammar.has_transformer("rule"@) == before_rule_alternatives.has_transformer("rule"@));
    assert(grammar.transformer("rule"@) == before_rule_alternatives.transformer("rule"@));
    let ghost before_tf_alternatives = grammar;
    grammar.add_transformer("alternatives", AlternativesTransformer);
    proof {
        lemma_tf_absent_kept(before_tf_alternatives, grammar, "alternatives"@);
    }
    assert("rule"@ != "alternatives"@);
    assert(grammar.has_transformer("rule"@) == before_tf_alternatives.has_transformer("rule"@));
    assert(grammar.transformer("rule"@) == before_tf_alternatives.transformer("rule"@));
    let ghost t_alternatives = grammar.transformer("alternatives"@);
    proof {
        lemma_absent(seq!["grammar"@, "rule"@, "alternatives"@], "alternative"@);
    }
    let ghost before_rule_alternative = grammar;
    grammar.add_rule("alternative", false, expand_alternative);
    proof {
        lemma_tf_absent_kept(before_rule_alternative, grammar, "rule"@);
    }
    assert(grammar.names() =~= seq!["grammar"@, "rule"@, "alternatives"@, "alternative"@]);
    assert(grammar.has_transformer("rule"@) == before_rule_alternative.has_transformer("rule"@));
    assert(grammar.transformer("rule"@) == before_rule_alternative.transformer("rule"@));
    assert(grammar.has_transformer("alternatives"@) == before_rule_alternative.has_transformer("alternatives"@));
    assert(grammar.transformer("alternatives"@) == before_rule_alternative.transformer("alternatives"@));
    let ghost before_tf_alternative = grammar;
    grammar.add_transformer("alternative", AlternativeTransformer);
    proof {
        lemma_tf_absent_kept(before_tf_alternative, grammar, "alternative"@);
    }
    assert("rule"@ != "alternative"@);
    assert(grammar.has_transformer("rule"@) == before_tf_alternative.has_transformer("rule"@));
    assert(grammar.transformer("rule"@) == before_tf_alternative.transformer("rule"@));
    assert("alternatives"@ != "alternative"@);
    assert(grammar.has_transformer("alternatives"@) == before_tf_alternative.has_transformer("alternatives"@));
    assert(grammar.transformer("alternatives"@) == before_tf_alternative.transformer("alternatives"@));
    let ghost t_alternative = grammar.transformer("alternative"@);
    proof {
        lemma_absent(seq!["grammar"@, "rule"@, "alternatives"@, "alternative"@], "item"@);
    }
    let ghost before_rule_item = grammar;
    grammar.add_rule("item", false, expand_item);
    proof {
        lemma_tf_absent_kept(before_rule_item, grammar, "rule"@);
    }
    assert(grammar.names() =~= seq!["grammar"@, "rule"@, "alternatives"@, "alternative"@, "item"@]);
    assert(grammar.has_transformer("rule"@) == before_rule_item.has_transformer("rule"@));
    assert(grammar.transformer("rule"@) == before_rule_item.transformer("rule"@));
    assert(grammar.has_transformer("alternatives"@) == before_rule_item.has_transformer("alternatives"@));
    assert(grammar.transformer("alternatives"@) == before_rule_item.transformer("alternatives"@));
    assert(grammar.has_transformer("alternative"@) == before_rule_item.has_transformer("alternative"@));
    assert(grammar.transformer("alternative"@) == before_rule_item.transformer("alternative"@));
    let ghost before_tf_item = grammar;
    grammar.add_transformer("item", ItemTransformer);
    proof {
        lemma_tf_absent_kept(before_tf_item, grammar, "item"@);
    }
    assert("rule"@ != "item"@);
    assert(grammar.has_transformer("rule"@) == before_tf_item.has_transformer("rule"@));
    assert(grammar.transformer("rule"@) == before_tf_item.transformer("rule"@));
    assert("alternatives"@ != "item"@);
    assert(grammar.has_transformer("alternatives"@) == before_tf_item.has_transformer("alternatives"@));
    assert(grammar.transformer("alternatives"@) == before_tf_item.transformer("alternatives"@));
    assert("alternative"@ != "item"@);
    assert(grammar.has_transformer("alternative"@) == before_tf_item.has_transformer("alternative"@));
    assert(grammar.transformer("alternative"@) == before_tf_item.transformer("alternative"@));
    let ghost t_item = grammar.transformer("item"@);
    proof {
        lemma_absent(seq!["grammar"@, "rule"@, "alternatives"@, "alternative"@, "item"@], "atom"@);
    }
    let ghost before_rule_atom = grammar;
    grammar.add_rule("atom", false, expand_atom);
    proof {
        lemma_tf_absent_kept(before_rule_atom, grammar, "rule"@);
    }
    assert(grammar.names() =~= seq!["grammar"@, "rule"@, "alternatives"@, "alternative"@, "item"@, "atom"@]);
    assert(grammar.has_transformer("rule"@) == before_rule_atom.has_transformer("rule"@));
    assert(grammar.transformer("rule"@) == before_rule_atom.transformer("rule"@));
    assert(grammar.has_transformer("alternatives"@) == before_rule_atom.has_transformer("alternatives"@));
    assert(grammar.transformer("alternatives"@) == before_rule_atom.transformer("alternatives"@));
    assert(grammar.has_transformer("alternative"@) == before_rule_atom.has_transformer("alternative"@));
    assert(grammar.transformer("alternative"@) == before_rule_atom.transformer("alternative"@));
    assert(grammar.has_transformer("item"@) == before_rule_atom.has_transformer("item"@));
    assert(grammar.transformer("item"@) == before_rule_atom.transformer("item"@));
    let ghost before_tf_atom = grammar;
    grammar.add_transformer("atom", AtomTransformer);
    proof {
        lemma_tf_absent_kept(before_tf_atom, grammar, "atom"@);
    }
    assert("rule"@ != "atom"@);
    assert(grammar.has_transformer("rule"@) == before_tf_atom.has_transformer("rule"@));
    assert(grammar.transformer("rule"@) == before_tf_atom.transformer("rule"@));
    assert("alternatives"@ != "atom"@);
    assert(grammar.has_transformer("alternatives"@) == before_tf_atom.has_transformer("alternatives"@));
    assert(grammar.transformer("alternatives"@) == before_tf_atom.transformer("alternatives"@));
    assert("alternative"@ != "atom"@);
    assert(grammar.has_transformer("alternative"@) == before_tf_atom.has_transformer("alternative"@));
    assert(grammar.transformer("alternative"@) == before_tf_atom.transformer("alternative"@));
    assert("item"@ != "atom"@);
    assert(grammar.has_transformer("item"@) == before_tf_atom.has_transformer("item"@));
    assert(grammar.transformer("item"@) == before_tf_atom.transformer("item"@));
    let ghost t_atom = grammar.transformer("atom"@);
    proof {
        lemma_absent(seq!["grammar"@, "rule"@, "alternatives"@, "alternative"@, "item"@, "atom"@], "group"@);
    }
    let ghost before_rule_group = grammar;
    grammar.add_rule("group", false, expand_group);
    proof {
        lemma_tf_absent_kept(before_rule_group, grammar, "rule"@);
    }
    assert(grammar.names() =~= seq!["grammar"@, "rule"@, "alternatives"@, "alternative"@, "item"@, "atom"@, "group"@]);
    assert(grammar.has_transformer("rule"@) == before_rule_group.has_transformer("rule"@));
    assert(grammar.transformer("rule"@) == before_rule_group.transformer("rule"@));
    assert(grammar.has_transformer("alternatives"@) == before_rule_group.has_transformer("alternatives"@));
    assert(grammar.transformer("alternatives"@) == before_rule_group.transformer("alternatives"@));
    assert(grammar.has_transformer("alternative"@) == before_rule_group.has_transformer("alternative"@));
    assert(grammar.transformer("alternative"@) == before_rule_group.transformer("alternative"@));
    assert(grammar.has_transformer("item"@) == before_rule_group.has_transformer("item"@));
    assert(grammar.transformer("item"@) == before_rule_group.transformer("item"@));
    assert(grammar.has_transformer("atom"@) == before_rule_group.has_transformer("atom"@));
    assert(grammar.transformer("atom"@) == before_rule_group.transformer("atom"@));
    let ghost before_tf_group = grammar;
    grammar.add_transformer("group", GroupTransformer);
    proof {
        lemma_tf_absent_kept(before_tf_group, grammar, "group"@);
    }
    assert("rule"@ != "group"@);
    assert(grammar.has_transformer("rule"@) == before_tf_group.has_transformer("rule"@));
    assert(grammar.transformer("rule"@) == before_tf_group.transformer("rule"@));
    assert("alternatives"@ != "group"@);
    assert(grammar.has_transformer("alternatives"@) == before_tf_group.has_transformer("alternatives"@));
    assert(grammar.transformer("alternatives"@) == before_tf_group.transformer("alternatives"@));
    assert("alternative"@ != "group"@);
    assert(grammar.has_transformer("alternative"@) == before_tf_group.has_transformer("alternative"@));
    assert(grammar.transformer("alternative"@) == before_tf_group.transformer("alternative"@));
    assert("item"@ != "group"@);
    assert(grammar.has_transformer("item"@) == before_tf_group.has_transformer("item"@));
    assert(grammar.transformer("item"@) == before_tf_group.transformer("item"@));
    assert("atom"@ != "group"@);
    assert(grammar.has_transformer("atom"@) == before_tf_group.has_transformer("atom"@));
    assert(grammar.transformer("atom"@) == before_tf_group.transformer("atom"@));
    let ghost t_group = grammar.transformer("group"@);
    assert(grammar.bodies() =~= meta_bodies());
    proof {
        assert forall|name: Seq<char>, a: AstView|
            #[trigger] crate::parser::transformed(grammar, name, a) == meta_transformed(name, a) by {
            if !meta_has_tf(name) {
                assert(!grammar.has_transformer(name));
            }
        }
    }
    grammar
}

} // verus!
