//! The parser: a breadth-first search over all walks through the syntax
//! graph that match the token stream, followed by the construction of the
//! AST from the one walk that reaches the end.
use vstd::prelude::*;

use crate::ast::{Ast, AstView};
use crate::error::ParseError;
use crate::grammar::Grammar;
use crate::graph::{
    at_pos, copy_path, eps_from, follow_from, graph_wf, paths_ok, pos_ok, pos_seq_view, push_pos, GraphView, Pos,
    SPos, SyntaxGraph,
};
use crate::lexer::{lex_next, lex_prefix, lexed, start_state, LexTok, Lexer};
use crate::lexer_grammar::LexerGrammar;
use crate::nesting::{lemma_parse_outcome, lemma_rule_parse_outcome};
use crate::token::{Token, TokenStream};
use crate::walks::{has_bounded_walks, walk_fuel};

verus! {

/// The recorded walks of a list of executable paths.
pub open spec fn paths_view(v: Seq<Vec<Pos>>) -> Seq<Seq<SPos>> {
    Seq::new(v.len(), |i: int| pos_seq_view(v[i]@))
}

/// `path` followed by `more`, where the first position of `more` is left
/// out when it is the last position of `path` already.
pub open spec fn join_walk(path: Seq<SPos>, more: Seq<SPos>) -> Seq<SPos> {
    if more.len() > 0 && path.len() > 0 && more[0] == path.last() {
        path + more.drop_first()
    } else {
        path + more
    }
}

/// The tokens that can be consumed next from the end of `path`.
pub open spec fn follows_of(g: GraphView, path: Seq<SPos>) -> Seq<(Seq<char>, Seq<SPos>)> {
    follow_from(g, path.last(), seq![], false, walk_fuel(g, path.last()))
}

/// The extensions of `path` by the follow walks in `fs` whose token type is `tt`.
pub open spec fn extend_matching(path: Seq<SPos>, fs: Seq<(Seq<char>, Seq<SPos>)>, tt: Seq<char>) -> Seq<
    Seq<SPos>,
>
    decreases fs.len(),
{
    if fs.len() == 0 {
        seq![]
    } else {
        extend_matching(path, fs.drop_last(), tt) + if fs.last().0 == tt {
            seq![join_walk(path, fs.last().1)]
        } else {
            seq![]
        }
    }
}

/// Every active walk extended, in order, by every way of consuming a token of type `tt`.
pub open spec fn step_walks(g: GraphView, active: Seq<Seq<SPos>>, tt: Seq<char>) -> Seq<Seq<SPos>>
    decreases active.len(),
{
    if active.len() == 0 {
        seq![]
    } else {
        step_walks(g, active.drop_last(), tt) + extend_matching(active.last(), follows_of(g, active.last()), tt)
    }
}

/// The active walks after consuming `toks` from the walk `[start]`, or the
/// error for the first token that no walk can consume.
pub open spec fn run_walks(g: GraphView, start: SPos, toks: Seq<Token>) -> Result<Seq<Seq<SPos>>, ParseError>
    decreases toks.len(),
{
    if toks.len() == 0 {
        Ok(seq![seq![start]])
    } else {
        match run_walks(g, start, toks.drop_last()) {
            Err(e) => Err(e),
            Ok(active) => {
                let t = toks.last();
                let next = step_walks(g, active, t.token_type@);
                if next.len() == 0 {
                    Err(ParseError::UnexpectedToken { found: t.value, line: t.line, col: t.column })
                } else {
                    Ok(next)
                }
            },
        }
    }
}

/// The only error of the token loop is an unexpected token.
pub proof fn lemma_run_walks_err(g: GraphView, start: SPos, toks: Seq<Token>)
    ensures
        run_walks(g, start, toks) matches Err(e) ==> e is UnexpectedToken,
    decreases toks.len(),
{
    if toks.len() > 0 {
        lemma_run_walks_err(g, start, toks.drop_last());
    }
}

/// `path` completed by the first token-free walk from its end to `end`.
pub open spec fn complete_walk(g: GraphView, path: Seq<SPos>, end: SPos) -> Option<Seq<SPos>> {
    match eps_from(g, path.last(), at_pos(end), seq![], walk_fuel(g, path.last())) {
        Some(tail) => Some(join_walk(path, tail)),
        None => None,
    }
}

/// The active walks that can be completed to `end`, completed, in order.
pub open spec fn complete_walks(g: GraphView, active: Seq<Seq<SPos>>, end: SPos) -> Seq<Seq<SPos>>
    decreases active.len(),
{
    if active.len() == 0 {
        seq![]
    } else {
        complete_walks(g, active.drop_last(), end) + match complete_walk(g, active.last(), end) {
            Some(w) => seq![w],
            None => seq![],
        }
    }
}

pub open spec fn walks_ok(g: GraphView, v: Seq<Vec<Pos>>) -> bool {
    forall|i: int| 0 <= i < v.len() ==> #[trigger] v[i]@.len() > 0 && paths_ok(g, v[i]@)
}

fn path_last(path: &Vec<Pos>) -> (r: &Pos)
    requires
        path@.len() > 0,
    ensures
        *r == path@.last(),
        r@ == pos_seq_view(path@).last(),
{
    &path[path.len() - 1]
}

/// `path` followed by `more`, leaving out the first position of `more`
/// when it repeats the last position of `path`.
fn join_paths(path: &Vec<Pos>, more: &Vec<Pos>, Ghost(g): Ghost<GraphView>) -> (r: Vec<Pos>)
    requires
        paths_ok(g, path@),
        paths_ok(g, more@),
    ensures
        pos_seq_view(r@) == join_walk(pos_seq_view(path@), pos_seq_view(more@)),
        paths_ok(g, r@),
        r@.len() >= path@.len(),
{
    let mut r = copy_path(path);
    let ghost pv = pos_seq_view(path@);
    let ghost mv = pos_seq_view(more@);
    proof {
        crate::graph::lemma_paths_ok_view(g, path@, r@);
    }
    let skip = more.len() > 0 && path.len() > 0 && more[0].same(path_last(path));
    let from: usize = if skip {
        1
    } else {
        0
    };
    let n = more.len();
    assert(mv.skip(from as int) == if skip {
        mv.drop_first()
    } else {
        mv
    }) by {
        assert(mv.skip(0) =~= mv);
        assert(mv.skip(1) =~= mv.drop_first());
    }
    let mut i = from;
    while i < n
        invariant
            from <= i <= n,
            n == more@.len(),
            pv == pos_seq_view(path@),
            mv == pos_seq_view(more@),
            paths_ok(g, more@),
            pos_seq_view(r@) =~= pv + mv.subrange(from as int, i as int),
            r@.len() == path@.len() + (i - from),
            paths_ok(g, r@),
        decreases n - i,
    {
        let ghost before = r@;
        assert(pos_ok(g, more@[i as int]@));
        push_pos(&mut r, more[i].duplicate());
        assert(mv.subrange(from as int, i + 1) =~= mv.subrange(from as int, i as int).push(more@[i as int]@));
        assert forall|j: int| 0 <= j < r@.len() implies pos_ok(g, #[trigger] r@[j]@) by {
            if j < before.len() {
                assert(r@[j] == before[j]);
            }
        }
        i = i + 1;
    }
    assert(mv.subrange(from as int, n as int) =~= mv.skip(from as int));
    r
}

/// The extensions of every active walk by one token of type `tt`.
fn step_all(g: &SyntaxGraph, active: &Vec<Vec<Pos>>, tt: &String) -> (r: Vec<Vec<Pos>>)
    requires
        graph_wf(g@),
        has_bounded_walks(g@),
        walks_ok(g@, active@),
    ensures
        paths_view(r@) == step_walks(g@, paths_view(active@), tt@),
        walks_ok(g@, r@),
{
    let ghost gv = g@;
    let ghost av = paths_view(active@);
    let mut r: Vec<Vec<Pos>> = Vec::new();
    let n = active.len();
    for i in 0..n
        invariant
            gv == g@,
            graph_wf(gv),
            has_bounded_walks(gv),
            walks_ok(gv, active@),
            n == active@.len(),
            av == paths_view(active@),
            paths_view(r@) =~= step_walks(gv, av.take(i as int), tt@),
            walks_ok(gv, r@),
    {
        let path = &active[i];
        assert(path@.len() > 0 && paths_ok(gv, path@));
        let last = path_last(path);
        assert(pos_ok(gv, path@[path@.len() - 1]@));
        let fs = g.follow_tokens(last);
        let ghost fv = crate::graph::follow_view(fs@);
        let ghost pv = pos_seq_view(path@);
        assert(av[i as int] == pv);
        assert(av.take(i + 1).drop_last() =~= av.take(i as int));
        assert(av.take(i + 1).last() == pv);
        let ghost base = paths_view(r@);
        let k = fs.len();
        for j in 0..k
            invariant
                gv == g@,
                graph_wf(gv),
                k == fs@.len(),
                fv == crate::graph::follow_view(fs@),
                crate::graph::results_ok(gv, fs@),
                paths_ok(gv, path@),
                path@.len() > 0,
                pv == pos_seq_view(path@),
                paths_view(r@) =~= base + extend_matching(pv, fv.take(j as int), tt@),
                walks_ok(gv, r@),
        {
            assert(fv.take(j + 1).drop_last() =~= fv.take(j as int));
            assert(fv.take(j + 1).last() == fv[j as int]);
            assert(fv[j as int] == (fs@[j as int].0@, pos_seq_view(fs@[j as int].1@)));
            if fs[j].0 == *tt {
                assert(paths_ok(gv, fs@[j as int].1@));
                let w = join_paths(path, &fs[j].1, Ghost(gv));
                let ghost before = r@;
                r.push(w);
                assert(paths_view(r@) =~= paths_view(before).push(pos_seq_view(w@)));
                assert(forall|q: int| 0 <= q < before.len() ==> r@[q] == before[q]);
            }
        }
        assert(fv.take(k as int) =~= fv);
        assert(fv == crate::parser::follows_of(gv, pv));
    }
    assert(av.take(n as int) =~= av);
    r
}

/// The active walks that can be completed to `end`, completed.
fn complete_all(g: &SyntaxGraph, active: &Vec<Vec<Pos>>, end: &Pos) -> (r: Vec<Vec<Pos>>)
    requires
        graph_wf(g@),
        has_bounded_walks(g@),
        walks_ok(g@, active@),
    ensures
        paths_view(r@) == complete_walks(g@, paths_view(active@), end@),
        walks_ok(g@, r@),
{
    let ghost gv = g@;
    let ghost av = paths_view(active@);
    let mut r: Vec<Vec<Pos>> = Vec::new();
    let n = active.len();
    for i in 0..n
        invariant
            gv == g@,
            graph_wf(gv),
            has_bounded_walks(gv),
            walks_ok(gv, active@),
            n == active@.len(),
            av == paths_view(active@),
            paths_view(r@) =~= complete_walks(gv, av.take(i as int), end@),
            walks_ok(gv, r@),
    {
        let path = &active[i];
        assert(path@.len() > 0 && paths_ok(gv, path@));
        let last = path_last(path);
        assert(pos_ok(gv, path@[path@.len() - 1]@));
        let ghost pv = pos_seq_view(path@);
        assert(av[i as int] == pv);
        assert(av.take(i + 1).drop_last() =~= av.take(i as int));
        assert(av.take(i + 1).last() == pv);
        match g.path_to(last, end) {
            Some(tail) => {
                let w = join_paths(path, &tail, Ghost(gv));
                let ghost before = r@;
                r.push(w);
                assert(paths_view(r@) =~= paths_view(before).push(pos_seq_view(w@)));
                assert(forall|q: int| 0 <= q < before.len() ==> r@[q] == before[q]);
            },
            None => {},
        }
    }
    assert(av.take(n as int) =~= av);
    r
}

// ---------------------------------------------------------------------------
// AST construction
// ---------------------------------------------------------------------------

/// The state of the AST construction: the open rule nodes, the last
/// completed outermost node, the index of the next token, and whether the
/// walk has been well-nested so far.
pub struct BuildState {
    pub stack: Seq<AstView>,
    pub result: Option<AstView>,
    pub tok: nat,
    pub ok: bool,
}

pub open spec fn leaf_view(name: Seq<char>, value: Option<Seq<char>>, id: Seq<char>) -> AstView {
    AstView { name, value, id, children: seq![], attrs: Map::empty() }
}

pub open spec fn with_child(a: AstView, c: AstView) -> AstView {
    AstView { children: a.children.push(c), ..a }
}

/// A completed rule node after the rule's transformer, keeping its id.
pub open spec fn transformed(gr: Grammar, name: Seq<char>, a: AstView) -> AstView {
    if gr.has_transformer(name) {
        AstView { id: a.id, ..gr.transformer(name).spec_transform(a) }
    } else {
        a
    }
}

pub open spec fn build_init() -> BuildState {
    BuildState { stack: seq![], result: None, tok: 0, ok: true }
}

/// Process one position of the walk: a `RuleStart` opens a rule node, a
/// `RuleEnd` completes the innermost one (applying the rule's transformer)
/// and attaches it to its parent, a token becomes a leaf of the innermost
/// open node.
pub open spec fn build_step(gr: Grammar, st: BuildState, q: SPos, toks: Seq<Token>) -> BuildState {
    let nd = gr.graph_view().nodes[q.1 as int];
    if !st.ok {
        st
    } else {
        match nd.kind {
            crate::graph::KindView::RuleStart(name) => BuildState {
                stack: st.stack.push(leaf_view(name, None, nd.id)),
                ..st
            },
            crate::graph::KindView::RuleEnd(name) => {
                if st.stack.len() == 0 {
                    BuildState { ok: false, ..st }
                } else {
                    let c = transformed(gr, name, st.stack.last());
                    let rest = st.stack.drop_last();
                    if rest.len() > 0 {
                        BuildState { stack: rest.drop_last().push(with_child(rest.last(), c)), ..st }
                    } else {
                        BuildState { stack: rest, result: Some(c), ..st }
                    }
                }
            },
            crate::graph::KindView::Token(_) => {
                if st.tok >= toks.len() {
                    BuildState { ok: false, ..st }
                } else {
                    let t = toks[st.tok as int];
                    let leaf = leaf_view(t.token_type@, Some(t.value@), nd.id);
                    if st.stack.len() > 0 {
                        BuildState {
                            stack: st.stack.drop_last().push(with_child(st.stack.last(), leaf)),
                            tok: st.tok + 1,
                            ..st
                        }
                    } else {
                        BuildState { tok: st.tok + 1, ..st }
                    }
                }
            },
            crate::graph::KindView::Normal => st,
        }
    }
}

pub open spec fn build_walk(gr: Grammar, path: Seq<SPos>, toks: Seq<Token>) -> BuildState
    decreases path.len(),
{
    if path.len() == 0 {
        build_init()
    } else {
        build_step(gr, build_walk(gr, path.drop_last(), toks), path.last(), toks)
    }
}

/// The AST built from a walk, if the walk is well-nested and completes an outermost rule.
pub open spec fn build_result(gr: Grammar, path: Seq<SPos>, toks: Seq<Token>) -> Option<AstView> {
    let st = build_walk(gr, path, toks);
    if st.ok {
        st.result
    } else {
        None
    }
}

/// The completed node `c` of rule `name` after the rule's transformer,
/// with its id kept: `c2` is a result the transformer may give for `c`
/// (for a closure, one that the closure ensures).
pub open spec fn transform_step(gr: Grammar, name: Seq<char>, c: AstView, c2: AstView) -> bool {
    if gr.has_transformer(name) {
        exists|x: Ast, y: Ast|
            #[trigger] gr.transformer(name).transforms(x, y) && x@ == c && c2 == (AstView { id: c.id, ..y@ })
    } else {
        c2 == c
    }
}

/// `st` after its innermost open node is completed as `c`: `c` becomes a
/// child of the next open node, or the result when none is left.
pub open spec fn close_with(st: BuildState, c: AstView) -> BuildState {
    let rest = st.stack.drop_last();
    if rest.len() > 0 {
        BuildState { stack: rest.drop_last().push(with_child(rest.last(), c)), ..st }
    } else {
        BuildState { stack: rest, result: Some(c), ..st }
    }
}

/// One position of a walk, where a completed rule node may become any
/// result its transformer may give (see [`build_step`] for the rest).
pub open spec fn step_rel(gr: Grammar, st: BuildState, q: SPos, toks: Seq<Token>, st2: BuildState) -> bool {
    let nd = gr.graph_view().nodes[q.1 as int];
    if st.ok && nd.kind is RuleEnd && st.stack.len() > 0 {
        exists|c: AstView|
            #[trigger] transform_step(gr, nd.kind->RuleEnd_0, st.stack.last(), c) && st2 == close_with(st, c)
    } else {
        st2 == build_step(gr, st, q, toks)
    }
}

/// `sts` are the states of the AST construction along `path`: it starts
/// from the initial state and takes one [`step_rel`] per position.
pub open spec fn trace_ok(gr: Grammar, path: Seq<SPos>, toks: Seq<Token>, sts: Seq<BuildState>) -> bool {
    &&& sts.len() == path.len() + 1
    &&& sts[0] == build_init()
    &&& forall|j: int| 0 <= j < path.len() ==> #[trigger] step_rel(gr, sts[j], path[j], toks, sts[j + 1])
}

/// `a` is an AST the construction may build from the walk `path`: every
/// rule node went through its rule's transformer.
pub open spec fn builds_ast(gr: Grammar, path: Seq<SPos>, toks: Seq<Token>, a: AstView) -> bool {
    exists|sts: Seq<BuildState>| #[trigger] trace_ok(gr, path, toks, sts) && sts.last().ok && sts.last().result == Some(a)
}

/// `a` is built from the walk accepted for `toks` between `start` and `end`.
pub open spec fn built_by(gr: Grammar, start: SPos, end: SPos, toks: Seq<Token>, a: AstView) -> bool {
    parse_walk(gr.graph_view(), start, end, toks) matches Ok(w) && builds_ast(gr, w, toks, a)
}

pub open spec fn opt_ast_view(r: Option<Ast>) -> Option<AstView> {
    match r {
        Some(a) => Some(a@),
        None => None,
    }
}

/// The construction state of the executable stack, result, token index and flag.
pub open spec fn exec_state(stack: Seq<Ast>, result: Option<Ast>, tok: usize, ok: bool) -> BuildState {
    BuildState { stack: stack_views(stack), result: opt_ast_view(result), tok: tok as nat, ok }
}

pub open spec fn stack_views(v: Seq<Ast>) -> Seq<AstView> {
    Seq::new(v.len(), |i: int| v[i]@)
}

/// The executable construction state agrees with `st`: in shape always,
/// and in the views when every transformer computes its specification.
pub open spec fn state_agrees(
    gr: Grammar,
    st: BuildState,
    stack: Seq<Ast>,
    result: Option<Ast>,
    tok: usize,
    ok: bool,
) -> bool {
    &&& stack.len() == st.stack.len()
    &&& result is Some == st.result is Some
    &&& tok == st.tok
    &&& ok == st.ok
    &&& gr.transformers_obey() ==> stack_views(stack) == st.stack && (result matches Some(a) ==> a@
        == st.result->0)
}

/// Build the AST from a walk that the parser accepted; `None` when the walk
/// is not well-nested or completes no outermost rule.
fn build_ast(path: &Vec<Pos>, tokens: &Vec<Token>, grammar: &Grammar) -> (r: Option<Ast>)
    requires
        grammar.wf(),
        grammar.is_compiled(),
        grammar.transformers_total(),
        paths_ok(grammar.graph_view(), path@),
    ensures
        r is Some == build_result(*grammar, pos_seq_view(path@), tokens@) is Some,
        grammar.transformers_obey() ==> (r matches Some(a) ==> a@ == build_result(
            *grammar,
            pos_seq_view(path@),
            tokens@,
        )->0),
        r matches Some(a) ==> builds_ast(*grammar, pos_seq_view(path@), tokens@, a@),
{
    let ghost gr = *grammar;
    let ghost pv = pos_seq_view(path@);
    let g = grammar.graph();
    let mut stack: Vec<Ast> = Vec::new();
    let mut result: Option<Ast> = None;
    let mut tok: usize = 0;
    let mut ok = true;
    let n = path.len();
    assert(stack_views(stack@) =~= Seq::<AstView>::empty());
    assert(pv.take(0) =~= Seq::<SPos>::empty());
    let ghost mut trace: Seq<BuildState> = seq![exec_state(stack@, result, tok, ok)];
    assert(exec_state(stack@, result, tok, ok) == build_init());
    for i in 0..n
        invariant
            gr == *grammar,
            grammar.wf(),
            grammar.is_compiled(),
            grammar.transformers_total(),
            g@ == grammar.graph_view(),
            graph_wf(g@),
            paths_ok(g@, path@),
            n == path@.len(),
            pv == pos_seq_view(path@),
            state_agrees(gr, build_walk(gr, pv.take(i as int), tokens@), stack@, result, tok, ok),
            trace_ok(gr, pv.take(i as int), tokens@, trace),
            trace.last() == exec_state(stack@, result, tok, ok),
    {
        let ghost st = build_walk(gr, pv.take(i as int), tokens@);
        let ghost es = exec_state(stack@, result, tok, ok);
        assert(pv.take(i + 1).drop_last() =~= pv.take(i as int));
        assert(pv.take(i + 1).last() == path@[i as int]@);
        let q = &path[i];
        assert(pos_ok(g@, q@));
        let nd = &g.nodes[q.node];
        assert(g@.nodes[q.node as int] == nd@);
        if ok {
            match &nd.kind {
                crate::graph::GrammarNodeKind::RuleStart(name) => {
                    let mut a = Ast::new(name.as_str());
                    a.id = nd.id.clone();
                    let ghost before = stack@;
                    stack.push(a);
                    assert(stack_views(stack@) =~= stack_views(before).push(a@));
                },
                crate::graph::GrammarNodeKind::RuleEnd(name) => {
                    if stack.len() == 0 {
                        ok = false;
                    } else {
                        let ghost before = stack@;
                        let mut completed = match stack.pop() {
                            Some(c) => c,
                            None => vstd::pervasive::unreached(),
                        };
                        assert(stack_views(stack@) =~= stack_views(before).drop_last());
                        assert(completed == before.last());
                        let ghost orig = completed;
                        match grammar.transformer_index(name) {
                            Some(ti) => {
                                let t = grammar.transformer_at(ti);
                                assert(t.accepts(completed));
                                let saved = completed.id.clone();
                                let c2 = t.transform(completed);
                                let mut c3 = c2;
                                c3.id = saved;
                                proof {
                                    assert(c3@.children =~= c2@.children);
                                    if gr.transformers_obey() {
                                        assert(gr.transformers()[ti as int].transformer.obeys());
                                    }
                                    gr.lemma_transformer_at(name@, ti);
                                    assert(gr.transformer(name@).transforms(orig, c2));
                                    assert(c3@ == (AstView { id: orig@.id, ..c2@ }));
                                    assert(transform_step(gr, name@, orig@, c3@));
                                }
                                completed = c3;
                            },
                            None => {
                                assert(!gr.has_transformer(name@));
                                assert(transform_step(gr, name@, orig@, completed@));
                            },
                        }
                        let ghost cfin = completed@;
                        assert(transform_step(gr, name@, es.stack.last(), cfin));
                        if stack.len() > 0 {
                            let ghost before2 = stack@;
                            let mut parent = match stack.pop() {
                                Some(p) => p,
                                None => vstd::pervasive::unreached(),
                            };
                            parent.add_child(completed);
                            stack.push(parent);
                            assert(stack_views(stack@) =~= stack_views(before2).drop_last().push(parent@));
                        } else {
                            result = Some(completed);
                        }
                    }
                },
                crate::graph::GrammarNodeKind::Token(_) => {
                    if tok >= tokens.len() {
                        ok = false;
                    } else {
                        let t = &tokens[tok];
                        let mut leaf = Ast::with_value(t.token_type.as_str(), t.value.as_str());
                        leaf.id = nd.id.clone();
                        tok = tok + 1;
                        if stack.len() > 0 {
                            let ghost before2 = stack@;
                            let mut parent = match stack.pop() {
                                Some(p) => p,
                                None => vstd::pervasive::unreached(),
                            };
                            parent.add_child(leaf);
                            stack.push(parent);
                            assert(stack_views(stack@) =~= stack_views(before2).drop_last().push(parent@));
                        }
                    }
                },
                crate::graph::GrammarNodeKind::Normal => {},
            }
        }
        proof {
            let ns = exec_state(stack@, result, tok, ok);
            assert(step_rel(gr, es, pv.take(i + 1).last(), tokens@, ns));
            let path1 = pv.take(i + 1);
            let t0 = trace;
            trace = trace.push(ns);
            assert forall|j: int| 0 <= j < path1.len() implies #[trigger] step_rel(gr, trace[j], path1[j], tokens@, trace[j + 1]) by {
                if j < i {
                    assert(path1[j] == pv.take(i as int)[j]);
                    assert(trace[j] == t0[j] && trace[j + 1] == t0[j + 1]);
                } else {
                    assert(path1[j] == path1.last());
                }
            }
            assert(trace_ok(gr, path1, tokens@, trace));
        }
    }
    assert(pv.take(n as int) =~= pv);
    if ok {
        result
    } else {
        None
    }
}

// ---------------------------------------------------------------------------
// Parsing
// ---------------------------------------------------------------------------

/// The walk the parser accepts for `toks`, from `start` to `end`: the
/// active walks after the tokens, completed to `end`; exactly one must
/// remain.
pub open spec fn parse_walk(g: GraphView, start: SPos, end: SPos, toks: Seq<Token>) -> Result<Seq<SPos>, ParseError> {
    match run_walks(g, start, toks) {
        Err(e) => Err(e),
        Ok(active) => {
            let valid = complete_walks(g, active, end);
            if valid.len() > 1 {
                Err(ParseError::AmbiguousGrammar)
            } else if valid.len() == 0 {
                Err(ParseError::IncompleteParse)
            } else {
                Ok(valid[0])
            }
        },
    }
}

/// The outcome of parsing `toks` from `start` to `end`.
pub open spec fn parse_outcome(gr: Grammar, start: SPos, end: SPos, toks: Seq<Token>) -> Result<AstView, ParseError> {
    match parse_walk(gr.graph_view(), start, end, toks) {
        Err(e) => Err(e),
        Ok(w) => match build_result(gr, w, toks) {
            Some(a) => Ok(a),
            None => Err(ParseError::IncompleteParse),
        },
    }
}

/// `r` is the outcome `o`: the same error, or an AST whose view is the
/// outcome's when every transformer computes its specification.
pub open spec fn agrees(gr: Grammar, r: Result<Ast, ParseError>, o: Result<AstView, ParseError>) -> bool {
    match o {
        Err(e) => r == Err::<Ast, ParseError>(e),
        Ok(a) => r is Ok && (gr.transformers_obey() ==> r->Ok_0@ == a),
    }
}

/// The tokens a stream handed out during a call.
pub open spec fn read_tokens(before: Seq<Token>, after: Seq<Token>) -> Seq<Token> {
    after.skip(before.len() as int)
}

/// Parses a token stream according to a [`Grammar`] and produces an [`Ast`].
///
/// All walks through the syntax graph that match the tokens read so far are
/// kept (breadth-first), so that an ambiguous grammar is detected. The
/// errors are: a token that no walk can consume, more than one walk that
/// reaches the end, and no walk that reaches the end.
pub struct Parser {
    grammar: Grammar,
}

impl Parser {
    pub closed spec fn grammar(self) -> Grammar {
        self.grammar
    }

    /// The grammar is compiled, its token-free walks are bounded and its
    /// transformers may be called on every AST.
    pub open spec fn ready(self) -> bool {
        &&& self.grammar().wf()
        &&& self.grammar().is_compiled()
        &&& has_bounded_walks(self.grammar().graph_view())
        &&& self.grammar().transformers_total()
    }

    /// A parser for `grammar`, which is compiled here.
    pub fn new(grammar: Grammar) -> (p: Parser)
        requires
            grammar.wf(),
            grammar.is_compiled() || (grammar.start() matches Some(s) && crate::graph::lookup_rule(grammar.names(), s) is Some),
        ensures
            p.grammar().wf(),
            p.grammar().is_compiled(),
            p.grammar().names() == grammar.names(),
            p.grammar().bodies() == grammar.bodies(),
            p.grammar().start() == grammar.start(),
            p.grammar().transformer_names() == grammar.transformer_names(),
            p.grammar().transformers() == grammar.transformers(),
            grammar.is_compiled() ==> p.grammar().graph_view() == grammar.graph_view(),
            !grammar.is_compiled() ==> p.grammar().graph_view() == grammar.spec_graph(),
    {
        let mut g = grammar;
        g.compile();
        Parser { grammar: g }
    }

    /// Whether the token-free walks of the grammar are bounded (see [`Grammar::walks_bounded`]).
    pub fn walks_bounded(&self) -> (r: bool)
        requires
            self.grammar().wf(),
            self.grammar().is_compiled(),
        ensures
            r == crate::walks::walk_check(self.grammar().graph_view()),
            r ==> has_bounded_walks(self.grammar().graph_view()),
    {
        self.grammar.walks_bounded()
    }

    /// Parse all tokens from `stream` and return the root [`Ast`] node.
    pub fn parse<S: TokenStream>(&self, stream: &mut S) -> (r: Result<Ast, ParseError>)
        requires
            self.ready(),
        ensures
            final(stream).handed_out().take(old(stream).handed_out().len() as int) == old(stream).handed_out(),
            old(stream).handed_out().len() <= final(stream).handed_out().len(),
            agrees(
                self.grammar(),
                r,
                parse_outcome(
                    self.grammar(),
                    self.grammar().start_pos(),
                    self.grammar().end_pos(),
                    read_tokens(old(stream).handed_out(), final(stream).handed_out()),
                ),
            ),
            r matches Err(ParseError::UnexpectedToken { .. }) ==> run_walks(
                self.grammar().graph_view(),
                self.grammar().start_pos(),
                read_tokens(old(stream).handed_out(), final(stream).handed_out()).drop_last(),
            ) is Ok,
            !(r matches Err(ParseError::UnexpectedToken { .. })) ==> final(stream).exhausted(),
            old(stream).continues(&*final(stream)),
            r is Ok <==> parse_walk(
                self.grammar().graph_view(),
                self.grammar().start_pos(),
                self.grammar().end_pos(),
                read_tokens(old(stream).handed_out(), final(stream).handed_out()),
            ) is Ok,
            parse_walk(
                self.grammar().graph_view(),
                self.grammar().start_pos(),
                self.grammar().end_pos(),
                read_tokens(old(stream).handed_out(), final(stream).handed_out()),
            ) matches Err(e) ==> r == Err::<Ast, ParseError>(e),
            r matches Ok(a) ==> built_by(
                self.grammar(),
                self.grammar().start_pos(),
                self.grammar().end_pos(),
                read_tokens(old(stream).handed_out(), final(stream).handed_out()),
                a@,
            ),
    {
        let start = self.grammar.start_pos_exec();
        let end = self.grammar.end_pos_exec();
        let r = self.run(&start, &end, stream);
        proof {
            lemma_parse_outcome(self.grammar, read_tokens(old(stream).handed_out(), stream.handed_out()));
        }
        r
    }

    /// Parse all tokens from `stream` as the rule `rule_name` on its own.
    pub fn parse_rule<S: TokenStream>(&self, rule_name: &str, stream: &mut S) -> (r: Result<Ast, ParseError>)
        requires
            self.ready(),
            self.grammar().has_compiled_rule(rule_name@),
        ensures
            final(stream).handed_out().take(old(stream).handed_out().len() as int) == old(stream).handed_out(),
            old(stream).handed_out().len() <= final(stream).handed_out().len(),
            agrees(
                self.grammar(),
                r,
                parse_outcome(
                    self.grammar(),
                    self.grammar().rule_start_pos(rule_name@),
                    self.grammar().rule_end_pos(rule_name@),
                    read_tokens(old(stream).handed_out(), final(stream).handed_out()),
                ),
            ),
            r matches Err(ParseError::UnexpectedToken { .. }) ==> run_walks(
                self.grammar().graph_view(),
                self.grammar().rule_start_pos(rule_name@),
                read_tokens(old(stream).handed_out(), final(stream).handed_out()).drop_last(),
            ) is Ok,
            !(r matches Err(ParseError::UnexpectedToken { .. })) ==> final(stream).exhausted(),
            old(stream).continues(&*final(stream)),
            r is Ok <==> parse_walk(
                self.grammar().graph_view(),
                self.grammar().rule_start_pos(rule_name@),
                self.grammar().rule_end_pos(rule_name@),
                read_tokens(old(stream).handed_out(), final(stream).handed_out()),
            ) is Ok,
            parse_walk(
                self.grammar().graph_view(),
                self.grammar().rule_start_pos(rule_name@),
                self.grammar().rule_end_pos(rule_name@),
                read_tokens(old(stream).handed_out(), final(stream).handed_out()),
            ) matches Err(e) ==> r == Err::<Ast, ParseError>(e),
            r matches Ok(a) ==> built_by(
                self.grammar(),
                self.grammar().rule_start_pos(rule_name@),
                self.grammar().rule_end_pos(rule_name@),
                read_tokens(old(stream).handed_out(), final(stream).handed_out()),
                a@,
            ),
    {
        let (start, end) = self.grammar.rule_pos_exec(rule_name);
        let r = self.run(&start, &end, stream);
        proof {
            lemma_rule_parse_outcome(
                self.grammar,
                rule_name@,
                read_tokens(old(stream).handed_out(), stream.handed_out()),
            );
        }
        r
    }

    fn run<S: TokenStream>(&self, start: &Pos, end: &Pos, stream: &mut S) -> (r: Result<Ast, ParseError>)
        requires
            self.ready(),
            pos_ok(self.grammar().graph_view(), start@),
        ensures
            final(stream).handed_out().take(old(stream).handed_out().len() as int) == old(stream).handed_out(),
            old(stream).handed_out().len() <= final(stream).handed_out().len(),
            agrees(
                self.grammar(),
                r,
                parse_outcome(
                    self.grammar(),
                    start@,
                    end@,
                    read_tokens(old(stream).handed_out(), final(stream).handed_out()),
                ),
            ),
            r matches Err(ParseError::UnexpectedToken { .. }) ==> run_walks(
                self.grammar().graph_view(),
                start@,
                read_tokens(old(stream).handed_out(), final(stream).handed_out()).drop_last(),
            ) is Ok,
            !(r matches Err(ParseError::UnexpectedToken { .. })) ==> final(stream).exhausted(),
            old(stream).continues(&*final(stream)),
            r matches Ok(a) ==> built_by(
                self.grammar(),
                start@,
                end@,
                read_tokens(old(stream).handed_out(), final(stream).handed_out()),
                a@,
            ),
    {
        let ghost gr = self.grammar();
        let g = self.grammar.graph();
        let ghost gv = g@;
        let ghost h0 = stream.handed_out();
        let mut first: Vec<Pos> = Vec::new();
        push_pos(&mut first, start.duplicate());
        let mut active: Vec<Vec<Pos>> = Vec::new();
        active.push(first);
        let mut consumed: Vec<Token> = Vec::new();
        proof {
            S::lemma_continues_refl(&*stream);
        }
        assert(paths_view(active@) =~= seq![seq![start@]]) by {
            assert(pos_seq_view(active@[0]@) =~= seq![start@]);
        }
        assert(stream.handed_out() =~= h0 + consumed@);
        loop
            invariant
                gr == self.grammar(),
                self.ready(),
                g@ == gr.graph_view(),
                gv == g@,
                graph_wf(gv),
                has_bounded_walks(gv),
                walks_ok(gv, active@),
                run_walks(gv, start@, consumed@) == Ok::<Seq<Seq<SPos>>, ParseError>(paths_view(active@)),
                stream.handed_out() == h0 + consumed@,
                h0 == old(stream).handed_out(),
                old(stream).continues(&*stream),
            ensures
                stream.exhausted(),
            decreases stream.size(),
        {
            let ghost before = *stream;
            let next_tok = stream.advance();
            proof {
                S::lemma_continues_trans(&*old(stream), &before, &*stream);
            }
            match next_tok {
                None => {
                    break;
                },
                Some(t) => {
                    let ghost prev = consumed@;
                    consumed.push(t.duplicate());
                    assert(consumed@.drop_last() =~= prev);
                    let next = step_all(g, &active, &t.token_type);
                    if next.len() == 0 {
                        proof {
                            assert(stream.handed_out() =~= h0 + consumed@);
                            assert(read_tokens(h0, stream.handed_out()) =~= consumed@);
                            assert((h0 + consumed@).take(h0.len() as int) =~= h0);
                        }
                        return Err(ParseError::UnexpectedToken { found: t.value.clone(), line: t.line, col: t.column });
                    }
                    active = next;
                    assert(stream.handed_out() =~= h0 + consumed@);
                },
            }
        }
        proof {
            assert(read_tokens(h0, stream.handed_out()) =~= consumed@);
            assert((h0 + consumed@).take(h0.len() as int) =~= h0);
        }
        let valid = complete_all(g, &active, end);
        if valid.len() > 1 {
            return Err(ParseError::AmbiguousGrammar);
        }
        if valid.len() == 0 {
            return Err(ParseError::IncompleteParse);
        }
        assert(paths_view(valid@)[0] == pos_seq_view(valid@[0]@));
        match build_ast(&valid[0], &consumed, &self.grammar) {
            Some(a) => Ok(a),
            None => Err(ParseError::IncompleteParse),
        }
    }
}

/// Tokenizes text with a [`LexerGrammar`] and parses the tokens with a [`Parser`].
pub struct TextParser {
    parser: Parser,
    lexer_grammar: LexerGrammar,
}

/// `r` is what parsing `text` gives: the tokens `toks` are the first tokens
/// lexed from `text`; either lexing failed after them (and the parser had
/// consumed them all) with the error `r`, or `r` is the parse outcome of
/// `toks`, which are all the tokens of `text` unless the parser stopped at
/// an unexpected last token.
pub open spec fn text_result(
    p: Parser,
    lg: LexerGrammar,
    start: SPos,
    end: SPos,
    text: Seq<char>,
    toks: Seq<Token>,
    r: Result<Ast, ParseError>,
) -> bool {
    let rules = lg.rules_view();
    let g = p.grammar().graph_view();
    &&& lexed(rules, start_state(text), toks)
    &&& lex_prefix(rules, start_state(text), toks.len()) matches Some((_, st)) && {
        let next = lex_next(rules, st).0;
        ||| (next is Err && r == Err::<Ast, ParseError>(next->Err_0) && run_walks(g, start, toks) is Ok)
        ||| (agrees(p.grammar(), r, parse_outcome(p.grammar(), start, end, toks)) && (r matches Ok(a) ==> built_by(
            p.grammar(),
            start,
            end,
            toks,
            a@,
        )) && (next == Ok::<
            Option<LexTok>,
            ParseError,
        >(None) || (r matches Err(ParseError::UnexpectedToken { .. }) && toks.len() > 0 && run_walks(
            g,
            start,
            toks.drop_last(),
        ) is Ok)))
    }
}

impl TextParser {
    pub closed spec fn parser(self) -> Parser {
        self.parser
    }

    pub closed spec fn lexer_grammar(self) -> LexerGrammar {
        self.lexer_grammar
    }

    pub fn new(grammar: Grammar, lexer_grammar: LexerGrammar) -> (tp: TextParser)
        requires
            grammar.wf(),
            grammar.is_compiled() || (grammar.start() matches Some(s) && crate::graph::lookup_rule(grammar.names(), s) is Some),
        ensures
            tp.lexer_grammar() == lexer_grammar,
            tp.parser().grammar().wf(),
            tp.parser().grammar().is_compiled(),
            tp.parser().grammar().names() == grammar.names(),
            tp.parser().grammar().bodies() == grammar.bodies(),
            tp.parser().grammar().start() == grammar.start(),
            tp.parser().grammar().transformer_names() == grammar.transformer_names(),
            tp.parser().grammar().transformers() == grammar.transformers(),
            grammar.is_compiled() ==> tp.parser().grammar().graph_view() == grammar.graph_view(),
            !grammar.is_compiled() ==> tp.parser().grammar().graph_view() == grammar.spec_graph(),
    {
        TextParser { parser: Parser::new(grammar), lexer_grammar }
    }

    /// Whether the token-free walks of the grammar are bounded (see [`Grammar::walks_bounded`]).
    pub fn walks_bounded(&self) -> (r: bool)
        requires
            self.parser().grammar().wf(),
            self.parser().grammar().is_compiled(),
        ensures
            r == crate::walks::walk_check(self.parser().grammar().graph_view()),
            r ==> has_bounded_walks(self.parser().grammar().graph_view()),
    {
        self.parser.walks_bounded()
    }

    /// Tokenize `text` and parse the tokens.
    pub fn parse(&self, text: &str) -> (r: Result<Ast, ParseError>)
        requires
            self.parser().ready(),
            self.lexer_grammar().derivations_total(),
        ensures
            exists|toks: Seq<Token>|
                text_result(
                    self.parser(),
                    self.lexer_grammar(),
                    self.parser().grammar().start_pos(),
                    self.parser().grammar().end_pos(),
                    text@,
                    toks,
                    r,
                ),
    {
        let mut lexer = Lexer::new(&self.lexer_grammar, text);
        let ghost l0 = lexer;
        let r = self.parser.parse(&mut lexer);
        proof {
            l0.lemma_continues(&lexer);
            assert(read_tokens(l0.handed_out(), lexer.handed_out()) =~= lexer.handed_out());
        }
        self.finish(&lexer, r, Ghost(self.parser.grammar.start_pos()), Ghost(self.parser.grammar.end_pos()))
    }

    /// Tokenize `text` and parse the tokens (the same as [`TextParser::parse`]).
    pub fn parse_text(&self, text: &str) -> (r: Result<Ast, ParseError>)
        requires
            self.parser().ready(),
            self.lexer_grammar().derivations_total(),
        ensures
            exists|toks: Seq<Token>|
                text_result(
                    self.parser(),
                    self.lexer_grammar(),
                    self.parser().grammar().start_pos(),
                    self.parser().grammar().end_pos(),
                    text@,
                    toks,
                    r,
                ),
    {
        self.parse(text)
    }

    /// Tokenize `text` and parse the tokens as the rule `rule_name` on its own.
    pub fn parse_rule(&self, rule_name: &str, text: &str) -> (r: Result<Ast, ParseError>)
        requires
            self.parser().ready(),
            self.lexer_grammar().derivations_total(),
            self.parser().grammar().has_compiled_rule(rule_name@),
        ensures
            exists|toks: Seq<Token>|
                text_result(
                    self.parser(),
                    self.lexer_grammar(),
                    self.parser().grammar().rule_start_pos(rule_name@),
                    self.parser().grammar().rule_end_pos(rule_name@),
                    text@,
                    toks,
                    r,
                ),
    {
        let mut lexer = Lexer::new(&self.lexer_grammar, text);
        let ghost l0 = lexer;
        let r = self.parser.parse_rule(rule_name, &mut lexer);
        proof {
            l0.lemma_continues(&lexer);
            assert(read_tokens(l0.handed_out(), lexer.handed_out()) =~= lexer.handed_out());
        }
        self.finish(
            &lexer,
            r,
            Ghost(self.parser.grammar.rule_start_pos(rule_name@)),
            Ghost(self.parser.grammar.rule_end_pos(rule_name@)),
        )
    }

    /// The lexing error the lexer stopped at, if the parser read up to it;
    /// otherwise the parser's result.
    fn finish(&self, lexer: &Lexer, r: Result<Ast, ParseError>, Ghost(start): Ghost<SPos>, Ghost(end): Ghost<SPos>) -> (out:
        Result<Ast, ParseError>)
        requires
            lexer.rules() == self.lexer_grammar().rules_view(),
            lexer.origin() == start_state(lexer.origin().input),
            lexer.tracks(),
            agrees(self.parser().grammar(), r, parse_outcome(self.parser().grammar(), start, end, lexer.handed_out())),
            r matches Ok(a) ==> built_by(self.parser().grammar(), start, end, lexer.handed_out(), a@),
            r matches Err(ParseError::UnexpectedToken { .. }) ==> run_walks(
                self.parser().grammar().graph_view(),
                start,
                lexer.handed_out().drop_last(),
            ) is Ok,
            !(r matches Err(ParseError::UnexpectedToken { .. })) ==> lexer.exhausted(),
        ensures
            text_result(
                self.parser(),
                self.lexer_grammar(),
                start,
                end,
                lexer.origin().input,
                lexer.handed_out(),
                out,
            ),
    {
        let ghost rules = lexer.rules();
        let ghost toks = lexer.handed_out();
        let ghost g = self.parser().grammar().graph_view();
        let ghost text = lexer.origin().input;
        proof {
            crate::lexer::lemma_lex_prefix_len(rules, lexer.origin(), toks.len());
        }
        proof {
            lexer.lemma_tracks();
        }
        if let Err(ParseError::UnexpectedToken { .. }) = &r {
            return r;
        }
        match lexer.error() {
            Some(e) => {
                proof {
                    let st = (lex_prefix(rules, lexer.origin(), toks.len())->0).1;
                    assert(lex_next(rules, st).0 == Err::<Option<LexTok>, ParseError>(e));
                    lemma_run_walks_err(g, start, toks);
                    assert(run_walks(g, start, toks) is Ok);
                }
                Err(e)
            },
            None => r,
        }
    }
}

} // verus!
