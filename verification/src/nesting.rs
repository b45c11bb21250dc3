//! Accepted walks are well nested: every walk through the syntax graph that
//! the parser accepts opens and closes rule nodes in matching pairs and
//! meets exactly the tokens it consumed, so building its AST never fails.
use vstd::prelude::*;

use crate::grammar::Grammar;
use crate::graph::{
    at_pos, call_end, eps_any, eps_from, follow_all, follow_from, graph_wf, is_normal_at, is_token_at,
    lookup_rule, moves, pos_ok, shape_ok, body_names, GraphView, SPos,
};
use crate::parser::{
    build_init, build_result, build_step, build_walk, complete_walk, complete_walks, extend_matching, join_walk,
    parse_outcome, parse_walk, run_walks, step_walks, BuildState,
};
use crate::token::Token;
use crate::walks::{lemma_moves_pos_ok, walk_fuel};

verus! {

/// The construction state `st` after the positions `s`, in order.
pub open spec fn build_from(gr: Grammar, st: BuildState, s: Seq<SPos>, toks: Seq<Token>) -> BuildState
    decreases s.len(),
{
    if s.len() == 0 {
        st
    } else {
        build_step(gr, build_from(gr, st, s.drop_last(), toks), s.last(), toks)
    }
}

proof fn lemma_build_walk_from(gr: Grammar, path: Seq<SPos>, toks: Seq<Token>)
    ensures
        build_walk(gr, path, toks) == build_from(gr, build_init(), path, toks),
    decreases path.len(),
{
    if path.len() > 0 {
        lemma_build_walk_from(gr, path.drop_last(), toks);
    }
}

proof fn lemma_build_from_concat(gr: Grammar, st: BuildState, a: Seq<SPos>, b: Seq<SPos>, toks: Seq<Token>)
    ensures
        build_from(gr, st, a + b, toks) == build_from(gr, build_from(gr, st, a, toks), b, toks),
    decreases b.len(),
{
    if b.len() == 0 {
        assert(a + b =~= a);
    } else {
        lemma_build_from_concat(gr, st, a, b.drop_last(), toks);
        assert((a + b).drop_last() =~= a + b.drop_last());
    }
}

proof fn lemma_build_one(gr: Grammar, st: BuildState, p: SPos, toks: Seq<Token>)
    ensures
        build_from(gr, st, seq![p], toks) == build_step(gr, st, p, toks),
        build_walk(gr, seq![p], toks) == build_step(gr, build_init(), p, toks),
{
    let e = seq![p].drop_last();
    assert(e =~= Seq::<SPos>::empty());
    assert(build_from(gr, st, e, toks) == st);
    assert(build_walk(gr, e, toks) == build_init());
}

/// A walk may begin at the call `s0`, or at `pre`: a `Normal` node whose
/// only edge leads to `s0`.
pub open spec fn entry_ok(g: GraphView, pre: usize, s0: usize) -> bool {
    &&& s0 < g.nodes.len()
    &&& g.nodes[s0 as int].call is Some
    &&& pre < g.nodes.len()
    &&& pre == s0 || (g.nodes[pre as int].kind is Normal && g.nodes[pre as int].children == seq![s0])
}

/// The construction state `st` when a walk begun at `pre` or `s0` reaches
/// `p`, before `p` is recorded: nothing has failed, `k` tokens are used,
/// one rule node is open per entered reference (one more when `p` is the
/// `RuleEnd` node that closes it), and at the outermost level a node has
/// been completed unless the walk is still at its beginning or about to
/// close its node.
pub open spec fn arrival_ok(g: GraphView, pre: usize, s0: usize, st: BuildState, p: SPos, k: nat) -> bool {
    &&& st.ok
    &&& st.tok == k
    &&& st.stack.len() == p.0.len() + if g.nodes[p.1 as int].kind is RuleEnd {
        1int
    } else {
        0int
    }
    &&& p.0.len() == 0 ==> (st.result is Some || p.1 == pre || p.1 == s0 || g.nodes[p.1 as int].kind is RuleEnd)
}

/// The construction state `st` after `p` is recorded.
pub open spec fn departure_ok(g: GraphView, pre: usize, s0: usize, st: BuildState, p: SPos, k: nat) -> bool {
    &&& st.ok
    &&& st.tok == k
    &&& st.stack.len() == p.0.len() + if g.nodes[p.1 as int].kind is RuleStart {
        1int
    } else {
        0int
    }
    &&& p.0.len() == 0 ==> (st.result is Some || p.1 == pre || p.1 == s0)
}

pub open spec fn ctx_ok(gr: Grammar, pre: usize, s0: usize) -> bool {
    &&& graph_wf(gr.graph_view())
    &&& shape_ok(gr.graph_view())
    &&& entry_ok(gr.graph_view(), pre, s0)
}

proof fn lemma_record(gr: Grammar, pre: usize, s0: usize, toks: Seq<Token>, st: BuildState, p: SPos, k: nat)
    requires
        ctx_ok(gr, pre, s0),
        pos_ok(gr.graph_view(), p),
        arrival_ok(gr.graph_view(), pre, s0, st, p, k),
        is_token_at(gr.graph_view(), p.1) ==> k < toks.len(),
    ensures
        departure_ok(
            gr.graph_view(),
            pre,
            s0,
            build_step(gr, st, p, toks),
            p,
            if is_token_at(gr.graph_view(), p.1) {
                k + 1
            } else {
                k
            },
        ),
{
}

proof fn lemma_move(gr: Grammar, pre: usize, s0: usize, st: BuildState, p: SPos, k: nat, i: int)
    requires
        ctx_ok(gr, pre, s0),
        pos_ok(gr.graph_view(), p),
        departure_ok(gr.graph_view(), pre, s0, st, p, k),
        0 <= i < moves(gr.graph_view(), p).len(),
    ensures
        arrival_ok(gr.graph_view(), pre, s0, st, moves(gr.graph_view(), p)[i], k),
        pos_ok(gr.graph_view(), moves(gr.graph_view(), p)[i]),
{
    let g = gr.graph_view();
    lemma_moves_pos_ok(g, p);
    let nd = g.nodes[p.1 as int];
    let q = moves(g, p)[i];
    match nd.call {
        Some(c) => {
            assert(nd.kind is RuleStart);
            assert(c.0 < g.bodies.len());
            assert(q == (p.0.push(p.1), g.bodies[c.0 as int].entry));
            assert(!(g.nodes[g.bodies[c.0 as int].entry as int].kind is RuleEnd));
        },
        None => {
            if nd.kind is RuleStart {
                assert(nd.children.len() == 0);
                if p.0.len() > 0 && p.1 == g.bodies[crate::graph::callee_of(g, p.0.last()) as int].exit {
                    assert(p.0[p.0.len() - 1] < g.nodes.len() && g.nodes[p.0.last() as int].call is Some);
                    assert(crate::graph::callee_of(g, p.0.last()) < g.bodies.len());
                }
                assert(false);
            }
            if i < nd.children.len() {
                assert(q == (p.0, nd.children[i]));
                assert(!(g.nodes[nd.children[i] as int].kind is RuleEnd));
                if p.0.len() == 0 && st.result is None {
                    if p.1 == s0 {
                        assert(false);
                    }
                    assert(p.1 == pre);
                    assert(pre != s0);
                    assert(nd.children == seq![s0]);
                    assert(q.1 == s0);
                }
            } else {
                let t = p.0.last();
                assert(p.0[p.0.len() - 1] < g.nodes.len() && g.nodes[t as int].call is Some);
                assert(q == (p.0.drop_last(), call_end(g.nodes[t as int].call)));
                assert(g.nodes[call_end(g.nodes[t as int].call) as int].kind is RuleEnd);
            }
        },
    }
}

/// A follow walk `w` from the position that was reached with `st` after
/// `path`: it extends `path` by non-`Normal` positions only, ends at a
/// token, and its construction state after that token is consistent.
pub open spec fn follow_ok(
    gr: Grammar,
    pre: usize,
    s0: usize,
    toks: Seq<Token>,
    path: Seq<SPos>,
    st: BuildState,
    k: nat,
    w: Seq<SPos>,
) -> bool {
    let g = gr.graph_view();
    &&& w.len() > path.len()
    &&& w.take(path.len() as int) == path
    &&& forall|j: int| path.len() <= j < w.len() ==> !is_normal_at(g, #[trigger] w[j].1)
    &&& pos_ok(g, w.last())
    &&& is_token_at(g, w.last().1)
    &&& departure_ok(g, pre, s0, build_from(gr, st, w.skip(path.len() as int), toks), w.last(), k + 1)
}

proof fn lemma_follow_from(
    gr: Grammar,
    pre: usize,
    s0: usize,
    toks: Seq<Token>,
    p: SPos,
    path: Seq<SPos>,
    fuel: nat,
    st: BuildState,
    k: nat,
)
    requires
        ctx_ok(gr, pre, s0),
        pos_ok(gr.graph_view(), p),
        arrival_ok(gr.graph_view(), pre, s0, st, p, k),
        k < toks.len(),
    ensures
        forall|i: int|
            0 <= i < follow_from(gr.graph_view(), p, path, true, fuel).len() ==> follow_ok(
                gr,
                pre,
                s0,
                toks,
                path,
                st,
                k,
                #[trigger] follow_from(gr.graph_view(), p, path, true, fuel)[i].1,
            ),
    decreases fuel, 0nat,
{
    let g = gr.graph_view();
    let path2 = if is_normal_at(g, p.1) {
        path
    } else {
        path.push(p)
    };
    let st1 = build_step(gr, st, p, toks);
    lemma_record(gr, pre, s0, toks, st, p, k);
    let res = follow_from(g, p, path, true, fuel);
    if is_token_at(g, p.1) {
        let w = path2;
        assert(res =~= seq![(crate::graph::token_type_at(g, p.1), path2)]);
        assert(w.take(path.len() as int) =~= path);
        assert(w.skip(path.len() as int) =~= seq![p]);
        lemma_build_one(gr, st, p, toks);
        assert(w[path.len() as int] == p);
        assert(follow_ok(gr, pre, s0, toks, path, st, k, w));
    } else if fuel == 0 {
    } else {
        let cs = moves(g, p);
        assert forall|j: int| 0 <= j < cs.len() implies pos_ok(g, #[trigger] cs[j]) && arrival_ok(
            g,
            pre,
            s0,
            st1,
            cs[j],
            k,
        ) by {
            lemma_move(gr, pre, s0, st1, p, k, j);
        }
        lemma_follow_all(gr, pre, s0, toks, cs, path2, (fuel - 1) as nat, st1, k);
        assert(res == follow_all(g, cs, path2, (fuel - 1) as nat));
        assert forall|i: int| 0 <= i < res.len() implies follow_ok(gr, pre, s0, toks, path, st, k, #[trigger] res[i].1) by {
            let w = res[i].1;
            assert(follow_ok(gr, pre, s0, toks, path2, st1, k, follow_all(g, cs, path2, (fuel - 1) as nat)[i].1));
            assert(w.take(path.len() as int) =~= path2.take(path.len() as int));
            assert(path2.take(path.len() as int) =~= path);
            if !is_normal_at(g, p.1) {
                assert(w.take(path2.len() as int)[path.len() as int] == path2[path.len() as int]);
                assert(w[path.len() as int] == p);
                assert(w.skip(path.len() as int) =~= seq![p] + w.skip(path2.len() as int));
                lemma_build_from_concat(gr, st, seq![p], w.skip(path2.len() as int), toks);
                lemma_build_one(gr, st, p, toks);
            } else {
                assert(st1 == st);
            }
        }
    }
}

proof fn lemma_follow_all(
    gr: Grammar,
    pre: usize,
    s0: usize,
    toks: Seq<Token>,
    cs: Seq<SPos>,
    path: Seq<SPos>,
    fuel: nat,
    st: BuildState,
    k: nat,
)
    requires
        ctx_ok(gr, pre, s0),
        forall|j: int|
            0 <= j < cs.len() ==> pos_ok(gr.graph_view(), #[trigger] cs[j]) && arrival_ok(
                gr.graph_view(),
                pre,
                s0,
                st,
                cs[j],
                k,
            ),
        k < toks.len(),
    ensures
        forall|i: int|
            0 <= i < follow_all(gr.graph_view(), cs, path, fuel).len() ==> follow_ok(
                gr,
                pre,
                s0,
                toks,
                path,
                st,
                k,
                #[trigger] follow_all(gr.graph_view(), cs, path, fuel)[i].1,
            ),
    decreases fuel, cs.len(),
{
    let g = gr.graph_view();
    if cs.len() > 0 {
        assert(pos_ok(g, cs[0]));
        lemma_follow_from(gr, pre, s0, toks, cs[0], path, fuel, st, k);
        let rest = cs.drop_first();
        assert forall|j: int| 0 <= j < rest.len() implies pos_ok(g, #[trigger] rest[j]) && arrival_ok(
            g,
            pre,
            s0,
            st,
            rest[j],
            k,
        ) by {
            assert(rest[j] == cs[j + 1]);
        }
        lemma_follow_all(gr, pre, s0, toks, rest, path, fuel, st, k);
        let a = follow_from(g, cs[0], path, true, fuel);
        let b = follow_all(g, rest, path, fuel);
        assert(follow_all(g, cs, path, fuel) == a + b);
        assert forall|i: int| 0 <= i < (a + b).len() implies follow_ok(gr, pre, s0, toks, path, st, k, #[trigger] (a + b)[i].1) by {
            if i < a.len() {
                assert((a + b)[i] == a[i]);
            } else {
                assert((a + b)[i] == b[i - a.len()]);
            }
        }
    }
}

/// The path a search from `p` starts with: `p` itself unless it is `Normal`.
pub open spec fn first_path(g: GraphView, p: SPos) -> Seq<SPos> {
    if is_normal_at(g, p.1) {
        seq![]
    } else {
        seq![p]
    }
}

proof fn lemma_follow_after(gr: Grammar, pre: usize, s0: usize, toks: Seq<Token>, p: SPos, fuel: nat, st: BuildState, k: nat)
    requires
        ctx_ok(gr, pre, s0),
        pos_ok(gr.graph_view(), p),
        departure_ok(gr.graph_view(), pre, s0, st, p, k),
        k < toks.len(),
    ensures
        forall|i: int|
            0 <= i < follow_from(gr.graph_view(), p, seq![], false, fuel).len() ==> follow_ok(
                gr,
                pre,
                s0,
                toks,
                first_path(gr.graph_view(), p),
                st,
                k,
                #[trigger] follow_from(gr.graph_view(), p, seq![], false, fuel)[i].1,
            ),
{
    let g = gr.graph_view();
    if fuel > 0 {
        let cs = moves(g, p);
        assert forall|j: int| 0 <= j < cs.len() implies pos_ok(g, #[trigger] cs[j]) && arrival_ok(
            g,
            pre,
            s0,
            st,
            cs[j],
            k,
        ) by {
            lemma_move(gr, pre, s0, st, p, k, j);
        }
        assert(first_path(g, p) =~= if is_normal_at(g, p.1) {
            Seq::<SPos>::empty()
        } else {
            Seq::<SPos>::empty().push(p)
        });
        lemma_follow_all(gr, pre, s0, toks, cs, first_path(g, p), (fuel - 1) as nat, st, k);
        assert(follow_from(g, p, seq![], false, fuel) == follow_all(g, cs, first_path(g, p), (fuel - 1) as nat));
    }
}

/// An active walk after `k` tokens: non-empty, ending at a valid position,
/// with a consistent construction state.
pub open spec fn active_ok(gr: Grammar, pre: usize, s0: usize, toks: Seq<Token>, a: Seq<SPos>, k: nat) -> bool {
    &&& a.len() > 0
    &&& pos_ok(gr.graph_view(), a.last())
    &&& departure_ok(gr.graph_view(), pre, s0, build_walk(gr, a, toks), a.last(), k)
}

proof fn lemma_join(gr: Grammar, pre: usize, s0: usize, toks: Seq<Token>, a: Seq<SPos>, w: Seq<SPos>, k: nat)
    requires
        ctx_ok(gr, pre, s0),
        active_ok(gr, pre, s0, toks, a, k),
        follow_ok(gr, pre, s0, toks, first_path(gr.graph_view(), a.last()), build_walk(gr, a, toks), k, w),
    ensures
        active_ok(gr, pre, s0, toks, join_walk(a, w), k + 1),
{
    let g = gr.graph_view();
    let p = a.last();
    let fp = first_path(g, p);
    let st = build_walk(gr, a, toks);
    lemma_build_walk_from(gr, a, toks);
    if !is_normal_at(g, p.1) {
        assert(w.take(1) =~= seq![p]);
        assert(w[0] == w.take(1)[0]);
        assert(join_walk(a, w) == a + w.drop_first());
        assert(w.drop_first() =~= w.skip(1));
        lemma_build_from_concat(gr, build_init(), a, w.skip(1), toks);
        lemma_build_walk_from(gr, a + w.skip(1), toks);
        assert((a + w.skip(1)).last() == w.last());
    } else {
        assert(fp.len() == 0);
        assert(!is_normal_at(g, w[0].1));
        assert(join_walk(a, w) == a + w);
        assert(w.skip(0) =~= w);
        lemma_build_from_concat(gr, build_init(), a, w, toks);
        lemma_build_walk_from(gr, a + w, toks);
        assert((a + w).last() == w.last());
    }
}

proof fn lemma_extend_matching(
    gr: Grammar,
    pre: usize,
    s0: usize,
    toks: Seq<Token>,
    a: Seq<SPos>,
    fs: Seq<(Seq<char>, Seq<SPos>)>,
    tt: Seq<char>,
    k: nat,
)
    requires
        ctx_ok(gr, pre, s0),
        active_ok(gr, pre, s0, toks, a, k),
        forall|i: int|
            0 <= i < fs.len() ==> follow_ok(
                gr,
                pre,
                s0,
                toks,
                first_path(gr.graph_view(), a.last()),
                build_walk(gr, a, toks),
                k,
                #[trigger] fs[i].1,
            ),
    ensures
        forall|i: int|
            0 <= i < extend_matching(a, fs, tt).len() ==> active_ok(
                gr,
                pre,
                s0,
                toks,
                #[trigger] extend_matching(a, fs, tt)[i],
                k + 1,
            ),
    decreases fs.len(),
{
    if fs.len() > 0 {
        let d = fs.drop_last();
        assert forall|i: int| 0 <= i < d.len() implies follow_ok(
            gr,
            pre,
            s0,
            toks,
            first_path(gr.graph_view(), a.last()),
            build_walk(gr, a, toks),
            k,
            #[trigger] d[i].1,
        ) by {
            assert(d[i] == fs[i]);
        }
        lemma_extend_matching(gr, pre, s0, toks, a, d, tt, k);
        assert(follow_ok(
            gr,
            pre,
            s0,
            toks,
            first_path(gr.graph_view(), a.last()),
            build_walk(gr, a, toks),
            k,
            fs[fs.len() - 1].1,
        ));
        lemma_join(gr, pre, s0, toks, a, fs.last().1, k);
        let x = extend_matching(a, d, tt);
        let y: Seq<Seq<SPos>> = if fs.last().0 == tt {
            seq![join_walk(a, fs.last().1)]
        } else {
            seq![]
        };
        assert(extend_matching(a, fs, tt) == x + y);
        assert forall|i: int| 0 <= i < (x + y).len() implies active_ok(gr, pre, s0, toks, #[trigger] (x + y)[i], k + 1) by {
            if i < x.len() {
                assert((x + y)[i] == x[i]);
            } else {
                assert((x + y)[i] == y[i - x.len()]);
            }
        }
    }
}

proof fn lemma_step_walks(
    gr: Grammar,
    pre: usize,
    s0: usize,
    toks: Seq<Token>,
    active: Seq<Seq<SPos>>,
    tt: Seq<char>,
    k: nat,
)
    requires
        ctx_ok(gr, pre, s0),
        k < toks.len(),
        forall|i: int| 0 <= i < active.len() ==> active_ok(gr, pre, s0, toks, #[trigger] active[i], k),
    ensures
        forall|i: int|
            0 <= i < step_walks(gr.graph_view(), active, tt).len() ==> active_ok(
                gr,
                pre,
                s0,
                toks,
                #[trigger] step_walks(gr.graph_view(), active, tt)[i],
                k + 1,
            ),
    decreases active.len(),
{
    let g = gr.graph_view();
    if active.len() > 0 {
        let d = active.drop_last();
        assert forall|i: int| 0 <= i < d.len() implies active_ok(gr, pre, s0, toks, #[trigger] d[i], k) by {
            assert(d[i] == active[i]);
        }
        lemma_step_walks(gr, pre, s0, toks, d, tt, k);
        let a = active.last();
        assert(active_ok(gr, pre, s0, toks, active[active.len() - 1], k));
        let fuel = walk_fuel(g, a.last());
        lemma_follow_after(gr, pre, s0, toks, a.last(), fuel, build_walk(gr, a, toks), k);
        let fs = crate::parser::follows_of(g, a);
        lemma_extend_matching(gr, pre, s0, toks, a, fs, tt, k);
        let x = step_walks(g, d, tt);
        let y = extend_matching(a, fs, tt);
        assert(step_walks(g, active, tt) == x + y);
        assert forall|i: int| 0 <= i < (x + y).len() implies active_ok(gr, pre, s0, toks, #[trigger] (x + y)[i], k + 1) by {
            if i < x.len() {
                assert((x + y)[i] == x[i]);
            } else {
                assert((x + y)[i] == y[i - x.len()]);
            }
        }
    }
}

proof fn lemma_run_walks(gr: Grammar, pre: usize, s0: usize, toks: Seq<Token>, n: nat)
    requires
        ctx_ok(gr, pre, s0),
        n <= toks.len(),
    ensures
        run_walks(gr.graph_view(), (Seq::empty(), pre), toks.take(n as int)) matches Ok(active) ==> forall|i: int|
            0 <= i < active.len() ==> active_ok(gr, pre, s0, toks, #[trigger] active[i], n),
    decreases n,
{
    let g = gr.graph_view();
    let start: SPos = (Seq::empty(), pre);
    let t = toks.take(n as int);
    if n == 0 {
        assert(t.len() == 0);
        let a = seq![start];
        assert(arrival_ok(g, pre, s0, build_init(), start, 0));
        lemma_record(gr, pre, s0, toks, build_init(), start, 0);
        lemma_build_one(gr, build_init(), start, toks);
        assert(active_ok(gr, pre, s0, toks, a, 0));
    } else {
        lemma_run_walks(gr, pre, s0, toks, (n - 1) as nat);
        assert(t.drop_last() =~= toks.take(n - 1));
        match run_walks(g, start, toks.take(n - 1)) {
            Err(_) => {},
            Ok(active) => {
                lemma_step_walks(gr, pre, s0, toks, active, t.last().token_type@, (n - 1) as nat);
            },
        }
    }
}

/// A completed walk: the search from the end of an active walk to `e`
/// extends it by non-`Normal` positions only, and the construction state
/// after `e` is consistent.
pub open spec fn eps_ok(
    gr: Grammar,
    pre: usize,
    s0: usize,
    toks: Seq<Token>,
    path: Seq<SPos>,
    st: BuildState,
    k: nat,
    e: SPos,
    w: Seq<SPos>,
) -> bool {
    &&& w.len() >= path.len()
    &&& w.take(path.len() as int) == path
    &&& forall|j: int| path.len() <= j < w.len() ==> !is_normal_at(gr.graph_view(), #[trigger] w[j].1)
    &&& departure_ok(gr.graph_view(), pre, s0, build_from(gr, st, w.skip(path.len() as int), toks), e, k)
}

proof fn lemma_eps_from(
    gr: Grammar,
    pre: usize,
    s0: usize,
    toks: Seq<Token>,
    p: SPos,
    e: SPos,
    path: Seq<SPos>,
    fuel: nat,
    st: BuildState,
    k: nat,
)
    requires
        ctx_ok(gr, pre, s0),
        pos_ok(gr.graph_view(), p),
        !is_token_at(gr.graph_view(), p.1),
        arrival_ok(gr.graph_view(), pre, s0, st, p, k),
    ensures
        eps_from(gr.graph_view(), p, at_pos(e), path, fuel) matches Some(w) ==> eps_ok(
            gr,
            pre,
            s0,
            toks,
            path,
            st,
            k,
            e,
            w,
        ),
    decreases fuel, 0nat,
{
    let g = gr.graph_view();
    let path2 = if is_normal_at(g, p.1) {
        path
    } else {
        path.push(p)
    };
    let st1 = build_step(gr, st, p, toks);
    lemma_record(gr, pre, s0, toks, st, p, k);
    lemma_build_one(gr, st, p, toks);
    if at_pos(e)(p) {
        assert(path2.take(path.len() as int) =~= path);
        if !is_normal_at(g, p.1) {
            assert(path2.skip(path.len() as int) =~= seq![p]);
        } else {
            assert(path2.skip(path.len() as int) =~= Seq::<SPos>::empty());
        }
    } else if fuel > 0 {
        let cs = moves(g, p);
        assert forall|j: int| 0 <= j < cs.len() implies pos_ok(g, #[trigger] cs[j]) && arrival_ok(
            g,
            pre,
            s0,
            st1,
            cs[j],
            k,
        ) by {
            lemma_move(gr, pre, s0, st1, p, k, j);
        }
        lemma_eps_any(gr, pre, s0, toks, cs, e, path2, (fuel - 1) as nat, st1, k);
        assert(eps_from(g, p, at_pos(e), path, fuel) == eps_any(g, cs, at_pos(e), path2, (fuel - 1) as nat));
        match eps_from(g, p, at_pos(e), path, fuel) {
            Some(w) => {
                assert(eps_ok(gr, pre, s0, toks, path2, st1, k, e, w));
                assert(w.take(path.len() as int) =~= path2.take(path.len() as int));
                assert(path2.take(path.len() as int) =~= path);
                if !is_normal_at(g, p.1) {
                    assert(w.take(path2.len() as int)[path.len() as int] == path2[path.len() as int]);
                    assert(w[path.len() as int] == p);
                    assert(w.skip(path.len() as int) =~= seq![p] + w.skip(path2.len() as int));
                    lemma_build_from_concat(gr, st, seq![p], w.skip(path2.len() as int), toks);
                } else {
                    assert(st1 == st);
                }
            },
            None => {},
        }
    }
}

proof fn lemma_eps_any(
    gr: Grammar,
    pre: usize,
    s0: usize,
    toks: Seq<Token>,
    cs: Seq<SPos>,
    e: SPos,
    path: Seq<SPos>,
    fuel: nat,
    st: BuildState,
    k: nat,
)
    requires
        ctx_ok(gr, pre, s0),
        forall|j: int|
            0 <= j < cs.len() ==> pos_ok(gr.graph_view(), #[trigger] cs[j]) && arrival_ok(
                gr.graph_view(),
                pre,
                s0,
                st,
                cs[j],
                k,
            ),
    ensures
        eps_any(gr.graph_view(), cs, at_pos(e), path, fuel) matches Some(w) ==> eps_ok(
            gr,
            pre,
            s0,
            toks,
            path,
            st,
            k,
            e,
            w,
        ),
    decreases fuel, cs.len(),
{
    let g = gr.graph_view();
    if cs.len() > 0 {
        let rest = cs.drop_first();
        assert forall|j: int| 0 <= j < rest.len() implies pos_ok(g, #[trigger] rest[j]) && arrival_ok(
            g,
            pre,
            s0,
            st,
            rest[j],
            k,
        ) by {
            assert(rest[j] == cs[j + 1]);
        }
        lemma_eps_any(gr, pre, s0, toks, rest, e, path, fuel, st, k);
        if !is_token_at(g, cs[0].1) {
            assert(pos_ok(g, cs[0]));
            lemma_eps_from(gr, pre, s0, toks, cs[0], e, path, fuel, st, k);
        }
    }
}

proof fn lemma_complete_walk(gr: Grammar, pre: usize, s0: usize, toks: Seq<Token>, a: Seq<SPos>, e: SPos, k: nat)
    requires
        ctx_ok(gr, pre, s0),
        active_ok(gr, pre, s0, toks, a, k),
    ensures
        complete_walk(gr.graph_view(), a, e) matches Some(w) ==> departure_ok(
            gr.graph_view(),
            pre,
            s0,
            build_walk(gr, w, toks),
            e,
            k,
        ),
{
    let g = gr.graph_view();
    let p = a.last();
    let st = build_walk(gr, a, toks);
    let fuel = walk_fuel(g, p);
    let fp = first_path(g, p);
    lemma_build_walk_from(gr, a, toks);
    if fuel > 0 && !at_pos(e)(p) {
        let cs = moves(g, p);
        assert forall|j: int| 0 <= j < cs.len() implies pos_ok(g, #[trigger] cs[j]) && arrival_ok(
            g,
            pre,
            s0,
            st,
            cs[j],
            k,
        ) by {
            lemma_move(gr, pre, s0, st, p, k, j);
        }
        assert(fp =~= if is_normal_at(g, p.1) {
            Seq::<SPos>::empty()
        } else {
            Seq::<SPos>::empty().push(p)
        });
        lemma_eps_any(gr, pre, s0, toks, cs, e, fp, (fuel - 1) as nat, st, k);
    }
    match eps_from(g, p, at_pos(e), seq![], fuel) {
        Some(tail) => {
            if at_pos(e)(p) {
                assert(p == e);
                assert(tail == fp);
                if !is_normal_at(g, p.1) {
                    assert(join_walk(a, tail) =~= a);
                } else {
                    assert(join_walk(a, tail) =~= a);
                }
            } else {
                assert(eps_ok(gr, pre, s0, toks, fp, st, k, e, tail));
                if !is_normal_at(g, p.1) {
                    assert(tail.take(1) =~= seq![p]);
                    assert(tail[0] == tail.take(1)[0]);
                    assert(join_walk(a, tail) == a + tail.drop_first());
                    assert(tail.drop_first() =~= tail.skip(1));
                    lemma_build_from_concat(gr, build_init(), a, tail.skip(1), toks);
                    lemma_build_walk_from(gr, a + tail.skip(1), toks);
                } else {
                    if tail.len() > 0 {
                        assert(!is_normal_at(g, tail[0].1));
                    }
                    assert(join_walk(a, tail) == a + tail);
                    assert(tail.skip(0) =~= tail);
                    lemma_build_from_concat(gr, build_init(), a, tail, toks);
                    lemma_build_walk_from(gr, a + tail, toks);
                }
            }
        },
        None => {},
    }
}

proof fn lemma_complete_walks(
    gr: Grammar,
    pre: usize,
    s0: usize,
    toks: Seq<Token>,
    active: Seq<Seq<SPos>>,
    e: SPos,
    k: nat,
)
    requires
        ctx_ok(gr, pre, s0),
        forall|i: int| 0 <= i < active.len() ==> active_ok(gr, pre, s0, toks, #[trigger] active[i], k),
    ensures
        forall|i: int|
            0 <= i < complete_walks(gr.graph_view(), active, e).len() ==> departure_ok(
                gr.graph_view(),
                pre,
                s0,
                build_walk(gr, #[trigger] complete_walks(gr.graph_view(), active, e)[i], toks),
                e,
                k,
            ),
    decreases active.len(),
{
    let g = gr.graph_view();
    if active.len() > 0 {
        let d = active.drop_last();
        assert forall|i: int| 0 <= i < d.len() implies active_ok(gr, pre, s0, toks, #[trigger] d[i], k) by {
            assert(d[i] == active[i]);
        }
        lemma_complete_walks(gr, pre, s0, toks, d, e, k);
        assert(active_ok(gr, pre, s0, toks, active[active.len() - 1], k));
        lemma_complete_walk(gr, pre, s0, toks, active.last(), e, k);
        let x = complete_walks(g, d, e);
        let y: Seq<Seq<SPos>> = match complete_walk(g, active.last(), e) {
            Some(w) => seq![w],
            None => seq![],
        };
        assert(complete_walks(g, active, e) == x + y);
        assert forall|i: int| 0 <= i < (x + y).len() implies departure_ok(
            g,
            pre,
            s0,
            build_walk(gr, #[trigger] (x + y)[i], toks),
            e,
            k,
        ) by {
            if i < x.len() {
                assert((x + y)[i] == x[i]);
            } else {
                assert((x + y)[i] == y[i - x.len()]);
            }
        }
    }
}

/// The walk accepted for `toks` between a start and an end that satisfy
/// the entry conditions builds an AST.
proof fn lemma_walk_builds(gr: Grammar, pre: usize, s0: usize, e: SPos, toks: Seq<Token>)
    requires
        ctx_ok(gr, pre, s0),
        e.0.len() == 0,
        e.1 != pre,
        e.1 != s0,
    ensures
        parse_walk(gr.graph_view(), (Seq::empty(), pre), e, toks) matches Ok(w) ==> build_result(gr, w, toks) is Some,
{
    let g = gr.graph_view();
    let n = toks.len();
    lemma_run_walks(gr, pre, s0, toks, n);
    assert(toks.take(n as int) =~= toks);
    match run_walks(g, (Seq::empty(), pre), toks) {
        Err(_) => {},
        Ok(active) => {
            lemma_complete_walks(gr, pre, s0, toks, active, e, n);
            let valid = complete_walks(g, active, e);
            if valid.len() == 1 {
                assert(departure_ok(g, pre, s0, build_walk(gr, valid[0], toks), e, n));
            }
        },
    }
}

/// A parse that finds exactly one complete walk succeeds: the outcome of
/// parsing `toks` is an AST exactly when the walk search accepts a walk,
/// and the error of the walk search otherwise.
pub proof fn lemma_parse_outcome(gr: Grammar, toks: Seq<Token>)
    requires
        gr.wf(),
        gr.is_compiled(),
    ensures
        parse_outcome(gr, gr.start_pos(), gr.end_pos(), toks) is Ok <==> parse_walk(
            gr.graph_view(),
            gr.start_pos(),
            gr.end_pos(),
            toks,
        ) is Ok,
        parse_walk(gr.graph_view(), gr.start_pos(), gr.end_pos(), toks) matches Err(e) ==> parse_outcome(
            gr,
            gr.start_pos(),
            gr.end_pos(),
            toks,
        ) == Err::<crate::ast::AstView, crate::error::ParseError>(e),
{
    let g = gr.graph_view();
    gr.lemma_compiled_shape();
    let rt = g.root->0;
    let s0 = g.nodes[rt.0 as int].children[0];
    assert(g.nodes[rt.0 as int].children =~= seq![s0]);
    assert(g.nodes[s0 as int].kind is RuleStart);
    assert(entry_ok(g, rt.0, s0));
    lemma_walk_builds(gr, rt.0, s0, gr.end_pos(), toks);
}

/// The same for parsing a rule on its own.
pub proof fn lemma_rule_parse_outcome(gr: Grammar, name: Seq<char>, toks: Seq<Token>)
    requires
        gr.wf(),
        gr.is_compiled(),
        gr.has_compiled_rule(name),
    ensures
        parse_outcome(gr, gr.rule_start_pos(name), gr.rule_end_pos(name), toks) is Ok <==> parse_walk(
            gr.graph_view(),
            gr.rule_start_pos(name),
            gr.rule_end_pos(name),
            toks,
        ) is Ok,
        parse_walk(gr.graph_view(), gr.rule_start_pos(name), gr.rule_end_pos(name), toks) matches Err(e)
            ==> parse_outcome(gr, gr.rule_start_pos(name), gr.rule_end_pos(name), toks) == Err::<
            crate::ast::AstView,
            crate::error::ParseError,
        >(e),
{
    let g = gr.graph_view();
    gr.lemma_compiled_shape();
    let i = lookup_rule(body_names(g), name)->0;
    crate::graph::lemma_lookup_spec(body_names(g), name);
    let b = g.bodies[i as int];
    assert(g.nodes[b.start as int].call == Some((i, b.end)));
    assert(g.nodes[b.end as int].kind is RuleEnd);
    assert(g.nodes[b.start as int].kind is RuleStart);
    assert(entry_ok(g, b.start, b.start));
    lemma_walk_builds(gr, b.start, b.start, gr.rule_end_pos(name), toks);
}

} // verus!
