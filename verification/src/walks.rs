//! Termination of the graph searches.
//!
//! A certificate assigns every node a height `bb` and a flag `rr` ("the exit
//! of the enclosing rule body is reachable without a token"). When the local
//! constraints hold, the measure `phi` of a position decreases along every
//! move into a non-token position, so every token-free walk is bounded. The
//! constraints can be met exactly when the grammar has neither left recursion
//! nor a repetition of something that can match no token.
use vstd::prelude::*;

use crate::graph::{
    bounded, call_rule, callee_of, end_of, graph_wf, is_token_at, moves, pos_ok, GrammarNodeKind, GraphView,
    SPos, SyntaxGraph,
};

verus! {

pub struct Cert {
    pub rr: Seq<bool>,
    pub bb: Seq<nat>,
    pub bmax: nat,
}

pub open spec fn node_cert_ok(g: GraphView, c: Cert, n: int) -> bool {
    match g.nodes[n].call {
        Some(cl) => {
            let en = g.bodies[cl.0 as int].entry;
            is_token_at(g, en) || (c.bb[n] >= c.bb[en as int] + 1 && (c.rr[en as int] ==> c.bb[n]
                >= c.bb[en as int] + c.bb[cl.1 as int] + 2 && (c.rr[cl.1 as int] ==> c.rr[n])))
        },
        None => forall|i: int|
            0 <= i < g.nodes[n].children.len() ==> is_token_at(g, #[trigger] g.nodes[n].children[i]) || (
            c.bb[n] >= c.bb[g.nodes[n].children[i] as int] + 1 && (c.rr[g.nodes[n].children[i] as int]
                ==> c.rr[n])),
    }
}

pub open spec fn cert_ok(g: GraphView, c: Cert) -> bool {
    &&& c.rr.len() == g.nodes.len()
    &&& c.bb.len() == g.nodes.len()
    &&& forall|n: int| 0 <= n < g.nodes.len() ==> #[trigger] c.bb[n] <= c.bmax
    &&& forall|n: int|
        0 <= n < g.nodes.len() && !is_token_at(g, n as usize) ==> #[trigger] node_cert_ok(g, c, n)
    &&& forall|r: int|
        0 <= r < g.bodies.len() && !is_token_at(g, g.bodies[r].exit) ==> c.rr[#[trigger] g.bodies[r].exit as int]
}

/// Every token-free walk in the graph is bounded: a certificate exists.
pub open spec fn has_bounded_walks(g: GraphView) -> bool {
    exists|c: Cert| cert_ok(g, c)
}

pub open spec fn phi(g: GraphView, c: Cert, fr: Seq<usize>, n: usize) -> nat
    decreases fr.len(),
{
    c.bb[n as int] + if fr.len() > 0 && c.rr[n as int] {
        1 + phi(g, c, fr.drop_last(), end_of(g, fr.last()))
    } else {
        0nat
    }
}

pub open spec fn fuel_cap(c: Cert, k: nat) -> nat
    decreases k,
{
    (c.bmax + 1) + if k > 0 {
        fuel_cap(c, (k - 1) as nat)
    } else {
        0nat
    }
}

/// The fuel the searches are run with at position `p`.
pub open spec fn walk_fuel(g: GraphView, p: SPos) -> nat {
    fuel_cap(choose|c: Cert| cert_ok(g, c), p.0.len()) + 1
}

pub proof fn lemma_bounded_mono(g: GraphView, p: SPos, f1: nat, f2: nat)
    requires
        bounded(g, p, f1),
        f1 <= f2,
    ensures
        bounded(g, p, f2),
    decreases f1,
{
    assert forall|i: int| 0 <= i < moves(g, p).len() implies is_token_at(g, #[trigger] moves(g, p)[i].1)
        || bounded(g, moves(g, p)[i], (f2 - 1) as nat) by {
        if !is_token_at(g, moves(g, p)[i].1) {
            lemma_bounded_mono(g, moves(g, p)[i], (f1 - 1) as nat, (f2 - 1) as nat);
        }
    }
}

proof fn lemma_cap_mono(c: Cert, k1: nat, k2: nat)
    requires
        k1 <= k2,
    ensures
        fuel_cap(c, k1) <= fuel_cap(c, k2),
    decreases k2,
{
    if k1 < k2 {
        lemma_cap_mono(c, k1, (k2 - 1) as nat);
    }
}

proof fn lemma_phi_lt_cap(g: GraphView, c: Cert, fr: Seq<usize>, n: usize)
    requires
        graph_wf(g),
        cert_ok(g, c),
        pos_ok(g, (fr, n)),
    ensures
        phi(g, c, fr, n) < fuel_cap(c, fr.len()),
    decreases fr.len(),
{
    assert(c.bb[n as int] <= c.bmax);
    if fr.len() > 0 {
        let t = fr.last();
        assert(fr[fr.len() - 1] < g.nodes.len() && g.nodes[t as int].call is Some);
        assert(end_of(g, t) < g.nodes.len());
        assert(pos_ok(g, (fr.drop_last(), end_of(g, t))));
        lemma_phi_lt_cap(g, c, fr.drop_last(), end_of(g, t));
    }
}

pub proof fn lemma_moves_pos_ok(g: GraphView, p: SPos)
    requires
        graph_wf(g),
        pos_ok(g, p),
    ensures
        forall|i: int| 0 <= i < moves(g, p).len() ==> pos_ok(g, #[trigger] moves(g, p)[i]),
        g.nodes[p.1 as int].call is None ==> forall|i: int|
            0 <= i < moves(g, p).len() ==> (#[trigger] moves(g, p)[i]).0.len() <= p.0.len(),
{
    let nd = g.nodes[p.1 as int];
    assert forall|i: int| 0 <= i < moves(g, p).len() implies pos_ok(g, #[trigger] moves(g, p)[i]) by {
        match nd.call {
            Some(cl) => {
                assert(call_rule(g.nodes[p.1 as int].call) < g.bodies.len());
                let q = moves(g, p)[i];
                assert(q.0 == p.0.push(p.1));
                assert forall|j: int| 0 <= j < q.0.len() implies #[trigger] q.0[j] < g.nodes.len()
                    && g.nodes[q.0[j] as int].call is Some by {
                    if j < p.0.len() {
                        assert(q.0[j] == p.0[j]);
                    }
                }
            },
            None => {
                if i < nd.children.len() {
                    assert(nd.children[i] < g.nodes.len());
                } else {
                    let t = p.0.last();
                    assert(p.0[p.0.len() - 1] < g.nodes.len() && g.nodes[t as int].call is Some);
                    let q = moves(g, p)[i];
                    assert forall|j: int| 0 <= j < q.0.len() implies #[trigger] q.0[j] < g.nodes.len()
                        && g.nodes[q.0[j] as int].call is Some by {
                        assert(q.0[j] == p.0[j]);
                    }
                }
            },
        }
    }
}

proof fn lemma_phi_decreases(g: GraphView, c: Cert, p: SPos, i: int)
    requires
        graph_wf(g),
        cert_ok(g, c),
        pos_ok(g, p),
        !is_token_at(g, p.1),
        0 <= i < moves(g, p).len(),
        !is_token_at(g, moves(g, p)[i].1),
    ensures
        phi(g, c, moves(g, p)[i].0, moves(g, p)[i].1) < phi(g, c, p.0, p.1),
{
    let n = p.1;
    let fr = p.0;
    let nd = g.nodes[n as int];
    assert(node_cert_ok(g, c, n as int));
    let m = moves(g, p)[i];
    match nd.call {
        Some(cl) => {
            assert(call_rule(g.nodes[n as int].call) < g.bodies.len());
            let en = g.bodies[cl.0 as int].entry;
            let e = cl.1;
            assert(m == (fr.push(n), en));
            assert(fr.push(n).drop_last() =~= fr);
            assert(fr.push(n).last() == n);
            assert(end_of(g, n) == e);
            assert(!is_token_at(g, en));
            assert(c.bb[n as int] >= c.bb[en as int] + 1);
            assert(phi(g, c, fr.push(n), en) == c.bb[en as int] + if c.rr[en as int] {
                1 + phi(g, c, fr, e)
            } else {
                0nat
            });
            if c.rr[en as int] {
                assert(c.bb[n as int] >= c.bb[en as int] + c.bb[e as int] + 2);
                assert(c.rr[e as int] ==> c.rr[n as int]);
                assert(phi(g, c, fr, e) == c.bb[e as int] + if fr.len() > 0 && c.rr[e as int] {
                    1 + phi(g, c, fr.drop_last(), end_of(g, fr.last()))
                } else {
                    0nat
                });
            }
        },
        None => {
            if i < nd.children.len() {
                assert(m == (fr, nd.children[i]));
                assert(is_token_at(g, g.nodes[n as int].children[i]) || (c.bb[n as int]
                    >= c.bb[g.nodes[n as int].children[i] as int] + 1));
            } else {
                let t = fr.last();
                assert(fr[fr.len() - 1] < g.nodes.len() && g.nodes[t as int].call is Some);
                let r = callee_of(g, t);
                assert(call_rule(g.nodes[t as int].call) < g.bodies.len());
                assert(g.bodies[r as int].exit == n);
                assert(c.rr[g.bodies[r as int].exit as int]);
                assert(m == (fr.drop_last(), end_of(g, t)));
            }
        },
    }
}

proof fn lemma_bounded_phi(g: GraphView, c: Cert, p: SPos)
    requires
        graph_wf(g),
        cert_ok(g, c),
        pos_ok(g, p),
        !is_token_at(g, p.1),
    ensures
        bounded(g, p, phi(g, c, p.0, p.1) + 1),
    decreases phi(g, c, p.0, p.1),
{
    lemma_moves_pos_ok(g, p);
    let f = phi(g, c, p.0, p.1);
    assert forall|i: int| 0 <= i < moves(g, p).len() implies is_token_at(g, #[trigger] moves(g, p)[i].1)
        || bounded(g, moves(g, p)[i], f) by {
        let m = moves(g, p)[i];
        if !is_token_at(g, m.1) {
            lemma_phi_decreases(g, c, p, i);
            lemma_bounded_phi(g, c, m);
            lemma_bounded_mono(g, m, phi(g, c, m.0, m.1) + 1, f);
        }
    }
}

/// With a certificate, every valid position is bounded by [`walk_fuel`].
pub proof fn lemma_walk_fuel(g: GraphView, p: SPos)
    requires
        graph_wf(g),
        has_bounded_walks(g),
        pos_ok(g, p),
    ensures
        bounded(g, p, walk_fuel(g, p)),
{
    let c = choose|c: Cert| cert_ok(g, c);
    let cap = fuel_cap(c, p.0.len());
    if !is_token_at(g, p.1) {
        lemma_bounded_phi(g, c, p);
        lemma_phi_lt_cap(g, c, p.0, p.1);
        lemma_bounded_mono(g, p, phi(g, c, p.0, p.1) + 1, cap + 1);
    } else {
        lemma_moves_pos_ok(g, p);
        assert forall|i: int| 0 <= i < moves(g, p).len() implies is_token_at(g, #[trigger] moves(g, p)[i].1)
            || bounded(g, moves(g, p)[i], cap) by {
            let m = moves(g, p)[i];
            if !is_token_at(g, m.1) {
                lemma_bounded_phi(g, c, m);
                lemma_phi_lt_cap(g, c, m.0, m.1);
                lemma_cap_mono(c, m.0.len(), p.0.len());
                lemma_bounded_mono(g, m, phi(g, c, m.0, m.1) + 1, cap);
            }
        }
    }
}

// ---------------------------------------------------------------------------
// Deciding whether the searches terminate
// ---------------------------------------------------------------------------

/// The largest height the check accepts.
pub const WALK_LIMIT: u64 = 0x1_0000_0000_0000;

pub open spec fn is_exit(g: GraphView, n: int) -> bool {
    exists|r: int| 0 <= r < g.bodies.len() && g.bodies[r].exit == n
}

/// The flags before any propagation: the non-token exits of the rule bodies.
pub open spec fn rr_init(g: GraphView) -> Seq<bool> {
    Seq::new(g.nodes.len(), |n: int| !is_token_at(g, n as usize) && is_exit(g, n))
}

/// Some of the first `k` children of `n` is a non-token node whose flag is set.
pub open spec fn child_reaches(g: GraphView, rr: Seq<bool>, n: int, k: int) -> bool
    decreases k,
{
    if k <= 0 {
        false
    } else {
        child_reaches(g, rr, n, k - 1) || {
            let ch = g.nodes[n].children[k - 1];
            !is_token_at(g, ch) && rr[ch as int]
        }
    }
}

/// The flag of `n` must be set, given the flags `rr` of the other nodes.
pub open spec fn rr_want(g: GraphView, rr: Seq<bool>, n: int) -> bool {
    !is_token_at(g, n as usize) && match g.nodes[n].call {
        Some(cl) => {
            let en = g.bodies[cl.0 as int].entry;
            !is_token_at(g, en) && rr[en as int] && rr[cl.1 as int]
        },
        None => child_reaches(g, rr, n, g.nodes[n].children.len() as int),
    }
}

pub open spec fn rr_step(g: GraphView, rr: Seq<bool>) -> Seq<bool> {
    Seq::new(rr.len(), |n: int| rr[n] || rr_want(g, rr, n))
}

pub open spec fn rr_iter(g: GraphView, k: nat) -> Seq<bool>
    decreases k,
{
    if k == 0 {
        rr_init(g)
    } else {
        rr_step(g, rr_iter(g, (k - 1) as nat))
    }
}

/// The largest height that the first `k` children of `n` ask of `n`.
pub open spec fn child_need(g: GraphView, bb: Seq<nat>, n: int, k: int) -> nat
    decreases k,
{
    if k <= 0 {
        0
    } else {
        let ch = g.nodes[n].children[k - 1];
        let prev = child_need(g, bb, n, k - 1);
        if !is_token_at(g, ch) && bb[ch as int] + 1 > prev {
            bb[ch as int] + 1
        } else {
            prev
        }
    }
}

/// The height that the constraints of `n` ask for, given the other heights.
pub open spec fn need(g: GraphView, rr: Seq<bool>, bb: Seq<nat>, n: int) -> nat {
    if is_token_at(g, n as usize) {
        0
    } else {
        match g.nodes[n].call {
            Some(cl) => {
                let en = g.bodies[cl.0 as int].entry;
                if is_token_at(g, en) {
                    0
                } else if rr[en as int] {
                    bb[en as int] + bb[cl.1 as int] + 2
                } else {
                    bb[en as int] + 1
                }
            },
            None => child_need(g, bb, n, g.nodes[n].children.len() as int),
        }
    }
}

pub open spec fn bb_step(g: GraphView, rr: Seq<bool>, bb: Seq<nat>) -> Seq<nat> {
    Seq::new(
        bb.len(),
        |n: int|
            if need(g, rr, bb, n) > bb[n] {
                need(g, rr, bb, n)
            } else {
                bb[n]
            },
    )
}

pub open spec fn bb_iter(g: GraphView, rr: Seq<bool>, k: nat) -> Seq<nat>
    decreases k,
{
    if k == 0 {
        Seq::new(g.nodes.len(), |n: int| 0nat)
    } else {
        bb_step(g, rr, bb_iter(g, rr, (k - 1) as nat))
    }
}

/// The certificate the check builds: flags and heights after as many rounds
/// of propagation as the graph has nodes.
pub open spec fn built_cert(g: GraphView) -> Cert {
    let rr = rr_iter(g, g.nodes.len());
    Cert { rr, bb: bb_iter(g, rr, g.nodes.len()), bmax: WALK_LIMIT as nat }
}

/// The outcome of [`check_bounded_walks`]: the built certificate stays
/// under the limit and meets every constraint.
pub open spec fn walk_check(g: GraphView) -> bool {
    cert_ok(g, built_cert(g))
}

/// A graph that passes the check has bounded walks.
pub proof fn lemma_walk_check(g: GraphView)
    requires
        walk_check(g),
    ensures
        has_bounded_walks(g),
{
    assert(cert_ok(g, built_cert(g)));
}

proof fn lemma_bb_iter(g: GraphView, rr: Seq<bool>, k: nat, m: nat)
    requires
        k <= m,
    ensures
        bb_iter(g, rr, m).len() == g.nodes.len(),
        forall|i: int| 0 <= i < g.nodes.len() ==> bb_iter(g, rr, k)[i] <= #[trigger] bb_iter(g, rr, m)[i],
    decreases m,
{
    if m > 0 {
        let k2: nat = if k < m {
            k
        } else {
            (m - 1) as nat
        };
        lemma_bb_iter(g, rr, k2, (m - 1) as nat);
    }
}

proof fn lemma_rr_iter_len(g: GraphView, k: nat)
    ensures
        rr_iter(g, k).len() == g.nodes.len(),
    decreases k,
{
    if k > 0 {
        lemma_rr_iter_len(g, (k - 1) as nat);
    }
}

fn token_node(g: &SyntaxGraph, n: usize) -> (r: bool)
    requires
        n < g@.nodes.len(),
    ensures
        r == is_token_at(g@, n),
{
    assert(g@.nodes[n as int] == g.nodes@[n as int]@);
    match &g.nodes[n].kind {
        GrammarNodeKind::Token(_) => true,
        _ => false,
    }
}

pub open spec fn heights(v: Seq<u64>) -> Seq<nat> {
    Seq::new(v.len(), |i: int| v[i] as nat)
}

fn rr_start(g: &SyntaxGraph) -> (r: Vec<bool>)
    requires
        graph_wf(g@),
    ensures
        r@ == rr_init(g@),
{
    let n = g.nodes.len();
    let mut r: Vec<bool> = Vec::new();
    for i in 0..n
        invariant
            n == g@.nodes.len(),
            r@.len() == i,
            forall|j: int| 0 <= j < i ==> !r@[j],
    {
        r.push(false);
    }
    let nb = g.bodies.len();
    for k in 0..nb
        invariant
            graph_wf(g@),
            n == g@.nodes.len(),
            nb == g@.bodies.len(),
            r@.len() == n,
            forall|j: int|
                0 <= j < n ==> (#[trigger] r@[j] <==> (!is_token_at(g@, j as usize) && exists|q: int|
                    0 <= q < k && g@.bodies[q].exit == j)),
    {
        assert(g@.bodies[k as int] == g.bodies@[k as int]@);
        let e = g.bodies[k].exit;
        assert(g@.bodies[k as int].entry < n);
        if !token_node(g, e) {
            r.set(e, true);
        }
        assert forall|j: int| 0 <= j < n implies (#[trigger] r@[j] <==> (!is_token_at(g@, j as usize)
            && exists|q: int| 0 <= q < k + 1 && g@.bodies[q].exit == j)) by {
            if j == e && !is_token_at(g@, j as usize) {
                assert(g@.bodies[k as int].exit == j);
            }
        }
    }
    assert(r@ =~= rr_init(g@));
    r
}

fn rr_round(g: &SyntaxGraph, rr: &Vec<bool>) -> (r: Vec<bool>)
    requires
        graph_wf(g@),
        rr@.len() == g@.nodes.len(),
    ensures
        r@ == rr_step(g@, rr@),
{
    let n = g.nodes.len();
    let mut r: Vec<bool> = Vec::new();
    for i in 0..n
        invariant
            graph_wf(g@),
            n == g@.nodes.len(),
            rr@.len() == n,
            r@ =~= rr_step(g@, rr@).take(i as int),
    {
        let ghost gv = g@;
        assert(gv.nodes[i as int] == g.nodes@[i as int]@);
        let mut want = false;
        if !token_node(g, i) {
            let nd = &g.nodes[i];
            match nd.call {
                Some((ri, e)) => {
                    assert(gv.nodes[i as int].call == Some((ri, e)));
                    assert(gv.bodies[ri as int] == g.bodies@[ri as int]@);
                    assert(gv.bodies[ri as int].entry < n);
                    let en = g.bodies[ri].entry;
                    want = !token_node(g, en) && rr[en] && rr[e];
                },
                None => {
                    let k = nd.children.len();
                    for j in 0..k
                        invariant
                            graph_wf(gv),
                            gv == g@,
                            n == gv.nodes.len(),
                            rr@.len() == n,
                            i < n,
                            nd@ == gv.nodes[i as int],
                            k == nd.children@.len(),
                            want == child_reaches(gv, rr@, i as int, j as int),
                    {
                        let ch = nd.children[j];
                        assert(gv.nodes[i as int].children[j as int] < n);
                        if !token_node(g, ch) && rr[ch] {
                            want = true;
                        }
                    }
                },
            }
        }
        r.push(rr[i] || want);
        assert(rr_step(g@, rr@).take(i + 1) =~= rr_step(g@, rr@).take(i as int).push(rr[i as int] || want));
    }
    assert(rr_step(g@, rr@).take(n as int) =~= rr_step(g@, rr@));
    r
}

fn bb_round(g: &SyntaxGraph, rr: &Vec<bool>, bb: &Vec<u64>) -> (r: Option<Vec<u64>>)
    requires
        graph_wf(g@),
        rr@.len() == g@.nodes.len(),
        bb@.len() == g@.nodes.len(),
        forall|i: int| 0 <= i < bb@.len() ==> #[trigger] bb@[i] <= WALK_LIMIT,
    ensures
        r matches Some(v) ==> heights(v@) == bb_step(g@, rr@, heights(bb@)) && forall|i: int|
            0 <= i < v@.len() ==> #[trigger] v@[i] <= WALK_LIMIT,
        r is None ==> exists|i: int|
            0 <= i < g@.nodes.len() && #[trigger] bb_step(g@, rr@, heights(bb@))[i] > WALK_LIMIT,
{
    let n = g.nodes.len();
    let ghost hb = heights(bb@);
    let mut r: Vec<u64> = Vec::new();
    for i in 0..n
        invariant
            graph_wf(g@),
            n == g@.nodes.len(),
            rr@.len() == n,
            bb@.len() == n,
            hb == heights(bb@),
            forall|q: int| 0 <= q < bb@.len() ==> #[trigger] bb@[q] <= WALK_LIMIT,
            heights(r@) =~= bb_step(g@, rr@, hb).take(i as int),
            forall|q: int| 0 <= q < r@.len() ==> #[trigger] r@[q] <= WALK_LIMIT,
    {
        let ghost gv = g@;
        assert(gv.nodes[i as int] == g.nodes@[i as int]@);
        let mut nd_need: u64 = 0;
        if !token_node(g, i) {
            let nd = &g.nodes[i];
            match nd.call {
                Some((ri, e)) => {
                    assert(gv.nodes[i as int].call == Some((ri, e)));
                    assert(gv.bodies[ri as int] == g.bodies@[ri as int]@);
                    assert(gv.bodies[ri as int].entry < n);
                    let en = g.bodies[ri].entry;
                    if !token_node(g, en) {
                        if rr[en] {
                            nd_need = bb[en] + bb[e] + 2;
                        } else {
                            nd_need = bb[en] + 1;
                        }
                    }
                },
                None => {
                    let k = nd.children.len();
                    for j in 0..k
                        invariant
                            graph_wf(gv),
                            gv == g@,
                            n == gv.nodes.len(),
                            bb@.len() == n,
                            hb == heights(bb@),
                            forall|q: int| 0 <= q < bb@.len() ==> #[trigger] bb@[q] <= WALK_LIMIT,
                            i < n,
                            nd@ == gv.nodes[i as int],
                            k == nd.children@.len(),
                            nd_need == child_need(gv, hb, i as int, j as int),
                            nd_need <= WALK_LIMIT + 1,
                    {
                        let ch = nd.children[j];
                        assert(gv.nodes[i as int].children[j as int] < n);
                        if !token_node(g, ch) && bb[ch] + 1 > nd_need {
                            nd_need = bb[ch] + 1;
                        }
                    }
                },
            }
        }
        assert(nd_need == need(gv, rr@, hb, i as int));
        let v = if nd_need > bb[i] {
            nd_need
        } else {
            bb[i]
        };
        assert(v == bb_step(gv, rr@, hb)[i as int]);
        if v > WALK_LIMIT {
            return None;
        }
        r.push(v);
        assert(heights(r@) =~= bb_step(g@, rr@, hb).take(i as int).push(v as nat));
    }
    assert(bb_step(g@, rr@, hb).take(n as int) =~= bb_step(g@, rr@, hb));
    Some(r)
}

fn node_check(g: &SyntaxGraph, rr: &Vec<bool>, bb: &Vec<u64>, n: usize) -> (r: bool)
    requires
        graph_wf(g@),
        rr@.len() == g@.nodes.len(),
        bb@.len() == g@.nodes.len(),
        forall|i: int| 0 <= i < bb@.len() ==> #[trigger] bb@[i] <= WALK_LIMIT,
        n < g@.nodes.len(),
    ensures
        r == node_cert_ok(g@, Cert { rr: rr@, bb: heights(bb@), bmax: WALK_LIMIT as nat }, n as int),
{
    let ghost gv = g@;
    let ghost c = Cert { rr: rr@, bb: heights(bb@), bmax: WALK_LIMIT as nat };
    assert(gv.nodes[n as int] == g.nodes@[n as int]@);
    let nd = &g.nodes[n];
    match nd.call {
        Some((ri, e)) => {
            assert(gv.nodes[n as int].call == Some((ri, e)));
            assert(gv.bodies[ri as int] == g.bodies@[ri as int]@);
            assert(gv.bodies[ri as int].entry < gv.nodes.len());
            let en = g.bodies[ri].entry;
            if token_node(g, en) {
                return true;
            }
            if !(bb[n] >= bb[en] + 1) {
                return false;
            }
            if rr[en] {
                if !(bb[n] >= bb[en] + bb[e] + 2) {
                    return false;
                }
                if rr[e] && !rr[n] {
                    return false;
                }
            }
            true
        },
        None => {
            let k = nd.children.len();
            for j in 0..k
                invariant
                    graph_wf(gv),
                    gv == g@,
                    c == (Cert { rr: rr@, bb: heights(bb@), bmax: WALK_LIMIT as nat }),
                    rr@.len() == gv.nodes.len(),
                    bb@.len() == gv.nodes.len(),
                    n < gv.nodes.len(),
                    nd@ == gv.nodes[n as int],
                    nd.call is None,
                    k == nd.children@.len(),
                    forall|q: int| 0 <= q < bb@.len() ==> #[trigger] bb@[q] <= WALK_LIMIT,
                    forall|q: int|
                        0 <= q < j ==> is_token_at(gv, #[trigger] gv.nodes[n as int].children[q]) || (c.bb[n as int]
                            >= c.bb[gv.nodes[n as int].children[q] as int] + 1 && (c.rr[gv.nodes[n as int].children[q] as int]
                            ==> c.rr[n as int])),
            {
                let ch = nd.children[j];
                assert(gv.nodes[n as int].children[j as int] < gv.nodes.len());
                if !token_node(g, ch) {
                    if !(bb[n] >= bb[ch] + 1) {
                        return false;
                    }
                    if rr[ch] && !rr[n] {
                        return false;
                    }
                }
            }
            true
        },
    }
}

fn cert_check(g: &SyntaxGraph, rr: &Vec<bool>, bb: &Vec<u64>) -> (r: bool)
    requires
        graph_wf(g@),
        rr@.len() == g@.nodes.len(),
        bb@.len() == g@.nodes.len(),
        forall|i: int| 0 <= i < bb@.len() ==> #[trigger] bb@[i] <= WALK_LIMIT,
    ensures
        r == cert_ok(g@, Cert { rr: rr@, bb: heights(bb@), bmax: WALK_LIMIT as nat }),
{
    let ghost gv = g@;
    let ghost c = Cert { rr: rr@, bb: heights(bb@), bmax: WALK_LIMIT as nat };
    let n = g.nodes.len();
    for i in 0..n
        invariant
            graph_wf(gv),
            gv == g@,
            n == gv.nodes.len(),
            c == (Cert { rr: rr@, bb: heights(bb@), bmax: WALK_LIMIT as nat }),
            rr@.len() == n,
            bb@.len() == n,
            forall|q: int| 0 <= q < bb@.len() ==> #[trigger] bb@[q] <= WALK_LIMIT,
            forall|q: int| 0 <= q < i && !is_token_at(gv, q as usize) ==> #[trigger] node_cert_ok(gv, c, q),
    {
        if !token_node(g, i) {
            if !node_check(g, rr, bb, i) {
                return false;
            }
        }
    }
    let nb = g.bodies.len();
    for k in 0..nb
        invariant
            graph_wf(gv),
            gv == g@,
            nb == gv.bodies.len(),
            rr@.len() == gv.nodes.len(),
            forall|q: int|
                0 <= q < k && !is_token_at(gv, gv.bodies[q].exit) ==> rr@[#[trigger] gv.bodies[q].exit as int],
    {
        assert(gv.bodies[k as int] == g.bodies@[k as int]@);
        assert(gv.bodies[k as int].entry < gv.nodes.len());
        let e = g.bodies[k].exit;
        if !token_node(g, e) && !rr[e] {
            return false;
        }
    }
    true
}

/// Decide [`walk_check`]: build the certificate by rounds of propagation
/// and test it. Passing the check guarantees bounded walks (see [`lemma_walk_check`]).
pub fn check_bounded_walks(g: &SyntaxGraph) -> (r: bool)
    requires
        graph_wf(g@),
    ensures
        r == walk_check(g@),
        r ==> has_bounded_walks(g@),
{
    let ghost gv = g@;
    let n = g.nodes.len();
    let mut rr = rr_start(g);
    for k in 0..n
        invariant
            graph_wf(gv),
            gv == g@,
            n == gv.nodes.len(),
            rr@ == rr_iter(gv, k as nat),
    {
        proof {
            lemma_rr_iter_len(gv, k as nat);
        }
        rr = rr_round(g, &rr);
    }
    proof {
        lemma_rr_iter_len(gv, n as nat);
    }
    let ghost rf = rr_iter(gv, n as nat);
    let mut bb: Vec<u64> = Vec::new();
    for i in 0..n
        invariant
            n == gv.nodes.len(),
            bb@.len() == i,
            forall|j: int| 0 <= j < i ==> bb@[j] == 0,
    {
        bb.push(0);
    }
    assert(heights(bb@) =~= bb_iter(gv, rf, 0));
    for k in 0..n
        invariant
            graph_wf(gv),
            gv == g@,
            n == gv.nodes.len(),
            rr@ == rf,
            rf == rr_iter(gv, n as nat),
            rf.len() == n,
            bb@.len() == n,
            heights(bb@) == bb_iter(gv, rf, k as nat),
            forall|q: int| 0 <= q < bb@.len() ==> #[trigger] bb@[q] <= WALK_LIMIT,
    {
        match bb_round(g, &rr, &bb) {
            Some(v) => {
                assert(heights(v@).len() == v@.len());
                bb = v;
            },
            None => {
                proof {
                    let i = choose|i: int|
                        0 <= i < gv.nodes.len() && #[trigger] bb_step(gv, rf, heights(bb@))[i] > WALK_LIMIT;
                    lemma_bb_iter(gv, rf, (k + 1) as nat, n as nat);
                    assert(bb_iter(gv, rf, (k + 1) as nat)[i] > WALK_LIMIT);
                    assert(rf == rr_iter(gv, gv.nodes.len()));
                    assert(built_cert(gv).bb == bb_iter(gv, rf, n as nat));
                    assert(built_cert(gv).bb[i] > WALK_LIMIT);
                    assert(!cert_ok(gv, built_cert(gv)));
                }
                return false;
            },
        }
    }
    let r = cert_check(g, &rr, &bb);
    proof {
        assert(built_cert(gv) == Cert { rr: rr@, bb: heights(bb@), bmax: WALK_LIMIT as nat });
        if r {
            lemma_walk_check(gv);
        }
    }
    r
}

} // verus!
