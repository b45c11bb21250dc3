//! Deep token-free walks can be shortened.
//!
//! A token-free walk that ends no deeper than it starts, but somewhere goes
//! more than the number of nodes deeper, has entered one rule reference
//! twice, one inside the other. Running the inner entry in place of the
//! outer one gives a shorter walk with the same ends. So such a walk can
//! always be replaced by one that stays within that depth, which is the
//! depth the search of [`crate::search`] explores.
use vstd::prelude::*;
use vstd::set_lib::{lemma_int_range, lemma_len_subset, set_int_range};

use crate::graph::{callee_of, end_of, graph_wf, moves, pops_at, pos_ok, GraphView, SPos};
use crate::search::{eps_step, eps_walk};

verus! {

/// How a step changes the call stack: a rule reference pushes itself and
/// enters its rule's body; any other node goes to a child, or at the exit
/// of the innermost entered body pops back to the `RuleEnd` node.
proof fn lemma_move_cases(g: GraphView, q1: SPos, q2: SPos)
    requires
        moves(g, q1).contains(q2),
    ensures
        (g.nodes[q1.1 as int].call is Some && q2.0 == q1.0.push(q1.1) && q2.1 == g.bodies[callee_of(
            g,
            q1.1,
        ) as int].entry) || (g.nodes[q1.1 as int].call is None && q2.0 == q1.0
            && g.nodes[q1.1 as int].children.contains(q2.1)) || (g.nodes[q1.1 as int].call is None && pops_at(
            g,
            q1,
        ) && q2.0 == q1.0.drop_last() && q2.1 == end_of(g, q1.0.last())),
{
    let i = choose|i: int| 0 <= i < moves(g, q1).len() && moves(g, q1)[i] == q2;
    let nd = g.nodes[q1.1 as int];
    if nd.call is None {
        if i < nd.children.len() {
            assert(nd.children[i] == q2.1);
        }
    }
}

proof fn lemma_move_pos_ok(g: GraphView, q1: SPos, q2: SPos)
    requires
        graph_wf(g),
        pos_ok(g, q1),
        moves(g, q1).contains(q2),
    ensures
        pos_ok(g, q2),
{
    lemma_move_cases(g, q1, q2);
    let nd = g.nodes[q1.1 as int];
    if nd.call is None && q2.0 == q1.0 && nd.children.contains(q2.1) {
        let i = choose|i: int| 0 <= i < nd.children.len() && nd.children[i] == q2.1;
        assert(g.nodes[q1.1 as int].children[i] < g.nodes.len());
    } else if nd.call is Some {
        assert(q2.0[q2.0.len() - 1] == q1.1);
    } else {
        let c = q1.0.last();
        assert(q1.0[q1.0.len() - 1] == c);
        assert(g.nodes[c as int].call is Some);
    }
}

proof fn lemma_walk_pos_ok(g: GraphView, cap: nat, w: Seq<SPos>, k: int)
    requires
        graph_wf(g),
        eps_walk(g, cap, w),
        pos_ok(g, w[0]),
        0 <= k < w.len(),
    ensures
        pos_ok(g, w[k]),
    decreases k,
{
    if k > 0 {
        lemma_walk_pos_ok(g, cap, w, k - 1);
        let i = k - 1;
        assert(eps_step(g, cap, w[i], w[i + 1]));
        lemma_move_pos_ok(g, w[i], w[k]);
    }
}

/// The last index up to `k` at which the walk is at most `l` deep (or 0).
spec fn last_le(w: Seq<SPos>, k: int, l: int) -> int
    decreases k,
{
    if k <= 0 {
        0
    } else if w[k].0.len() <= l {
        k
    } else {
        last_le(w, k - 1, l)
    }
}

proof fn lemma_last_le(w: Seq<SPos>, k: int, l: int)
    requires
        0 <= k < w.len(),
    ensures
        0 <= last_le(w, k, l) <= k,
        last_le(w, k, l) > 0 ==> w[last_le(w, k, l)].0.len() <= l,
        forall|s: int| last_le(w, k, l) < s <= k ==> w[s].0.len() > l,
    decreases k,
{
    if k > 0 && w[k].0.len() > l {
        lemma_last_le(w, k - 1, l);
    }
}

/// The first index from `k` on at which the walk is at most `l` deep (or
/// its last index).
spec fn first_le(w: Seq<SPos>, k: int, l: int) -> int
    decreases w.len() - k,
{
    if k >= w.len() - 1 {
        w.len() - 1
    } else if w[k].0.len() <= l {
        k
    } else {
        first_le(w, k + 1, l)
    }
}

proof fn lemma_first_le(w: Seq<SPos>, k: int, l: int)
    requires
        0 <= k < w.len(),
    ensures
        k <= first_le(w, k, l) <= w.len() - 1,
        first_le(w, k, l) < w.len() - 1 ==> w[first_le(w, k, l)].0.len() <= l,
        forall|s: int| k <= s < first_le(w, k, l) ==> w[s].0.len() > l,
    decreases w.len() - k,
{
    if k < w.len() - 1 && w[k].0.len() > l {
        lemma_first_le(w, k + 1, l);
    }
}

/// Along a stretch of the walk that stays at least `m` deep, the bottom
/// `m` frames do not change.
proof fn lemma_prefix_kept(g: GraphView, cap: nat, w: Seq<SPos>, a: int, b: int, m: int)
    requires
        eps_walk(g, cap, w),
        0 <= a <= b < w.len(),
        0 <= m,
        forall|s: int| a <= s <= b ==> #[trigger] w[s].0.len() >= m,
    ensures
        w[b].0.take(m) == w[a].0.take(m),
    decreases b - a,
{
    if b > a {
        lemma_prefix_kept(g, cap, w, a, b - 1, m);
        let i = b - 1;
        assert(eps_step(g, cap, w[i], w[i + 1]));
        lemma_move_cases(g, w[i], w[b]);
        assert(w[i].0.len() >= m);
        assert(w[b].0.take(m) =~= w[i].0.take(m));
    }
}

/// The entry into level `l` that is still open at index `k`, and the exit
/// from it after `k`.
proof fn lemma_level(g: GraphView, cap: nat, w: Seq<SPos>, k: int, l: int)
    requires
        eps_walk(g, cap, w),
        0 <= k < w.len(),
        w[0].0.len() <= l < w[k].0.len(),
        w.last().0.len() <= l,
    ensures
        ({
            let t = last_le(w, k, l);
            let u = first_le(w, k, l);
            let fk = w[k].0;
            &&& 0 <= t < k < u < w.len()
            &&& w[t].0 == fk.take(l)
            &&& w[t].1 == fk[l]
            &&& w[t + 1] == (fk.take(l + 1), g.bodies[callee_of(g, fk[l]) as int].entry)
            &&& forall|s: int| t < s <= k ==> #[trigger] w[s].0.len() > l
            &&& forall|s: int| k <= s < u ==> #[trigger] w[s].0.len() > l
            &&& w[u - 1].0 == fk.take(l + 1)
            &&& g.nodes[w[u - 1].1 as int].call is None
            &&& pops_at(g, w[u - 1])
            &&& w[u] == (fk.take(l), end_of(g, fk[l]))
        }),
{
    let t = last_le(w, k, l);
    let u = first_le(w, k, l);
    let fk = w[k].0;
    lemma_last_le(w, k, l);
    lemma_first_le(w, k, l);
    assert(t < k);
    assert(w[t].0.len() <= l);
    assert(eps_step(g, cap, w[t], w[t + 1]));
    lemma_move_cases(g, w[t], w[t + 1]);
    assert(w[t + 1].0 == w[t].0.push(w[t].1));
    assert(w[u].0.len() <= l) by {
        if u == w.len() - 1 {
            assert(w[u] == w.last());
        }
    }
    assert(k < u);
    assert forall|s: int| t + 1 <= s <= u - 1 implies #[trigger] w[s].0.len() >= l + 1 by {
        if s <= k {
        } else {
        }
    }
    lemma_prefix_kept(g, cap, w, t + 1, k, l + 1);
    assert(fk.take(l + 1) == w[t + 1].0.take(l + 1));
    assert(w[t + 1].0.take(l + 1) =~= w[t + 1].0);
    assert(fk.take(l) =~= fk.take(l + 1).take(l));
    assert(w[t].0 =~= w[t + 1].0.take(l));
    assert(fk[l] == fk.take(l + 1)[l]);
    lemma_prefix_kept(g, cap, w, t + 1, u - 1, l + 1);
    let i = u - 1;
    assert(eps_step(g, cap, w[i], w[i + 1]));
    lemma_move_cases(g, w[i], w[u]);
    assert(w[i].0.len() == l + 1);
    assert(w[i].0 =~= w[i].0.take(l + 1));
    assert(w[u].0 =~= fk.take(l));
    assert(w[i].0.last() == fk[l]);
}

/// `q` with its bottom `m` frames replaced by `pre`.
spec fn relift(q: SPos, m: int, pre: Seq<usize>) -> SPos {
    (pre + q.0.skip(m), q.1)
}

/// A step that stays at least `m` deep is still a step after the bottom
/// `m` frames are replaced.
proof fn lemma_lift_step(g: GraphView, cap: nat, q1: SPos, q2: SPos, m: int, pre: Seq<usize>)
    requires
        eps_step(g, cap, q1, q2),
        0 <= m,
        q1.0.len() >= m,
        q2.0.len() >= m,
        relift(q2, m, pre).0.len() <= cap,
    ensures
        eps_step(g, cap, relift(q1, m, pre), relift(q2, m, pre)),
{
    lemma_move_cases(g, q1, q2);
    let r1 = relift(q1, m, pre);
    let r2 = relift(q2, m, pre);
    let nd = g.nodes[q1.1 as int];
    if nd.call is Some {
        assert(r2.0 =~= r1.0.push(q1.1));
        assert(moves(g, r1)[0] == r2);
    } else if q2.0 == q1.0 && nd.children.contains(q2.1) {
        let i = choose|i: int| 0 <= i < nd.children.len() && nd.children[i] == q2.1;
        assert(moves(g, r1)[i] == r2);
    } else {
        assert(q1.0.len() > m);
        assert(r1.0.last() == q1.0.last());
        assert(pops_at(g, r1));
        assert(r2.0 =~= r1.0.drop_last());
        assert(moves(g, r1)[nd.children.len() as int] == r2);
    }
}

proof fn lemma_walk_concat(g: GraphView, cap: nat, a: Seq<SPos>, b: Seq<SPos>)
    requires
        eps_walk(g, cap, a),
        eps_walk(g, cap, b),
        eps_step(g, cap, a.last(), b[0]),
    ensures
        eps_walk(g, cap, a + b),
{
    let c = a + b;
    assert forall|i: int| 0 <= i < c.len() - 1 implies #[trigger] eps_step(g, cap, c[i], c[i + 1]) by {
        if i < a.len() - 1 {
            assert(eps_step(g, cap, a[i], a[i + 1]));
        } else if i >= a.len() {
            let j = i - a.len();
            assert(eps_step(g, cap, b[j], b[j + 1]));
        }
    }
}

proof fn lemma_walk_sub(g: GraphView, cap: nat, w: Seq<SPos>, a: int, b: int)
    requires
        eps_walk(g, cap, w),
        0 <= a < b <= w.len(),
    ensures
        eps_walk(g, cap, w.subrange(a, b)),
{
    let s = w.subrange(a, b);
    assert forall|i: int| 0 <= i < s.len() - 1 implies #[trigger] eps_step(g, cap, s[i], s[i + 1]) by {
        let j = a + i;
        assert(eps_step(g, cap, w[j], w[j + 1]));
    }
}

spec fn lifted(w: Seq<SPos>, a: int, b: int, m: int, pre: Seq<usize>) -> Seq<SPos> {
    w.subrange(a, b).map_values(|q: SPos| relift(q, m, pre))
}

proof fn lemma_walk_lift(g: GraphView, cap: nat, w: Seq<SPos>, a: int, b: int, m: int, pre: Seq<usize>)
    requires
        eps_walk(g, cap, w),
        1 <= a < b <= w.len(),
        0 <= pre.len() <= m,
        forall|s: int| a <= s < b ==> #[trigger] w[s].0.len() >= m,
    ensures
        eps_walk(g, cap, lifted(w, a, b, m, pre)),
{
    let v = lifted(w, a, b, m, pre);
    assert forall|i: int| 0 <= i < v.len() - 1 implies #[trigger] eps_step(g, cap, v[i], v[i + 1]) by {
        let j = a + i;
        assert(eps_step(g, cap, w[j], w[j + 1]));
        assert(w[j + 1].0.len() >= m);
        assert(w[j].0.len() >= m);
        lemma_lift_step(g, cap, w[j], w[j + 1], m, pre);
        assert(v[i] == relift(w[j], m, pre));
        assert(v[i + 1] == relift(w[j + 1], m, pre));
    }
}

/// More than `n` values below `n` repeat one.
proof fn lemma_pigeonhole(s: Seq<usize>, n: int)
    requires
        0 <= n < s.len(),
        forall|i: int| 0 <= i < s.len() ==> #[trigger] s[i] < n,
    ensures
        exists|i: int, j: int| 0 <= i < j < s.len() && s[i] == s[j],
{
    if !(exists|i: int, j: int| 0 <= i < j < s.len() && s[i] == s[j]) {
        let si = s.map_values(|x: usize| x as int);
        assert(si.no_duplicates()) by {
            assert forall|i: int, j: int| 0 <= i < si.len() && 0 <= j < si.len() && i != j implies si[i] != si[j] by {
                if i < j {
                    assert(s[i] != s[j]);
                } else {
                    assert(s[j] != s[i]);
                }
            }
        }
        si.unique_seq_to_set();
        lemma_int_range(0, n);
        assert forall|x: int| si.to_set().contains(x) implies set_int_range(0, n).contains(x) by {
            let i = choose|i: int| 0 <= i < si.len() && si[i] == x;
            assert(s[i] < n);
        }
        lemma_len_subset(si.to_set(), set_int_range(0, n));
    }
}

/// One shortening step: a walk that goes more than the number of nodes
/// deeper than its start and ends no deeper than its start has a shorter
/// walk with the same ends.
proof fn lemma_shortcut(g: GraphView, cap: nat, w: Seq<SPos>, k: int) -> (w2: Seq<SPos>)
    requires
        graph_wf(g),
        pos_ok(g, w[0]),
        eps_walk(g, cap, w),
        0 <= k < w.len(),
        w[k].0.len() > w[0].0.len() + g.nodes.len(),
        w.last().0.len() <= w[0].0.len(),
    ensures
        eps_walk(g, cap, w2),
        w2.len() < w.len(),
        w2[0] == w[0],
        w2.last() == w.last(),
{
    let d0 = w[0].0.len() as int;
    let n = g.nodes.len() as int;
    let fk = w[k].0;
    lemma_walk_pos_ok(g, cap, w, k);
    let cs = Seq::new((n + 1) as nat, |j: int| fk[d0 + j]);
    assert forall|i: int| 0 <= i < cs.len() implies #[trigger] cs[i] < n by {
        assert(fk[d0 + i] < g.nodes.len());
    }
    lemma_pigeonhole(cs, n);
    let (i, j) = choose|i: int, j: int| 0 <= i < j < cs.len() && cs[i] == cs[j];
    let l1 = d0 + i;
    let l2 = d0 + j;
    assert(fk[l1] == fk[l2]);
    let c = fk[l1];
    lemma_level(g, cap, w, k, l1);
    lemma_level(g, cap, w, k, l2);
    let t1 = last_le(w, k, l1);
    let t2 = last_le(w, k, l2);
    let u1 = first_le(w, k, l1);
    let u2 = first_le(w, k, l2);
    assert(t1 < t2) by {
        if t2 < t1 {
            assert(w[t1].0.len() > l2);
        }
    }
    assert(u2 < u1) by {
        if u1 < u2 {
            assert(w[u1].0.len() > l2);
        }
    }
    let m = l2 + 1;
    let pre = fk.take(l1 + 1);
    assert forall|s: int| t2 + 1 <= s < u2 implies #[trigger] w[s].0.len() >= m by {
        if s <= k {
            assert(w[s].0.len() > l2);
        } else {
            assert(w[s].0.len() > l2);
        }
    }
    let a = w.subrange(0, t1 + 1);
    let b = lifted(w, t2 + 1, u2, m, pre);
    let cc = w.subrange(u1, w.len() as int);
    lemma_walk_sub(g, cap, w, 0, t1 + 1);
    lemma_walk_lift(g, cap, w, t2 + 1, u2, m, pre);
    lemma_walk_sub(g, cap, w, u1, w.len() as int);
    // the lifted stretch starts where the outer entry did
    assert(fk.take(l2 + 1).skip(m) =~= Seq::<usize>::empty());
    assert(b[0] == relift(w[t2 + 1], m, pre));
    assert(pre + Seq::<usize>::empty() =~= pre);
    assert(fk.take(l1).push(fk[l1]) =~= pre);
    assert(b[0] == w[t1 + 1]);
    let t = t1;
    assert(eps_step(g, cap, w[t], w[t + 1]));
    assert(a.last() == w[t1]);
    lemma_walk_concat(g, cap, a, b);
    // and it leaves where the outer exit did
    let x = w[u2 - 1].1;
    assert(b.last() == relift(w[u2 - 1], m, pre));
    assert(b.last() == (pre, x));
    let q = b.last();
    assert(pre.last() == c);
    assert(fk.take(l2 + 1).last() == c);
    assert(pops_at(g, q));
    assert(pre.drop_last() =~= fk.take(l1));
    let lm = moves(g, q);
    assert(lm[g.nodes[x as int].children.len() as int] == w[u1]);
    assert(lm.contains(w[u1]));
    let v = u1 - 1;
    assert(eps_step(g, cap, w[v], w[v + 1]));
    assert(eps_step(g, cap, q, w[u1]));
    assert((a + b).last() == q);
    assert(cc[0] == w[u1]);
    lemma_walk_concat(g, cap, a + b, cc);
    let w2 = (a + b) + cc;
    assert(w2[0] == w[0]);
    assert(w2.last() == w.last());
    w2
}

/// A token-free walk that ends no deeper than it starts can be replaced by
/// one with the same ends that never goes more than `g.nodes.len()` deeper
/// than its start.
pub proof fn lemma_walk_within_depth(g: GraphView, cap: nat, w: Seq<SPos>) -> (w2: Seq<SPos>)
    requires
        graph_wf(g),
        pos_ok(g, w[0]),
        eps_walk(g, cap, w),
        w.last().0.len() <= w[0].0.len(),
    ensures
        eps_walk(g, (w[0].0.len() + g.nodes.len()) as nat, w2),
        w2[0] == w[0],
        w2.last() == w.last(),
    decreases w.len(),
{
    let bound = (w[0].0.len() + g.nodes.len()) as nat;
    if exists|k: int| 0 <= k < w.len() && #[trigger] w[k].0.len() > bound {
        let k = choose|k: int| 0 <= k < w.len() && #[trigger] w[k].0.len() > bound;
        let w1 = lemma_shortcut(g, cap, w, k);
        lemma_walk_within_depth(g, cap, w1)
    } else {
        assert forall|i: int| 0 <= i < w.len() - 1 implies #[trigger] eps_step(g, bound, w[i], w[i + 1]) by {
            assert(eps_step(g, cap, w[i], w[i + 1]));
            assert(w[i + 1].0.len() <= bound);
        }
        w
    }
}

} // verus!
