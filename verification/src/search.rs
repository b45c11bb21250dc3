//! The token-free search from a position to a position that satisfies a
//! predicate, on any graph: it keeps the positions it has visited, never
//! visits one twice, and does not descend more rule references deep than
//! the graph has nodes below the call stack it started with.
use vstd::prelude::*;
use vstd::set_lib::lemma_len_subset;

use crate::shortcut::lemma_walk_within_depth;

use crate::graph::{
    copy_path, graph_wf, is_normal_at, is_token_at, lemma_paths_ok_view, moves, paths_ok, pos_ok, pos_seq_view,
    push_pos, GrammarNodeKind, GraphView, Pos, SPos, SyntaxGraph,
};

verus! {

/// One step of a token-free walk that stays within call depth `cap`: a
/// successor (see [`moves`]) that is no token node.
pub open spec fn eps_step(g: GraphView, cap: nat, p: SPos, q: SPos) -> bool {
    &&& moves(g, p).contains(q)
    &&& !is_token_at(g, q.1)
    &&& q.0.len() <= cap
}

/// A non-empty walk whose every step is an [`eps_step`].
pub open spec fn eps_walk(g: GraphView, cap: nat, w: Seq<SPos>) -> bool {
    &&& w.len() > 0
    &&& forall|i: int| 0 <= i < w.len() - 1 ==> #[trigger] eps_step(g, cap, w[i], w[i + 1])
}

/// The positions of a walk that are not at `Normal` nodes, in order.
pub open spec fn recorded(g: GraphView, w: Seq<SPos>) -> Seq<SPos>
    decreases w.len(),
{
    if w.len() == 0 {
        seq![]
    } else if is_normal_at(g, w.last().1) {
        recorded(g, w.drop_last())
    } else {
        recorded(g, w.drop_last()).push(w.last())
    }
}

/// `w` is a token-free walk from `start` within depth `cap` that visits no
/// position twice and ends at a position where `stop` holds.
pub open spec fn eps_found(g: GraphView, cap: nat, stop: spec_fn(SPos) -> bool, start: SPos, w: Seq<SPos>) -> bool {
    &&& eps_walk(g, cap, w)
    &&& w[0] == start
    &&& w.no_duplicates()
    &&& stop(w.last())
}

/// The call depth a search from `p` may reach: the depth of `p` plus the
/// number of nodes (as far as a `usize` counts).
pub open spec fn search_cap(g: GraphView, p: SPos) -> nat {
    if p.0.len() + g.nodes.len() <= usize::MAX {
        (p.0.len() + g.nodes.len()) as nat
    } else {
        usize::MAX as nat
    }
}

/// A valid position no deeper than `cap`.
spec fn within(g: GraphView, cap: nat, q: SPos) -> bool {
    q.0.len() <= cap && pos_ok(g, q)
}

spec fn search_space(g: GraphView, cap: nat) -> Set<SPos> {
    Set::new(|q: SPos| within(g, cap, q))
}

spec fn visited_ok(g: GraphView, cap: nat, vs: Seq<SPos>) -> bool {
    &&& vs.no_duplicates()
    &&& forall|i: int| 0 <= i < vs.len() ==> within(g, cap, #[trigger] vs[i])
}

/// Every position in `after` but not in `before` fails `stop`, and its
/// token-free successors within `cap` are in `after`.
spec fn closed_since(
    g: GraphView,
    cap: nat,
    stop: spec_fn(SPos) -> bool,
    before: Seq<SPos>,
    after: Seq<SPos>,
) -> bool {
    forall|q: SPos|
        #[trigger] after.contains(q) && !before.contains(q) ==> {
            &&& !stop(q)
            &&& forall|q2: SPos| #[trigger] eps_step(g, cap, q, q2) ==> after.contains(q2)
        }
}

/// `w` extends `w0` to a walk that [`eps_found`] accepts.
spec fn extends_to_found(g: GraphView, cap: nat, stop: spec_fn(SPos) -> bool, w0: Seq<SPos>, w: Seq<SPos>) -> bool {
    &&& w.len() >= w0.len()
    &&& w.take(w0.len() as int) == w0
    &&& eps_found(g, cap, stop, w0[0], w)
}

// ---------------------------------------------------------------------------
// The search space is finite
// ---------------------------------------------------------------------------

/// Call stacks no longer than `k` over nodes below `n`.
spec fn stacks(n: nat, k: nat) -> Set<Seq<usize>> {
    Set::new(|s: Seq<usize>| s.len() <= k && forall|i: int| 0 <= i < s.len() ==> s[i] < n)
}

/// The union of `s.map(|a| f(a, v))` over `v < x`.
spec fn tagged<A, B>(s: Set<A>, x: nat, f: spec_fn(A, usize) -> B) -> Set<B>
    decreases x,
{
    if x == 0 {
        Set::empty()
    } else {
        tagged(s, (x - 1) as nat, f).union(s.map(|a: A| f(a, (x - 1) as usize)))
    }
}

proof fn lemma_tagged_finite<A, B>(s: Set<A>, x: nat, f: spec_fn(A, usize) -> B)
    requires
        s.finite(),
    ensures
        tagged(s, x, f).finite(),
    decreases x,
{
    if x > 0 {
        lemma_tagged_finite(s, (x - 1) as nat, f);
        s.lemma_map_finite(|a: A| f(a, (x - 1) as usize));
        vstd::set::axiom_set_union_finite(tagged(s, (x - 1) as nat, f), s.map(|a: A| f(a, (x - 1) as usize)));
    }
}

proof fn lemma_tagged_contains<A, B>(s: Set<A>, x: nat, f: spec_fn(A, usize) -> B, a: A, v: usize)
    requires
        s.contains(a),
        v < x,
    ensures
        tagged(s, x, f).contains(f(a, v)),
    decreases x,
{
    if v == x - 1 {
        assert(s.map(|b: A| f(b, (x - 1) as usize)).contains(f(a, v)));
    } else {
        lemma_tagged_contains(s, (x - 1) as nat, f, a, v);
    }
}

proof fn lemma_stacks_finite(n: nat, k: nat)
    ensures
        stacks(n, k).finite(),
    decreases k,
{
    if k == 0 {
        assert forall|s: Seq<usize>| stacks(n, 0).contains(s) implies set![Seq::<usize>::empty()].contains(s) by {
            assert(s =~= Seq::<usize>::empty());
        }
        lemma_len_subset(stacks(n, 0), set![Seq::<usize>::empty()]);
    } else {
        let prev = stacks(n, (k - 1) as nat);
        let f = |s: Seq<usize>, v: usize| s.push(v);
        lemma_stacks_finite(n, (k - 1) as nat);
        lemma_tagged_finite(prev, n, f);
        let big = prev.union(tagged(prev, n, f));
        assert forall|s: Seq<usize>| stacks(n, k).contains(s) implies big.contains(s) by {
            if s.len() == k {
                let t = s.drop_last();
                assert(prev.contains(t));
                lemma_tagged_contains(prev, n, f, t, s.last());
                assert(t.push(s.last()) =~= s);
            }
        }
        lemma_len_subset(stacks(n, k), big);
    }
}

proof fn lemma_space_finite(g: GraphView, cap: nat)
    ensures
        search_space(g, cap).finite(),
{
    let n = g.nodes.len();
    let st = stacks(n, cap);
    let f = |s: Seq<usize>, v: usize| (s, v);
    lemma_stacks_finite(n, cap);
    lemma_tagged_finite(st, n, f);
    assert forall|q: SPos| search_space(g, cap).contains(q) implies tagged(st, n, f).contains(q) by {
        assert(forall|i: int| 0 <= i < q.0.len() ==> #[trigger] q.0[i] < n);
        assert(st.contains(q.0));
        lemma_tagged_contains(st, n, f, q.0, q.1);
    }
    lemma_len_subset(search_space(g, cap), tagged(st, n, f));
}

/// A duplicate-free list of positions of the search space is no longer
/// than the search space.
proof fn lemma_visited_len(g: GraphView, cap: nat, vs: Seq<SPos>)
    requires
        visited_ok(g, cap, vs),
    ensures
        vs.len() <= search_space(g, cap).len(),
{
    lemma_space_finite(g, cap);
    vs.unique_seq_to_set();
    assert forall|q: SPos| vs.to_set().contains(q) implies search_space(g, cap).contains(q) by {
        let i = choose|i: int| 0 <= i < vs.len() && vs[i] == q;
        assert(within(g, cap, vs[i]));
    }
    lemma_len_subset(vs.to_set(), search_space(g, cap));
}

/// A walk that starts in a set closed under [`eps_step`] stays in it.
proof fn lemma_walk_stays(g: GraphView, cap: nat, after: Seq<SPos>, w: Seq<SPos>)
    requires
        eps_walk(g, cap, w),
        after.contains(w[0]),
        forall|q: SPos, q2: SPos| after.contains(q) && #[trigger] eps_step(g, cap, q, q2) ==> after.contains(q2),
    ensures
        after.contains(w.last()),
    decreases w.len(),
{
    if w.len() > 1 {
        let v = w.drop_last();
        assert forall|i: int| 0 <= i < v.len() - 1 implies #[trigger] eps_step(g, cap, v[i], v[i + 1]) by {
            assert(eps_step(g, cap, w[i], w[i + 1]));
        }
        lemma_walk_stays(g, cap, after, v);
        let i = w.len() - 2;
        assert(eps_step(g, cap, w[i], w[i + 1]));
        assert(v.last() == w[i]);
    }
}

fn contains_pos(v: &Vec<Pos>, p: &Pos) -> (r: bool)
    ensures
        r == pos_seq_view(v@).contains(p@),
{
    let n = v.len();
    for i in 0..n
        invariant
            n == v@.len(),
            forall|j: int| 0 <= j < i ==> v@[j]@ != p@,
    {
        if v[i].same(p) {
            assert(pos_seq_view(v@)[i as int] == p@);
            return true;
        }
    }
    assert forall|j: int| 0 <= j < pos_seq_view(v@).len() implies pos_seq_view(v@)[j] != p@ by {
        assert(v@[j]@ != p@);
    }
    false
}

impl SyntaxGraph {
    /// Depth-first search from `p`, the last position of the walk `w0`, for
    /// a position where `stop_fn` holds. `path` holds the recorded positions
    /// of `w0` before `p`; `visited` the positions visited so far, among them
    /// all of `w0` before `p`. On success, also gives the whole walk found.
    fn eps_search_from<F: Fn(&Pos) -> bool>(
        &self,
        p: &Pos,
        stop_fn: &F,
        Ghost(stop): Ghost<spec_fn(SPos) -> bool>,
        cap: usize,
        path: &Vec<Pos>,
        visited: &mut Vec<Pos>,
        Ghost(w0): Ghost<Seq<SPos>>,
    ) -> (r: (Option<Vec<Pos>>, Ghost<Seq<SPos>>))
        requires
            graph_wf(self@),
            pos_ok(self@, p@),
            p@.0.len() <= cap,
            forall|q: Pos| pos_ok(self@, q@) ==> call_requires(*stop_fn, (&q,)),
            forall|q: Pos, b: bool| pos_ok(self@, q@) && call_ensures(*stop_fn, (&q,), b) ==> b == stop(q@),
            w0.len() > 0,
            w0.last() == p@,
            eps_walk(self@, cap as nat, w0),
            w0.drop_last().no_duplicates(),
            forall|i: int| 0 <= i < w0.len() - 1 ==> pos_seq_view(old(visited)@).contains(#[trigger] w0[i]),
            pos_seq_view(path@) == recorded(self@, w0.drop_last()),
            paths_ok(self@, path@),
            visited_ok(self@, cap as nat, pos_seq_view(old(visited)@)),
        ensures
            visited_ok(self@, cap as nat, pos_seq_view(final(visited)@)),
            final(visited)@.len() >= old(visited)@.len(),
            forall|q: SPos| pos_seq_view(old(visited)@).contains(q) ==> pos_seq_view(final(visited)@).contains(q),
            r.0 matches Some(v) ==> {
                &&& extends_to_found(self@, cap as nat, stop, w0, r.1@)
                &&& pos_seq_view(v@) == recorded(self@, r.1@)
                &&& paths_ok(self@, v@)
            },
            r.0 is None ==> pos_seq_view(final(visited)@).contains(p@),
            r.0 is None ==> closed_since(
                self@,
                cap as nat,
                stop,
                pos_seq_view(old(visited)@),
                pos_seq_view(final(visited)@),
            ),
        decreases search_space(self@, cap as nat).len() - old(visited)@.len(),
    {
        let ghost g = self@;
        let ghost capn = cap as nat;
        let ghost vs0 = pos_seq_view(visited@);
        if contains_pos(visited, p) {
            return (None, Ghost(w0));
        }
        push_pos(visited, p.duplicate());
        proof {
            assert(pos_seq_view(visited@) == vs0.push(p@));
            assert forall|i: int| 0 <= i < pos_seq_view(visited@).len() implies within(
                g,
                capn,
                #[trigger] pos_seq_view(visited@)[i],
            ) by {
                if i < vs0.len() {
                    assert(pos_seq_view(visited@)[i] == vs0[i]);
                }
            }
            assert(pos_seq_view(visited@).no_duplicates()) by {
                assert forall|i: int, j: int|
                    0 <= i < pos_seq_view(visited@).len() && 0 <= j < pos_seq_view(visited@).len() && i != j
                    implies pos_seq_view(visited@)[i] != pos_seq_view(visited@)[j] by {
                    if i < vs0.len() && j < vs0.len() {
                        assert(pos_seq_view(visited@)[i] == vs0[i]);
                        assert(pos_seq_view(visited@)[j] == vs0[j]);
                    } else if i < vs0.len() {
                        assert(pos_seq_view(visited@)[i] == vs0[i]);
                        assert(vs0.contains(vs0[i]));
                    } else if j < vs0.len() {
                        assert(pos_seq_view(visited@)[j] == vs0[j]);
                        assert(vs0.contains(vs0[j]));
                    }
                }
            }
            assert(pos_seq_view(visited@)[vs0.len() as int] == p@);
            assert forall|q: SPos| vs0.contains(q) implies pos_seq_view(visited@).contains(q) by {
                let i = choose|i: int| 0 <= i < vs0.len() && vs0[i] == q;
                assert(pos_seq_view(visited@)[i] == q);
            }
            // the walk so far visits no position twice
            let pre = w0.drop_last();
            assert(!pre.contains(p@)) by {
                if pre.contains(p@) {
                    let i = choose|i: int| 0 <= i < pre.len() && pre[i] == p@;
                    assert(vs0.contains(w0[i]));
                }
            }
            assert(w0.no_duplicates()) by {
                assert forall|i: int, j: int| 0 <= i < w0.len() && 0 <= j < w0.len() && i != j implies w0[i]
                    != w0[j] by {
                    if i < pre.len() && j < pre.len() {
                        assert(pre[i] == w0[i] && pre[j] == w0[j]);
                    } else if i < pre.len() {
                        assert(pre[i] == w0[i]);
                        assert(pre.contains(pre[i]));
                    } else if j < pre.len() {
                        assert(pre[j] == w0[j]);
                        assert(pre.contains(pre[j]));
                    }
                }
            }
            assert forall|i: int| 0 <= i < w0.len() implies pos_seq_view(visited@).contains(#[trigger] w0[i]) by {
                if i < w0.len() - 1 {
                    assert(vs0.contains(w0[i]));
                }
            }
        }
        let mut path2 = copy_path(path);
        proof {
            lemma_paths_ok_view(g, path@, path2@);
        }
        let nd = &self.nodes[p.node];
        assert(g.nodes[p.node as int] == nd@);
        match &nd.kind {
            GrammarNodeKind::Normal => {},
            _ => {
                push_pos(&mut path2, p.duplicate());
            },
        }
        assert(pos_seq_view(path2@) == recorded(g, w0));
        assert(paths_ok(g, path2@));
        if stop_fn(p) {
            assert(w0.take(w0.len() as int) =~= w0);
            return (Some(path2), Ghost(w0));
        }
        let ms = self.moves_of(p);
        let ghost cs = moves(g, p@);
        let k = ms.len();
        for i in 0..k
            invariant
                k == ms@.len(),
                pos_seq_view(ms@) == cs,
                cs == moves(g, p@),
                g == self@,
                capn == cap as nat,
                graph_wf(g),
                pos_ok(g, p@),
                forall|j: int| 0 <= j < ms@.len() ==> pos_ok(g, #[trigger] ms@[j]@),
                forall|q: Pos| pos_ok(self@, q@) ==> call_requires(*stop_fn, (&q,)),
                forall|q: Pos, b: bool| pos_ok(self@, q@) && call_ensures(*stop_fn, (&q,), b) ==> b == stop(q@),
                !stop(p@),
                !vs0.contains(p@),
                vs0 == pos_seq_view(old(visited)@),
                visited_ok(g, capn, pos_seq_view(visited@)),
                visited@.len() > vs0.len(),
                forall|q: SPos| vs0.contains(q) ==> pos_seq_view(visited@).contains(q),
                w0.len() > 0,
                w0.last() == p@,
                eps_walk(g, capn, w0),
                w0.no_duplicates(),
                forall|j: int| 0 <= j < w0.len() ==> pos_seq_view(visited@).contains(#[trigger] w0[j]),
                pos_seq_view(path2@) == recorded(g, w0),
                paths_ok(g, path2@),
                forall|q: SPos|
                    #[trigger] pos_seq_view(visited@).contains(q) && !vs0.contains(q) && q != p@ ==> {
                        &&& !stop(q)
                        &&& forall|q2: SPos| #[trigger] eps_step(g, capn, q, q2) ==> pos_seq_view(visited@).contains(q2)
                    },
                forall|j: int|
                    0 <= j < i && eps_step(g, capn, p@, #[trigger] cs[j]) ==> pos_seq_view(visited@).contains(cs[j]),
        {
            let m = &ms[i];
            assert(m@ == cs[i as int]);
            let mn = &self.nodes[m.node];
            assert(g.nodes[m.node as int] == mn@);
            let is_tok = match &mn.kind {
                GrammarNodeKind::Token(_) => true,
                _ => false,
            };
            let ghost v1 = pos_seq_view(visited@);
            if !is_tok && m.frames.len() <= cap {
                let ghost w1 = w0.push(m@);
                proof {
                    assert(w1.drop_last() =~= w0);
                    assert(cs.contains(m@));
                    assert(eps_step(g, capn, p@, m@));
                    assert forall|j: int| 0 <= j < w1.len() - 1 implies #[trigger] eps_step(g, capn, w1[j], w1[j + 1]) by {
                        if j < w0.len() - 1 {
                            assert(eps_step(g, capn, w0[j], w0[j + 1]));
                        } else {
                            assert(w1[j] == p@);
                        }
                    }
                    assert forall|j: int| 0 <= j < w1.len() - 1 implies pos_seq_view(visited@).contains(
                        #[trigger] w1[j],
                    ) by {
                        assert(w1[j] == w0[j]);
                    }
                    lemma_visited_len(g, capn, pos_seq_view(visited@));
                }
                let (r, Ghost(w)) = self.eps_search_from(m, stop_fn, Ghost(stop), cap, &path2, visited, Ghost(w1));
                if r.is_some() {
                    proof {
                        assert(w.take(w1.len() as int) == w1);
                        assert(w.take(w0.len() as int) =~= w0) by {
                            assert forall|j: int| 0 <= j < w0.len() implies w.take(w0.len() as int)[j] == w0[j] by {
                                assert(w.take(w1.len() as int)[j] == w1[j]);
                            }
                        }
                        assert(w[0] == w.take(w1.len() as int)[0]);
                    }
                    return (r, Ghost(w));
                }
                proof {
                    assert forall|q: SPos|
                        #[trigger] pos_seq_view(visited@).contains(q) && !vs0.contains(q) && q != p@ implies {
                            &&& !stop(q)
                            &&& forall|q2: SPos| #[trigger] eps_step(g, capn, q, q2) ==> pos_seq_view(visited@).contains(q2)
                        } by {
                        if v1.contains(q) {
                            assert forall|q2: SPos| #[trigger] eps_step(g, capn, q, q2) implies pos_seq_view(
                                visited@,
                            ).contains(q2) by {
                                assert(v1.contains(q2));
                            }
                        }
                    }
                    assert forall|j: int| 0 <= j < w0.len() implies pos_seq_view(visited@).contains(#[trigger] w0[j]) by {
                        assert(v1.contains(w0[j]));
                    }
                    assert forall|j: int|
                        0 <= j < i + 1 && eps_step(g, capn, p@, #[trigger] cs[j]) implies pos_seq_view(visited@).contains(
                        cs[j],
                    ) by {
                        if j < i {
                            assert(v1.contains(cs[j]));
                        }
                    }
                }
            } else {
                proof {
                    assert(!eps_step(g, capn, p@, cs[i as int]));
                }
            }
        }
        proof {
            assert forall|q2: SPos| #[trigger] eps_step(g, capn, p@, q2) implies pos_seq_view(visited@).contains(q2) by {
                let j = choose|j: int| 0 <= j < cs.len() && cs[j] == q2;
                assert(eps_step(g, capn, p@, cs[j]));
            }
        }
        (None, Ghost(w0))
    }

    /// A token-free walk from `p` to a position where `stop_fn` holds,
    /// `stop` being what `stop_fn` computes, found depth-first: one that
    /// visits no position twice and stays within call depth [`search_cap`].
    /// Only its non-`Normal` positions are given. `None` when no walk within
    /// that depth reaches a position where `stop` holds; then no token-free
    /// walk at all (of any depth) reaches such a position that is no deeper
    /// than `p` (see [`crate::shortcut`]).
    pub fn eps_search<F: Fn(&Pos) -> bool>(
        &self,
        p: &Pos,
        stop_fn: &F,
        Ghost(stop): Ghost<spec_fn(SPos) -> bool>,
    ) -> (r: Option<Vec<Pos>>)
        requires
            graph_wf(self@),
            pos_ok(self@, p@),
            forall|q: Pos| pos_ok(self@, q@) ==> call_requires(*stop_fn, (&q,)),
            forall|q: Pos, b: bool| pos_ok(self@, q@) && call_ensures(*stop_fn, (&q,), b) ==> b == stop(q@),
        ensures
            r matches Some(v) ==> {
                &&& paths_ok(self@, v@)
                &&& exists|w: Seq<SPos>|
                    #[trigger] eps_found(self@, search_cap(self@, p@), stop, p@, w) && pos_seq_view(v@) == recorded(
                        self@,
                        w,
                    )
            },
            r is None ==> forall|w: Seq<SPos>|
                #[trigger] eps_walk(self@, search_cap(self@, p@), w) && w[0] == p@ ==> !stop(w.last()),
            r is None && p@.0.len() + self@.nodes.len() <= usize::MAX ==> forall|c: nat, w: Seq<SPos>|
                #[trigger] eps_walk(self@, c, w) && w[0] == p@ && w.last().0.len() <= p@.0.len() ==> !stop(
                    w.last(),
                ),
    {
        let ghost g = self@;
        let cap: usize = if p.frames.len() <= usize::MAX - self.nodes.len() {
            p.frames.len() + self.nodes.len()
        } else {
            usize::MAX
        };
        let ghost capn = cap as nat;
        assert(capn == search_cap(g, p@));
        let mut visited: Vec<Pos> = Vec::new();
        let path: Vec<Pos> = Vec::new();
        let ghost w0 = seq![p@];
        proof {
            assert(pos_seq_view(visited@) =~= Seq::<SPos>::empty());
            assert(pos_seq_view(path@) =~= Seq::<SPos>::empty());
            assert(w0.drop_last() =~= Seq::<SPos>::empty());
            assert(recorded(g, w0.drop_last()) == Seq::<SPos>::empty());
        }
        let (r, Ghost(w)) = self.eps_search_from(p, stop_fn, Ghost(stop), cap, &path, &mut visited, Ghost(w0));
        match r {
            Some(v) => {
                assert(eps_found(g, capn, stop, p@, w));
                Some(v)
            },
            None => {
                let ghost after = pos_seq_view(visited@);
                proof {
                    assert forall|q: SPos, q2: SPos| after.contains(q) && #[trigger] eps_step(g, capn, q, q2) implies after.contains(
                        q2,
                    ) by {
                        assert(!Seq::<SPos>::empty().contains(q));
                    }
                    assert forall|w1: Seq<SPos>| #[trigger] eps_walk(g, capn, w1) && w1[0] == p@ implies !stop(w1.last()) by {
                        lemma_walk_stays(g, capn, after, w1);
                        assert(!Seq::<SPos>::empty().contains(w1.last()));
                    }
                    if p@.0.len() + g.nodes.len() <= usize::MAX {
                        assert forall|c: nat, w1: Seq<SPos>|
                            #[trigger] eps_walk(g, c, w1) && w1[0] == p@ && w1.last().0.len() <= p@.0.len() implies !stop(
                            w1.last(),
                        ) by {
                            let w2 = lemma_walk_within_depth(g, c, w1);
                            assert(eps_walk(g, capn, w2));
                        }
                    }
                }
                None
            },
        }
    }
}

} // verus!
