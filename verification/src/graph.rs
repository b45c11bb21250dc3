//! The syntax graph that a grammar compiles to, positions in it, and the two
//! searches the parser runs over it.
//!
//! Every rule body is compiled once into local nodes. A node of the (lazily
//! expanded, unbounded) graph that the parser walks is a *position*: a stack
//! of the rule-reference nodes that were entered, and a local node. Entering
//! a rule reference pushes it; leaving the exit of a rule body pops it and
//! continues at the matching `RuleEnd` node. Each occurrence of a rule
//! reference therefore has nodes of its own.
use vstd::prelude::*;
use std::rc::Rc;

use crate::grammar::{ElementView, GrammarElement};
use crate::walks::{has_bounded_walks, lemma_walk_fuel, walk_fuel};

verus! {

/// The four node roles in the syntax graph.
#[derive(Debug, Clone, PartialEq)]
pub enum GrammarNodeKind {
    Normal,
    Token(String),
    RuleStart(String),
    RuleEnd(String),
}

pub enum KindView {
    Normal,
    Token(Seq<char>),
    RuleStart(Seq<char>),
    RuleEnd(Seq<char>),
}

impl View for GrammarNodeKind {
    type V = KindView;

    open spec fn view(&self) -> KindView {
        match self {
            GrammarNodeKind::Normal => KindView::Normal,
            GrammarNodeKind::Token(s) => KindView::Token(s@),
            GrammarNodeKind::RuleStart(s) => KindView::RuleStart(s@),
            GrammarNodeKind::RuleEnd(s) => KindView::RuleEnd(s@),
        }
    }
}

impl GrammarNodeKind {
    pub fn duplicate(&self) -> (r: GrammarNodeKind)
        ensures
            r@ == self@,
    {
        match self {
            GrammarNodeKind::Normal => GrammarNodeKind::Normal,
            GrammarNodeKind::Token(s) => GrammarNodeKind::Token(s.clone()),
            GrammarNodeKind::RuleStart(s) => GrammarNodeKind::RuleStart(s.clone()),
            GrammarNodeKind::RuleEnd(s) => GrammarNodeKind::RuleEnd(s.clone()),
        }
    }
}

/// A local node of a compiled rule body. `call` is set on rule-reference
/// nodes whose rule is defined: the index of the rule's body and the
/// `RuleEnd` node of this occurrence.
pub struct SyntaxNode {
    pub kind: GrammarNodeKind,
    pub id: String,
    pub children: Vec<usize>,
    pub call: Option<(usize, usize)>,
}

pub struct NodeView {
    pub kind: KindView,
    pub id: Seq<char>,
    pub children: Seq<usize>,
    pub call: Option<(usize, usize)>,
}

impl View for SyntaxNode {
    type V = NodeView;

    open spec fn view(&self) -> NodeView {
        NodeView { kind: self.kind@, id: self.id@, children: self.children@, call: self.call }
    }
}

/// A compiled rule: the entry and exit of its body, and a reference pair
/// (`start`, `end`) through which the rule can be parsed on its own.
pub struct RuleBody {
    pub name: String,
    pub entry: usize,
    pub exit: usize,
    pub start: usize,
    pub end: usize,
}

pub struct BodyView {
    pub name: Seq<char>,
    pub entry: usize,
    pub exit: usize,
    pub start: usize,
    pub end: usize,
}

impl View for RuleBody {
    type V = BodyView;

    open spec fn view(&self) -> BodyView {
        BodyView { name: self.name@, entry: self.entry, exit: self.exit, start: self.start, end: self.end }
    }
}

/// A compiled grammar. `root` is the global start and end node.
pub struct SyntaxGraph {
    pub nodes: Vec<SyntaxNode>,
    pub bodies: Vec<RuleBody>,
    pub root: Option<(usize, usize)>,
}

pub struct GraphView {
    pub nodes: Seq<NodeView>,
    pub bodies: Seq<BodyView>,
    pub root: Option<(usize, usize)>,
}

pub open spec fn nodes_view(v: Seq<SyntaxNode>) -> Seq<NodeView> {
    Seq::new(v.len(), |i: int| v[i]@)
}

pub open spec fn bodies_view(v: Seq<RuleBody>) -> Seq<BodyView> {
    Seq::new(v.len(), |i: int| v[i]@)
}

impl View for SyntaxGraph {
    type V = GraphView;

    open spec fn view(&self) -> GraphView {
        GraphView { nodes: nodes_view(self.nodes@), bodies: bodies_view(self.bodies@), root: self.root }
    }
}

// ---------------------------------------------------------------------------
// Compilation
// ---------------------------------------------------------------------------

pub open spec fn normal_node(children: Seq<usize>) -> NodeView {
    NodeView { kind: KindView::Normal, id: Seq::empty(), children, call: None }
}

pub open spec fn add_edge(nodes: Seq<NodeView>, from: usize, to: usize) -> Seq<NodeView> {
    nodes.update(
        from as int,
        NodeView { children: nodes[from as int].children.push(to), ..nodes[from as int] },
    )
}

/// The index of the first rule called `name`.
pub open spec fn lookup_rule(names: Seq<Seq<char>>, name: Seq<char>) -> Option<usize>
    decreases names.len(),
{
    if names.len() == 0 {
        None
    } else if names.last() == name {
        match lookup_rule(names.drop_last(), name) {
            Some(i) => Some(i),
            None => Some((names.len() - 1) as usize),
        }
    } else {
        lookup_rule(names.drop_last(), name)
    }
}

/// Compile element `e` after the nodes `nodes`: the new node list, and the
/// element's entry and exit node.
pub open spec fn c_elem(names: Seq<Seq<char>>, nodes: Seq<NodeView>, e: ElementView) -> (
    Seq<NodeView>,
    usize,
    usize,
)
    decreases e, 0nat,
{
    let n = nodes.len() as usize;
    match e {
        ElementView::Token { token_type, id } => (
            nodes.push(NodeView { kind: KindView::Token(token_type), id, children: seq![], call: None }),
            n,
            n,
        ),
        ElementView::Sequence(es) => {
            if es.len() == 0 {
                (nodes.push(normal_node(seq![])), n, n)
            } else {
                let r0 = c_elem(names, nodes, es[0]);
                let r = c_seq(names, r0.0, es, 1, r0.2);
                (r.0, r0.1, r.1)
            }
        },
        ElementView::Choice(bs) => {
            let ns = nodes.push(normal_node(seq![])).push(normal_node(seq![]));
            (c_branches(names, ns, bs, 0, n, (n + 1) as usize), n, (n + 1) as usize)
        },
        ElementView::Opt(inner) => {
            let r = c_elem(names, nodes, *inner);
            let s = r.0.len() as usize;
            let en = (s + 1) as usize;
            (add_edge(r.0.push(normal_node(seq![r.1, en])).push(normal_node(seq![])), r.2, en), s, en)
        },
        ElementView::Many(inner) => {
            let r = c_elem(names, nodes, *inner);
            let s = r.0.len() as usize;
            let en = (s + 1) as usize;
            (add_edge(r.0.push(normal_node(seq![r.1, en])).push(normal_node(seq![])), r.2, s), s, en)
        },
        ElementView::Rule { name, id } => {
            let call = match lookup_rule(names, name) {
                Some(r) => Some((r, n)),
                None => None,
            };
            (
                nodes.push(
                    NodeView { kind: KindView::RuleEnd(name), id: Seq::empty(), children: seq![], call: None },
                ).push(NodeView { kind: KindView::RuleStart(name), id, children: seq![], call }),
                (n + 1) as usize,
                n,
            )
        },
    }
}

/// Compile `es[j..]` as the rest of a sequence whose last exit so far is `prev`.
pub open spec fn c_seq(
    names: Seq<Seq<char>>,
    nodes: Seq<NodeView>,
    es: Seq<ElementView>,
    j: int,
    prev: usize,
) -> (Seq<NodeView>, usize)
    decreases es, es.len() - j,
{
    if j < 0 || j >= es.len() {
        (nodes, prev)
    } else {
        let r = c_elem(names, nodes, es[j]);
        c_seq(names, add_edge(r.0, prev, r.1), es, j + 1, r.2)
    }
}

/// Compile the branches `bs[j..]` of a choice between `start` and `end`.
pub open spec fn c_branches(
    names: Seq<Seq<char>>,
    nodes: Seq<NodeView>,
    bs: Seq<ElementView>,
    j: int,
    start: usize,
    end: usize,
) -> Seq<NodeView>
    decreases bs, bs.len() - j,
{
    if j < 0 || j >= bs.len() {
        nodes
    } else {
        let r = c_elem(names, nodes, bs[j]);
        c_branches(names, add_edge(add_edge(r.0, start, r.1), r.2, end), bs, j + 1, start, end)
    }
}


pub open spec fn names_view(v: Seq<String>) -> Seq<Seq<char>> {
    Seq::new(v.len(), |i: int| v[i]@)
}

proof fn lemma_lookup_prefix(names: Seq<Seq<char>>, name: Seq<char>, k: int)
    requires
        0 <= k <= names.len(),
        lookup_rule(names.take(k), name) is Some,
    ensures
        lookup_rule(names, name) == lookup_rule(names.take(k), name),
    decreases names.len() - k,
{
    if k < names.len() {
        let m = names.take(k + 1);
        assert(m.drop_last() =~= names.take(k));
        assert(lookup_rule(m, name) == lookup_rule(names.take(k), name));
        lemma_lookup_prefix(names, name, k + 1);
    } else {
        assert(names.take(k) =~= names);
    }
}

/// The index of the first rule whose name is `name`.
pub fn find_rule_pub(names: &Vec<String>, name: &String) -> (r: Option<usize>)
    ensures
        r == lookup_rule(names_view(names@), name@),
        r matches Some(i) ==> i < names@.len(),
{
    find_rule(names, name)
}

fn find_rule(names: &Vec<String>, name: &String) -> (r: Option<usize>)
    ensures
        r == lookup_rule(names_view(names@), name@),
        r matches Some(i) ==> i < names@.len(),
{
    let ghost nv = names_view(names@);
    let n = names.len();
    for i in 0..n
        invariant
            n == names@.len(),
            nv == names_view(names@),
            lookup_rule(nv.take(i as int), name@) is None,
    {
        let ghost t = nv.take(i + 1);
        assert(t.drop_last() =~= nv.take(i as int));
        if names[i] == *name {
            assert(t.last() == name@);
            assert(lookup_rule(t, name@) == Some(i));
            proof {
                lemma_lookup_prefix(nv, name@, i + 1);
            }
            return Some(i);
        }
    }
    assert(nv.take(n as int) =~= nv);
    None
}

/// The names of the compiled rules, in order.
pub open spec fn body_names(g: GraphView) -> Seq<Seq<char>> {
    Seq::new(g.bodies.len(), |i: int| g.bodies[i].name)
}

impl SyntaxGraph {
    /// The index of the first compiled rule called `name`.
    pub fn find_body(&self, name: &str) -> (r: Option<usize>)
        ensures
            r == lookup_rule(body_names(self@), name@),
            r matches Some(i) ==> i < self@.bodies.len(),
    {
        let ghost nv = body_names(self@);
        let key = String::from_str(name);
        let n = self.bodies.len();
        for i in 0..n
            invariant
                n == self.bodies@.len(),
                nv == body_names(self@),
                key@ == name@,
                lookup_rule(nv.take(i as int), name@) is None,
        {
            let ghost t = nv.take(i + 1);
            assert(t.drop_last() =~= nv.take(i as int));
            assert(nv[i as int] == self.bodies@[i as int].name@);
            if self.bodies[i].name == key {
                assert(t.last() == name@);
                assert(lookup_rule(t, name@) == Some(i));
                proof {
                    lemma_lookup_prefix(nv, name@, i + 1);
                }
                return Some(i);
            }
        }
        assert(nv.take(n as int) =~= nv);
        None
    }
}

fn push_node(nodes: &mut Vec<SyntaxNode>, nd: SyntaxNode, Ghost(nb): Ghost<nat>) -> (i: usize)
    requires
        nodes_ok(nodes_view(old(nodes)@), nb),
        forall|k: int| 0 <= k < nd.children@.len() ==> #[trigger] nd.children@[k] <= old(nodes)@.len(),
        nd.call matches Some(c) ==> {
            &&& c.0 < nb
            &&& c.1 <= old(nodes)@.len()
            &&& nd.children@.len() == 0
            &&& !(nd.kind is Token)
            &&& c.1 < old(nodes)@.len() ==> !(old(nodes)@[c.1 as int].kind is Token)
        },
    ensures
        nodes_ok(nodes_view(final(nodes)@), nb),
        nodes_view(final(nodes)@) == nodes_view(old(nodes)@).push(nd@),
        i == old(nodes)@.len(),
        final(nodes)@.len() == old(nodes)@.len() + 1,
        final(nodes)@ == old(nodes)@.push(nd),
        nodes_shape(nodes_view(old(nodes)@)) && (forall|k: int|
            0 <= k < nd.children@.len() ==> !(old(nodes)@[#[trigger] nd.children@[k] as int].kind is RuleEnd)
                && nd.children@[k] < old(nodes)@.len()) && (nd.kind is RuleStart ==> nd.children@.len() == 0) && (
        nd.call matches Some(c) ==> nd.kind is RuleStart && c.1 < old(nodes)@.len() && old(
            nodes,
        )@[c.1 as int].kind is RuleEnd && forall|k: int|
            0 <= k < old(nodes)@.len() && (#[trigger] old(nodes)@[k].call) is Some ==> call_end(old(nodes)@[k].call)
                != c.1) ==> nodes_shape(nodes_view(final(nodes)@)),
{
    let i = nodes.len();
    nodes.push(nd);
    assert(nodes_view(nodes@) =~= nodes_view(old(nodes)@).push(nd@));
    proof {
        let nv = nodes_view(nodes@);
        let ov = nodes_view(old(nodes)@);
        let ndl = nodes@[i as int];
        if nodes_shape(ov) && (forall|k: int|
            0 <= k < ndl.children@.len() ==> !(old(nodes)@[#[trigger] ndl.children@[k] as int].kind is RuleEnd)
                && ndl.children@[k] < old(nodes)@.len()) && (ndl.kind is RuleStart ==> ndl.children@.len() == 0) && (
        ndl.call matches Some(c) ==> ndl.kind is RuleStart && c.1 < old(nodes)@.len() && old(
            nodes,
        )@[c.1 as int].kind is RuleEnd && forall|k: int|
            0 <= k < old(nodes)@.len() && (#[trigger] old(nodes)@[k].call) is Some ==> call_end(old(nodes)@[k].call)
                != c.1) {
            assert forall|n1: int, n2: int|
                0 <= n1 < nv.len() && 0 <= n2 < nv.len() && n1 != n2 && (#[trigger] nv[n1].call) is Some && (
                #[trigger] nv[n2].call) is Some implies call_end(nv[n1].call) != call_end(nv[n2].call) by {
                if n1 < ov.len() {
                    assert(nv[n1] == ov[n1]);
                    assert(ov[n1].call == old(nodes)@[n1].call);
                }
                if n2 < ov.len() {
                    assert(nv[n2] == ov[n2]);
                    assert(ov[n2].call == old(nodes)@[n2].call);
                }
            }
            assert forall|n: int, k: int| 0 <= n < nv.len() && 0 <= k < nv[n].children.len() implies !(nv[#[trigger] nv[n].children[k] as int].kind is RuleEnd) by {
                if n < ov.len() {
                    assert(nv[n] == ov[n]);
                    assert(ov[n].children[k] < ov.len());
                    assert(nv[ov[n].children[k] as int] == ov[ov[n].children[k] as int]);
                } else {
                    assert(nv[n].children[k] == ndl.children@[k]);
                    assert(nv[ndl.children@[k] as int] == ov[ndl.children@[k] as int]);
                }
            }
            assert forall|n: int| 0 <= n < nv.len() && (#[trigger] nv[n].kind) is RuleStart implies nv[n].children.len() == 0 by {
                if n < ov.len() {
                    assert(nv[n] == ov[n]);
                }
            }
            assert forall|n: int| 0 <= n < nv.len() && (#[trigger] nv[n].call) is Some implies nv[n].kind is RuleStart
                && nv[call_end(nv[n].call) as int].kind is RuleEnd by {
                if n < ov.len() {
                    assert(nv[n] == ov[n]);
                    assert(call_end(ov[n].call) < ov.len());
                    assert(nv[call_end(ov[n].call) as int] == ov[call_end(ov[n].call) as int]);
                } else {
                    assert(nv[call_end(nv[n].call) as int] == ov[call_end(nv[n].call) as int]);
                }
            }
        }
        assert forall|n: int, k: int| 0 <= n < nv.len() && 0 <= k < nv[n].children.len() implies #[trigger] nv[n].children[k] < nv.len() by {
            if n < ov.len() {
                assert(nv[n] == ov[n]);
            }
        }
        assert forall|n: int| 0 <= n < nv.len() && (#[trigger] nv[n].call) is Some implies {
            &&& call_rule(nv[n].call) < nb
            &&& call_end(nv[n].call) < nv.len()
            &&& nv[n].children.len() == 0
            &&& !(nv[n].kind is Token)
            &&& !(nv[call_end(nv[n].call) as int].kind is Token)
        } by {
            if n < ov.len() {
                assert(nv[n] == ov[n]);
                assert(nv[call_end(nv[n].call) as int] == ov[call_end(ov[n].call) as int]);
            }
        }
    }
    i
}

fn connect(nodes: &mut Vec<SyntaxNode>, from: usize, to: usize, Ghost(nb): Ghost<nat>)
    requires
        from < old(nodes)@.len(),
    ensures
        nodes_ok(nodes_view(old(nodes)@), nb) && to < old(nodes)@.len() && old(nodes)@[from as int].call is None
            ==> nodes_ok(nodes_view(final(nodes)@), nb),
        forall|k: int| 0 <= k < old(nodes)@.len() ==> #[trigger] final(nodes)@[k].call == old(nodes)@[k].call
            && final(nodes)@[k].kind == old(nodes)@[k].kind,
        nodes_view(final(nodes)@) == add_edge(nodes_view(old(nodes)@), from, to),
        final(nodes)@.len() == old(nodes)@.len(),
        nodes_shape(nodes_view(old(nodes)@)) && nodes_ok(nodes_view(old(nodes)@), nb) && to < old(nodes)@.len()
            && !(old(nodes)@[to as int].kind is RuleEnd) && !(old(nodes)@[from as int].kind is RuleStart)
            ==> nodes_shape(nodes_view(final(nodes)@)),
{
    nodes[from].children.push(to);
    assert(nodes_view(nodes@) =~= add_edge(nodes_view(old(nodes)@), from, to));
    proof {
        let nv = nodes_view(nodes@);
        let ov = nodes_view(old(nodes)@);
        assert(forall|k: int| 0 <= k < ov.len() ==> #[trigger] nv[k].kind == ov[k].kind && nv[k].call == ov[k].call);
        if nodes_shape(ov) && nodes_ok(ov, nb) && to < old(nodes)@.len() && !(old(nodes)@[to as int].kind is RuleEnd)
            && !(old(nodes)@[from as int].kind is RuleStart) {
            assert forall|n: int, i: int| 0 <= n < nv.len() && 0 <= i < nv[n].children.len() implies !(nv[#[trigger] nv[n].children[i] as int].kind is RuleEnd) by {
                if n != from || i < ov[n].children.len() {
                    assert(nv[n].children[i] == ov[n].children[i]);
                    assert(!(ov[ov[n].children[i] as int].kind is RuleEnd));
                    assert(ov[n].children[i] < ov.len());
                    assert(nv[ov[n].children[i] as int].kind == ov[ov[n].children[i] as int].kind);
                } else {
                    assert(nv[n].children[i] == to);
                    assert(nv[to as int].kind == ov[to as int].kind);
                }
            }
            assert forall|n: int| 0 <= n < nv.len() && (#[trigger] nv[n].kind) is RuleStart implies nv[n].children.len() == 0 by {
                assert(n != from);
                assert(nv[n] == ov[n]);
            }
            assert forall|n: int| 0 <= n < nv.len() && (#[trigger] nv[n].call) is Some implies nv[n].kind is RuleStart
                && nv[call_end(nv[n].call) as int].kind is RuleEnd by {
                assert(nv[n].call == ov[n].call);
                assert(call_end(ov[n].call) < ov.len());
                assert(nv[call_end(ov[n].call) as int].kind == ov[call_end(ov[n].call) as int].kind);
            }
        }
        if nodes_ok(ov, nb) && to < old(nodes)@.len() && old(nodes)@[from as int].call is None {
            assert forall|n: int, i: int| 0 <= n < nv.len() && 0 <= i < nv[n].children.len() implies #[trigger] nv[n].children[i] < nv.len() by {
                if n != from || i < ov[n].children.len() {
                    assert(nv[n].children[i] == ov[n].children[i]);
                }
            }
            assert forall|n: int| 0 <= n < nv.len() && (#[trigger] nv[n].call) is Some implies {
                &&& call_rule(nv[n].call) < nb
                &&& call_end(nv[n].call) < nv.len()
                &&& nv[n].children.len() == 0
                &&& !(nv[n].kind is Token)
                &&& !(nv[call_end(nv[n].call) as int].kind is Token)
            } by {
                assert(n != from);
                assert(ov[n].call is Some);
                assert(nv[call_end(nv[n].call) as int].kind == ov[call_end(ov[n].call) as int].kind);
            }
        }
    }
}

fn new_normal(children: Vec<usize>) -> (nd: SyntaxNode)
    ensures
        nd@ == normal_node(children@),
{
    SyntaxNode { kind: GrammarNodeKind::Normal, id: String::new(), children, call: None }
}

fn compile_seq_rest(names: &Vec<String>, nodes: &mut Vec<SyntaxNode>, elements: &Vec<GrammarElement>, first_out: usize) -> (o: usize)
    requires
        nodes_ok(nodes_view(old(nodes)@), names@.len() as nat),
        first_out < old(nodes)@.len(),
        old(nodes)@[first_out as int].call is None,
        elements@.len() > 0,
        nodes_shape(nodes_view(old(nodes)@)),
        !(old(nodes)@[first_out as int].kind is RuleStart),
    ensures
        nodes_shape(nodes_view(final(nodes)@)),
        !(final(nodes)@[o as int].kind is RuleStart),
        (nodes_view(final(nodes)@), o) == c_seq(
            names_view(names@),
            nodes_view(old(nodes)@),
            crate::grammar::views_of(elements@),
            1,
            first_out,
        ),
        nodes_ok(nodes_view(final(nodes)@), names@.len() as nat),
        o < final(nodes)@.len(),
        old(nodes)@.len() <= final(nodes)@.len(),
        final(nodes)@[o as int].call is None,
        forall|k: int| 0 <= k < old(nodes)@.len() ==> #[trigger] final(nodes)@[k].call == old(nodes)@[k].call
            && final(nodes)@[k].kind == old(nodes)@[k].kind,
    decreases elements, 0nat,
{
    let ghost nv = names_view(names@);
    let ghost nb = names@.len() as nat;
    let ghost es = crate::grammar::views_of(elements@);
    let ghost start_nodes = nodes_view(nodes@);
    let mut prev = first_out;
    let mut j: usize = 1;
    while j < elements.len()
        invariant
            1 <= j <= elements@.len(),
            es == crate::grammar::views_of(elements@),
            nv == names_view(names@),
            nb == names@.len() as nat,
            prev < nodes@.len(),
            old(nodes)@.len() <= nodes@.len(),
            nodes_ok(nodes_view(nodes@), nb),
            nodes@[prev as int].call is None,
            nodes_shape(nodes_view(nodes@)),
            !(nodes@[prev as int].kind is RuleStart),
            forall|k: int| 0 <= k < old(nodes)@.len() ==> #[trigger] nodes@[k].call == old(nodes)@[k].call
                && nodes@[k].kind == old(nodes)@[k].kind,
            c_seq(nv, nodes_view(nodes@), es, j as int, prev) == c_seq(nv, start_nodes, es, 1, first_out),
        decreases elements@.len() - j,
    {
        proof {
            vstd::std_specs::vec::axiom_vec_index_decreases(*elements, j as int);
        }
        let ghost pre = nodes@;
        let (i, o) = compile_elem(names, nodes, &elements[j]);
        assert(nodes@[prev as int].call == pre[prev as int].call);
        assert(nodes@[prev as int].kind == pre[prev as int].kind);
        connect(nodes, prev, i, Ghost(nb));
        prev = o;
        j = j + 1;
    }
    prev
}

fn compile_branches(names: &Vec<String>, nodes: &mut Vec<SyntaxNode>, branches: &Vec<GrammarElement>, start: usize, end: usize)
    requires
        nodes_ok(nodes_view(old(nodes)@), names@.len() as nat),
        start < end < old(nodes)@.len(),
        old(nodes)@[start as int].call is None,
        nodes_shape(nodes_view(old(nodes)@)),
        !(old(nodes)@[start as int].kind is RuleStart),
        !(old(nodes)@[end as int].kind is RuleEnd),
    ensures
        nodes_shape(nodes_view(final(nodes)@)),
        nodes_view(final(nodes)@) == c_branches(
            names_view(names@),
            nodes_view(old(nodes)@),
            crate::grammar::views_of(branches@),
            0,
            start,
            end,
        ),
        nodes_ok(nodes_view(final(nodes)@), names@.len() as nat),
        old(nodes)@.len() <= final(nodes)@.len(),
        forall|k: int| 0 <= k < old(nodes)@.len() ==> #[trigger] final(nodes)@[k].call == old(nodes)@[k].call
            && final(nodes)@[k].kind == old(nodes)@[k].kind,
    decreases branches, 0nat,
{
    let ghost nv = names_view(names@);
    let ghost nb = names@.len() as nat;
    let ghost bs = crate::grammar::views_of(branches@);
    let ghost ns0 = nodes_view(nodes@);
    let mut j: usize = 0;
    while j < branches.len()
        invariant
            j <= branches@.len(),
            bs == crate::grammar::views_of(branches@),
            nv == names_view(names@),
            nb == names@.len() as nat,
            start < end < nodes@.len(),
            old(nodes)@.len() <= nodes@.len(),
            nodes_ok(nodes_view(nodes@), nb),
            nodes@[start as int].call is None,
            nodes_shape(nodes_view(nodes@)),
            !(nodes@[start as int].kind is RuleStart),
            !(nodes@[end as int].kind is RuleEnd),
            forall|k: int| 0 <= k < old(nodes)@.len() ==> #[trigger] nodes@[k].call == old(nodes)@[k].call
                && nodes@[k].kind == old(nodes)@[k].kind,
            c_branches(nv, nodes_view(nodes@), bs, j as int, start, end) == c_branches(nv, ns0, bs, 0, start, end),
        decreases branches@.len() - j,
    {
        proof {
            vstd::std_specs::vec::axiom_vec_index_decreases(*branches, j as int);
        }
        let ghost pre = nodes@;
        let (i, o) = compile_elem(names, nodes, &branches[j]);
        assert(nodes@[start as int].call == pre[start as int].call);
        assert(nodes@[start as int].kind == pre[start as int].kind);
        assert(nodes@[end as int].call == pre[end as int].call);
        assert(nodes@[end as int].kind == pre[end as int].kind);
        let ghost m1 = nodes@;
        connect(nodes, start, i, Ghost(nb));
        assert(nodes@[o as int].call == m1[o as int].call);
        assert(nodes@[end as int].call == m1[end as int].call);
        assert(nodes@[i as int].call == m1[i as int].call);
        assert(nodes@[start as int].call == m1[start as int].call);
        let ghost m2 = nodes@;
        connect(nodes, o, end, Ghost(nb));
        assert(nodes@[start as int].call == m2[start as int].call);
        assert(nodes@[end as int].call == m2[end as int].call);
        j = j + 1;
    }
}

fn compile_elem(names: &Vec<String>, nodes: &mut Vec<SyntaxNode>, e: &GrammarElement) -> (r: (
    usize,
    usize,
))
    requires
        nodes_ok(nodes_view(old(nodes)@), names@.len() as nat),
        nodes_shape(nodes_view(old(nodes)@)),
    ensures
        nodes_ok(nodes_view(final(nodes)@), names@.len() as nat),
        nodes_shape(nodes_view(final(nodes)@)),
        !(final(nodes)@[r.0 as int].kind is RuleEnd),
        !(final(nodes)@[r.1 as int].kind is RuleStart),
        (nodes_view(final(nodes)@), r.0, r.1) == c_elem(names_view(names@), nodes_view(old(nodes)@), e@),
        r.0 < final(nodes)@.len(),
        r.1 < final(nodes)@.len(),
        old(nodes)@.len() <= final(nodes)@.len(),
        final(nodes)@[r.1 as int].call is None,
        forall|k: int| 0 <= k < old(nodes)@.len() ==> #[trigger] final(nodes)@[k].call == old(nodes)@[k].call
            && final(nodes)@[k].kind == old(nodes)@[k].kind,
    decreases e, 0nat,
{
    let ghost nv = names_view(names@);
    let ghost nb = names@.len() as nat;
    match e {
        GrammarElement::Token(t) => {
            let i = push_node(
                nodes,
                SyntaxNode {
                    kind: GrammarNodeKind::Token(t.token_type.clone()),
                    id: t.id.clone(),
                    children: Vec::new(),
                    call: None,
                },
                Ghost(nb),
            );
            assert(nodes@[i as int].call is None);
            assert(nodes@[i as int].kind is Token);
            assert(forall|k: int| 0 <= k < old(nodes)@.len() ==> nodes@[k] == old(nodes)@[k]);
            (i, i)
        },
        GrammarElement::Sequence(s) => {
            let ghost es = crate::grammar::views_of(s.elements@);
            assert(e@ == ElementView::Sequence(es)) by {
                if let ElementView::Sequence(a) = e@ {
                    assert(a =~= es);
                }
            }
            if s.elements.len() == 0 {
                let i = push_node(nodes, new_normal(Vec::new()), Ghost(nb));
                assert(nodes@[i as int].call is None);
                assert(nodes@[i as int].kind is Normal);
                assert(forall|k: int| 0 <= k < old(nodes)@.len() ==> nodes@[k] == old(nodes)@[k]);
                return (i, i);
            }
            proof {
                vstd::std_specs::vec::axiom_vec_index_decreases(s.elements, 0);
            }
            let (i0, o0) = compile_elem(names, nodes, &s.elements[0]);
            let ghost m0 = nodes@;
            let o = compile_seq_rest(names, nodes, &s.elements, o0);
            assert(nodes@[i0 as int].call == m0[i0 as int].call);
            (i0, o)
        },
        GrammarElement::Choice(c) => {
            let ghost bs = crate::grammar::views_of(c.branches@);
            assert(e@ == ElementView::Choice(bs)) by {
                if let ElementView::Choice(a) = e@ {
                    assert(a =~= bs);
                }
            }
            let start = push_node(nodes, new_normal(Vec::new()), Ghost(nb));
            let end = push_node(nodes, new_normal(Vec::new()), Ghost(nb));
            assert(forall|k: int| 0 <= k < old(nodes)@.len() ==> nodes@[k] == old(nodes)@[k]);
            assert(nodes@[start as int].kind is Normal && nodes@[end as int].kind is Normal);
            let ghost m0 = nodes@;
            compile_branches(names, nodes, &c.branches, start, end);
            assert(nodes@[start as int].call == m0[start as int].call);
            assert(nodes@[end as int].call == m0[end as int].call);
            (start, end)
        },
        GrammarElement::Optional(o) => {
            let (i, out) = compile_elem(names, nodes, &*o.inner);
            let ghost ns = nodes_view(nodes@);
            let ghost m0 = nodes@;
            let mut ch: Vec<usize> = Vec::new();
            ch.push(i);
            assert(ch@ =~= seq![i]);
            let s2 = push_node(nodes, new_normal(ch), Ghost(nb));
            let en = push_node(nodes, new_normal(Vec::new()), Ghost(nb));
            assert(nodes@[s2 as int].kind is Normal && nodes@[en as int].kind is Normal);
            assert(nodes@[out as int] == m0[out as int]);
            connect(nodes, s2, en, Ghost(nb));
            assert(nodes@[out as int].call == m0[out as int].call);
            assert(nodes@[en as int].call is None);
            assert(ch@ =~= seq![i]);
            assert(seq![i].push(en) =~= seq![i, en]);
            assert(nodes_view(nodes@) =~= ns.push(normal_node(seq![i, en])).push(normal_node(seq![])));
            connect(nodes, out, en, Ghost(nb));
            assert(nodes@[s2 as int].call is None);
            (s2, en)
        },
        GrammarElement::Many(m) => {
            let (i, out) = compile_elem(names, nodes, &*m.inner);
            let ghost ns = nodes_view(nodes@);
            let ghost m0 = nodes@;
            let mut ch: Vec<usize> = Vec::new();
            ch.push(i);
            assert(ch@ =~= seq![i]);
            let s2 = push_node(nodes, new_normal(ch), Ghost(nb));
            let en = push_node(nodes, new_normal(Vec::new()), Ghost(nb));
            assert(nodes@[s2 as int].kind is Normal && nodes@[en as int].kind is Normal);
            assert(nodes@[out as int] == m0[out as int]);
            connect(nodes, s2, en, Ghost(nb));
            assert(nodes@[out as int].call == m0[out as int].call);
            assert(nodes@[en as int].call is None);
            assert(ch@ =~= seq![i]);
            assert(seq![i].push(en) =~= seq![i, en]);
            assert(nodes_view(nodes@) =~= ns.push(normal_node(seq![i, en])).push(normal_node(seq![])));
            connect(nodes, out, s2, Ghost(nb));
            assert(nodes@[s2 as int].call is None);
            (s2, en)
        },
        GrammarElement::Rule(r) => {
            let found = find_rule(names, &r.rule_name);
            let end = nodes.len();
            let call = match found {
                Some(ri) => Some((ri, end)),
                None => None,
            };
            let e2 = push_node(
                nodes,
                SyntaxNode {
                    kind: GrammarNodeKind::RuleEnd(r.rule_name.clone()),
                    id: String::new(),
                    children: Vec::new(),
                    call: None,
                },
                Ghost(nb),
            );
            let st = push_node(
                nodes,
                SyntaxNode {
                    kind: GrammarNodeKind::RuleStart(r.rule_name.clone()),
                    id: r.id.clone(),
                    children: Vec::new(),
                    call,
                },
                Ghost(nb),
            );
            assert(nodes@[st as int].kind is RuleStart);
            assert(nodes@[e2 as int].kind is RuleEnd);
            (st, e2)
        },
    }
}


// ---------------------------------------------------------------------------
// Positions and moves
// ---------------------------------------------------------------------------

/// A position: the stack of entered rule-reference nodes and a local node.
pub type SPos = (Seq<usize>, usize);

/// All indices in the graph are in range, and every rule-reference node
/// that has a call points at a body and at a `RuleEnd` node.
pub open spec fn graph_wf(g: GraphView) -> bool {
    &&& forall|n: int, i: int|
        0 <= n < g.nodes.len() && 0 <= i < g.nodes[n].children.len() ==> #[trigger] g.nodes[n].children[i] < g.nodes.len()
    &&& forall|n: int|
        0 <= n < g.nodes.len() && (#[trigger] g.nodes[n].call) is Some ==> {
            &&& call_rule(g.nodes[n].call) < g.bodies.len()
            &&& call_end(g.nodes[n].call) < g.nodes.len()
            &&& g.nodes[n].children.len() == 0
            &&& !(g.nodes[n].kind is Token)
            &&& !(g.nodes[call_end(g.nodes[n].call) as int].kind is Token)
        }
    &&& forall|r: int|
        0 <= r < g.bodies.len() ==> {
            &&& #[trigger] g.bodies[r].entry < g.nodes.len()
            &&& g.bodies[r].exit < g.nodes.len()
            &&& g.bodies[r].start < g.nodes.len()
            &&& g.bodies[r].end < g.nodes.len()
        }
    &&& g.root matches Some(rt) ==> rt.0 < g.nodes.len() && rt.1 < g.nodes.len()
}

/// The index facts of [`graph_wf`] for a node list alone, with `nb` bodies.
pub open spec fn nodes_ok(nodes: Seq<NodeView>, nb: nat) -> bool {
    &&& forall|n: int, i: int|
        0 <= n < nodes.len() && 0 <= i < nodes[n].children.len() ==> #[trigger] nodes[n].children[i] < nodes.len()
    &&& forall|n: int|
        0 <= n < nodes.len() && (#[trigger] nodes[n].call) is Some ==> {
            &&& call_rule(nodes[n].call) < nb
            &&& call_end(nodes[n].call) < nodes.len()
            &&& nodes[n].children.len() == 0
            &&& !(nodes[n].kind is Token)
            &&& !(nodes[call_end(nodes[n].call) as int].kind is Token)
        }
}

/// Local edges never lead into a `RuleEnd` node, a `RuleStart` node has no
/// local edges, a node with a call is a `RuleStart` node whose call
/// returns to a `RuleEnd` node, and no two calls return to the same node.
pub open spec fn nodes_shape(nodes: Seq<NodeView>) -> bool {
    &&& forall|n: int, i: int|
        0 <= n < nodes.len() && 0 <= i < nodes[n].children.len() ==> !(nodes[#[trigger] nodes[n].children[i] as int].kind is RuleEnd)
    &&& forall|n: int| 0 <= n < nodes.len() && (#[trigger] nodes[n].kind) is RuleStart ==> nodes[n].children.len() == 0
    &&& forall|n: int|
        0 <= n < nodes.len() && (#[trigger] nodes[n].call) is Some ==> nodes[n].kind is RuleStart
            && nodes[call_end(nodes[n].call) as int].kind is RuleEnd
    &&& forall|n1: int, n2: int|
        0 <= n1 < nodes.len() && 0 <= n2 < nodes.len() && n1 != n2 && (#[trigger] nodes[n1].call) is Some && (
        #[trigger] nodes[n2].call) is Some ==> call_end(nodes[n1].call) != call_end(nodes[n2].call)
}

/// The shape of a compiled graph: [`nodes_shape`]; a rule body is entered
/// at no `RuleEnd` node and left at no `RuleStart` node, and its reference
/// pair is a call of that body; the root start node is a `Normal` node with
/// a single edge, to a call, and the root end node is another `Normal` node.
/// The bodies are indexed by `usize`.
pub open spec fn shape_ok(g: GraphView) -> bool {
    &&& nodes_shape(g.nodes)
    &&& g.bodies.len() <= usize::MAX
    &&& forall|r: int|
        0 <= r < g.bodies.len() ==> {
            &&& !(g.nodes[(#[trigger] g.bodies[r]).entry as int].kind is RuleEnd)
            &&& !(g.nodes[g.bodies[r].exit as int].kind is RuleStart)
            &&& g.nodes[g.bodies[r].start as int].call == Some((r as usize, g.bodies[r].end))
        }
    &&& g.root matches Some(rt) ==> {
        &&& g.nodes[rt.0 as int].kind is Normal
        &&& g.nodes[rt.0 as int].children.len() == 1
        &&& g.nodes[g.nodes[rt.0 as int].children[0] as int].call is Some
        &&& g.nodes[rt.1 as int].kind is Normal
        &&& rt.0 != rt.1
    }
}

/// The position refers to a node of `g` and every frame is a rule-reference node with a call.
pub open spec fn pos_ok(g: GraphView, p: SPos) -> bool {
    &&& p.1 < g.nodes.len()
    &&& forall|i: int| 0 <= i < p.0.len() ==> #[trigger] p.0[i] < g.nodes.len() && g.nodes[p.0[i] as int].call is Some
}

pub open spec fn call_rule(c: Option<(usize, usize)>) -> usize {
    match c {
        Some(x) => x.0,
        None => 0,
    }
}

pub open spec fn call_end(c: Option<(usize, usize)>) -> usize {
    match c {
        Some(x) => x.1,
        None => 0,
    }
}

pub open spec fn callee_of(g: GraphView, c: usize) -> usize {
    call_rule(g.nodes[c as int].call)
}

pub open spec fn end_of(g: GraphView, c: usize) -> usize {
    call_end(g.nodes[c as int].call)
}

pub open spec fn is_token_at(g: GraphView, n: usize) -> bool {
    g.nodes[n as int].kind is Token
}

pub open spec fn is_normal_at(g: GraphView, n: usize) -> bool {
    g.nodes[n as int].kind is Normal
}

pub open spec fn token_type_at(g: GraphView, n: usize) -> Seq<char> {
    g.nodes[n as int].kind->Token_0
}

/// The position is at the exit of the body of the innermost entered rule.
pub open spec fn pops_at(g: GraphView, p: SPos) -> bool {
    p.0.len() > 0 && p.1 == g.bodies[callee_of(g, p.0.last()) as int].exit
}

/// The successors of a position, in the order the searches visit them:
/// a rule reference enters the body of its rule; any other node goes to its
/// local children and, at the exit of the innermost entered body, back to
/// the `RuleEnd` node of that reference.
pub open spec fn moves(g: GraphView, p: SPos) -> Seq<SPos> {
    let nd = g.nodes[p.1 as int];
    match nd.call {
        Some(c) => seq![(p.0.push(p.1), g.bodies[c.0 as int].entry)],
        None => {
            let local = Seq::new(nd.children.len(), |i: int| (p.0, nd.children[i]));
            if pops_at(g, p) {
                local.push((p.0.drop_last(), end_of(g, p.0.last())))
            } else {
                local
            }
        },
    }
}

/// Every walk from `p` that passes only through non-token positions is
/// shorter than `fuel` steps.
pub open spec fn bounded(g: GraphView, p: SPos, fuel: nat) -> bool
    decreases fuel,
{
    &&& fuel > 0
    &&& forall|i: int|
        0 <= i < moves(g, p).len() ==> is_token_at(g, #[trigger] moves(g, p)[i].1) || bounded(
            g,
            moves(g, p)[i],
            (fuel - 1) as nat,
        )
}

/// The tokens that can be consumed next from `p`, each with the walk to it
/// (only non-`Normal` positions are recorded), in depth-first order.
pub open spec fn follow_from(
    g: GraphView,
    p: SPos,
    path: Seq<SPos>,
    include_self: bool,
    fuel: nat,
) -> Seq<(Seq<char>, Seq<SPos>)>
    decreases fuel, 0nat,
{
    let path2 = if is_normal_at(g, p.1) {
        path
    } else {
        path.push(p)
    };
    if is_token_at(g, p.1) && include_self {
        seq![(token_type_at(g, p.1), path2)]
    } else if fuel == 0 {
        seq![]
    } else {
        follow_all(g, moves(g, p), path2, (fuel - 1) as nat)
    }
}

pub open spec fn follow_all(g: GraphView, cs: Seq<SPos>, path: Seq<SPos>, fuel: nat) -> Seq<
    (Seq<char>, Seq<SPos>),
>
    decreases fuel, cs.len(),
{
    if cs.len() == 0 {
        seq![]
    } else {
        follow_from(g, cs[0], path, true, fuel) + follow_all(g, cs.drop_first(), path, fuel)
    }
}

/// The first walk in depth-first order from `p` to a position where `stop`
/// holds that consumes no token (token successors are skipped); only
/// non-`Normal` positions are recorded.
pub open spec fn eps_from(
    g: GraphView,
    p: SPos,
    stop: spec_fn(SPos) -> bool,
    path: Seq<SPos>,
    fuel: nat,
) -> Option<Seq<SPos>>
    decreases fuel, 0nat,
{
    let path2 = if is_normal_at(g, p.1) {
        path
    } else {
        path.push(p)
    };
    if stop(p) {
        Some(path2)
    } else if fuel == 0 {
        None
    } else {
        eps_any(g, moves(g, p), stop, path2, (fuel - 1) as nat)
    }
}

pub open spec fn eps_any(
    g: GraphView,
    cs: Seq<SPos>,
    stop: spec_fn(SPos) -> bool,
    path: Seq<SPos>,
    fuel: nat,
) -> Option<Seq<SPos>>
    decreases fuel, cs.len(),
{
    if cs.len() == 0 {
        None
    } else if is_token_at(g, cs[0].1) {
        eps_any(g, cs.drop_first(), stop, path, fuel)
    } else {
        match eps_from(g, cs[0], stop, path, fuel) {
            Some(r) => Some(r),
            None => eps_any(g, cs.drop_first(), stop, path, fuel),
        }
    }
}

/// Stop at exactly `target`.
pub open spec fn at_pos(target: SPos) -> spec_fn(SPos) -> bool {
    |q: SPos| q == target
}

/// A position in the syntax graph as an executable value.
pub struct Pos {
    pub frames: Vec<usize>,
    pub node: usize,
}

impl View for Pos {
    type V = SPos;

    open spec fn view(&self) -> SPos {
        (self.frames@, self.node)
    }
}

pub open spec fn pos_seq_view(v: Seq<Pos>) -> Seq<SPos> {
    Seq::new(v.len(), |i: int| v[i]@)
}

pub open spec fn follow_view(v: Seq<(String, Vec<Pos>)>) -> Seq<(Seq<char>, Seq<SPos>)> {
    Seq::new(v.len(), |i: int| (v[i].0@, pos_seq_view(v[i].1@)))
}

impl Pos {
    pub fn duplicate(&self) -> (r: Pos)
        ensures
            r@ == self@,
    {
        let frames = self.frames.clone();
        assert(frames@ =~= self.frames@);
        Pos { frames, node: self.node }
    }

    pub fn same(&self, other: &Pos) -> (r: bool)
        ensures
            r == (self@ == other@),
    {
        if self.node != other.node || self.frames.len() != other.frames.len() {
            return false;
        }
        let n = self.frames.len();
        for i in 0..n
            invariant
                n == self.frames@.len(),
                n == other.frames@.len(),
                forall|j: int| 0 <= j < i ==> self.frames@[j] == other.frames@[j],
        {
            if self.frames[i] != other.frames[i] {
                return false;
            }
        }
        assert(self.frames@ =~= other.frames@);
        true
    }
}

pub open spec fn paths_ok(g: GraphView, v: Seq<Pos>) -> bool {
    forall|j: int| 0 <= j < v.len() ==> pos_ok(g, #[trigger] v[j]@)
}

pub open spec fn results_ok(g: GraphView, v: Seq<(String, Vec<Pos>)>) -> bool {
    forall|i: int| 0 <= i < v.len() ==> paths_ok(g, #[trigger] v[i].1@)
}

pub proof fn lemma_paths_ok_view(g: GraphView, a: Seq<Pos>, b: Seq<Pos>)
    requires
        pos_seq_view(a) == pos_seq_view(b),
        paths_ok(g, a),
    ensures
        paths_ok(g, b),
{
    assert(pos_seq_view(a).len() == a.len());
    assert(pos_seq_view(b).len() == b.len());
    assert forall|j: int| 0 <= j < b.len() implies pos_ok(g, #[trigger] b[j]@) by {
        assert(pos_seq_view(a)[j] == pos_seq_view(b)[j]);
        assert(pos_ok(g, a[j]@));
    }
}

pub fn copy_path(v: &Vec<Pos>) -> (r: Vec<Pos>)
    ensures
        pos_seq_view(r@) == pos_seq_view(v@),
        r@.len() == v@.len(),
{
    let mut r: Vec<Pos> = Vec::new();
    let n = v.len();
    for i in 0..n
        invariant
            n == v@.len(),
            pos_seq_view(r@) =~= pos_seq_view(v@).take(i as int),
    {
        let q = v[i].duplicate();
        let ghost before = r@;
        r.push(q);
        assert(pos_seq_view(r@) =~= pos_seq_view(before).push(q@));
        assert(pos_seq_view(v@).take(i + 1) =~= pos_seq_view(v@).take(i as int).push(v@[i as int]@));
    }
    assert(pos_seq_view(v@).take(n as int) =~= pos_seq_view(v@));
    r
}

pub fn push_pos(v: &mut Vec<Pos>, p: Pos)
    ensures
        pos_seq_view(final(v)@) == pos_seq_view(old(v)@).push(p@),
        final(v)@ == old(v)@.push(p),
{
    v.push(p);
    assert(pos_seq_view(v@) =~= pos_seq_view(old(v)@).push(p@));
}

impl SyntaxGraph {
    /// The successors of `p` (see [`moves`]).
    pub fn moves_of(&self, p: &Pos) -> (r: Vec<Pos>)
        requires
            graph_wf(self@),
            pos_ok(self@, p@),
        ensures
            pos_seq_view(r@) == moves(self@, p@),
            forall|i: int| 0 <= i < r@.len() ==> pos_ok(self@, #[trigger] r@[i]@),
    {
        let ghost g = self@;
        let nd = &self.nodes[p.node];
        assert(g.nodes[p.node as int] == nd@);
        let mut r: Vec<Pos> = Vec::new();
        match nd.call {
            Some((ri, _e)) => {
                assert(g.nodes[p.node as int].call == nd.call);
                let mut frames = p.frames.clone();
                assert(frames@ =~= p.frames@);
                frames.push(p.node);
                let q = Pos { frames, node: self.bodies[ri].entry };
                assert(g.bodies[ri as int] == self.bodies@[ri as int]@);
                push_pos(&mut r, q);
                assert(pos_seq_view(r@) =~= moves(g, p@));
                assert(pos_ok(g, q@));
            },
            None => {
                let k = nd.children.len();
                for i in 0..k
                    invariant
                        k == nd.children@.len(),
                        nd@ == g.nodes[p.node as int],
                        g == self@,
                        graph_wf(g),
                        pos_ok(g, p@),
                        nd.call is None,
                        pos_seq_view(r@) =~= Seq::new(i as nat, |j: int| (p.frames@, nd.children@[j])),
                        forall|j: int| 0 <= j < r@.len() ==> pos_ok(g, #[trigger] r@[j]@),
                {
                    let q = Pos { frames: p.frames.clone(), node: nd.children[i] };
                    assert(q.frames@ =~= p.frames@);
                    assert(g.nodes[p.node as int].children[i as int] < g.nodes.len());
                    push_pos(&mut r, q);
                }
                let nf = p.frames.len();
                if nf > 0 {
                    let top = p.frames[nf - 1];
                    assert(pos_ok(g, p@) ==> p.frames@[nf - 1] < g.nodes.len());
                    let tn = &self.nodes[top];
                    assert(g.nodes[top as int] == tn@);
                    match tn.call {
                        Some((ri, e)) => {
                            assert(g.nodes[top as int].call == tn.call);
                            assert(g.bodies[ri as int] == self.bodies@[ri as int]@);
                            if p.node == self.bodies[ri].exit {
                                let mut frames = p.frames.clone();
                                assert(frames@ =~= p.frames@);
                                frames.pop();
                                let q = Pos { frames, node: e };
                                assert(q.frames@ =~= p.frames@.drop_last());
                                push_pos(&mut r, q);
                            }
                        },
                        None => {},
                    }
                }
                assert(pos_seq_view(r@) =~= moves(g, p@));
            },
        }
        r
    }

    /// Depth-first search for the tokens reachable from `p` (see [`follow_from`]).
    fn follow_rec(
        &self,
        p: &Pos,
        path: &Vec<Pos>,
        include_self: bool,
        results: &mut Vec<(String, Vec<Pos>)>,
        Ghost(fuel): Ghost<nat>,
    )
        requires
            graph_wf(self@),
            pos_ok(self@, p@),
            bounded(self@, p@, fuel) || (is_token_at(self@, p@.1) && include_self),
            paths_ok(self@, path@),
            results_ok(self@, old(results)@),
        ensures
            results_ok(self@, final(results)@),
            follow_view(final(results)@) == follow_view(old(results)@) + follow_from(
                self@,
                p@,
                pos_seq_view(path@),
                include_self,
                fuel,
            ),
        decreases fuel, 0nat,
    {
        let ghost g = self@;
        let mut path2 = copy_path(path);
        proof {
            lemma_paths_ok_view(g, path@, path2@);
        }
        let nd = &self.nodes[p.node];
        assert(g.nodes[p.node as int] == nd@);
        match &nd.kind {
            GrammarNodeKind::Normal => {},
            _ => {
                push_pos(&mut path2, p.duplicate());
            },
        }
        assert(paths_ok(g, path2@));
        match &nd.kind {
            GrammarNodeKind::Token(tt) => {
                if include_self {
                    let ghost old_v = follow_view(results@);
                    let ghost old_r = results@;
                    results.push((tt.clone(), path2));
                    assert(forall|i: int| 0 <= i < old_r.len() ==> results@[i] == old_r[i]);
                    assert(follow_view(results@) =~= old_v + follow_from(g, p@, pos_seq_view(path@), include_self, fuel));
                    return;
                }
            },
            _ => {},
        }
        let ms = self.moves_of(p);
        let ghost cs = moves(g, p@);
        let k = ms.len();
        let ghost base = follow_view(results@);
        let ghost pv = pos_seq_view(path2@);
        assert(cs.skip(0) =~= cs);
        for i in 0..k
            invariant
                k == ms@.len(),
                pos_seq_view(ms@) == cs,
                cs == moves(g, p@),
                g == self@,
                pv == pos_seq_view(path2@),
                graph_wf(g),
                forall|j: int| 0 <= j < ms@.len() ==> pos_ok(g, #[trigger] ms@[j]@),
                bounded(g, p@, fuel),
                paths_ok(g, path2@),
                results_ok(g, results@),
                base + follow_all(g, cs, pv, (fuel - 1) as nat) == follow_view(results@) + follow_all(
                    g,
                    cs.skip(i as int),
                    pv,
                    (fuel - 1) as nat,
                ),
            decreases k - i,
        {
            assert(ms@[i as int]@ == cs[i as int]);
            assert(cs.skip(i as int).drop_first() =~= cs.skip(i + 1));
            assert(cs.skip(i as int)[0] == cs[i as int]);
            let ghost before = follow_view(results@);
            self.follow_rec(&ms[i], &path2, true, results, Ghost((fuel - 1) as nat));
            assert(follow_view(results@) + follow_all(g, cs.skip(i + 1), pv, (fuel - 1) as nat) =~= before
                + follow_all(g, cs.skip(i as int), pv, (fuel - 1) as nat));
        }
        assert(cs.skip(k as int) =~= Seq::<SPos>::empty());
        assert(follow_view(results@) =~= base + follow_from(g, p@, pos_seq_view(path@), include_self, fuel));
    }

    /// Depth-first search for a walk from `p` to a position where `stop_fn`
    /// holds that consumes no token (see [`eps_from`]), within `fuel` steps.
    /// The parser runs it on graphs whose token-free walks are bounded, where
    /// it gives exactly [`eps_from`]; [`SyntaxGraph::eps_search`] is the
    /// search for any graph.
    fn eps_rec<F: Fn(&Pos) -> bool>(
        &self,
        p: &Pos,
        stop_fn: &F,
        Ghost(stop): Ghost<spec_fn(SPos) -> bool>,
        path: &Vec<Pos>,
        Ghost(fuel): Ghost<nat>,
    ) -> (r: Option<Vec<Pos>>)
        requires
            graph_wf(self@),
            pos_ok(self@, p@),
            bounded(self@, p@, fuel),
            paths_ok(self@, path@),
            forall|q: Pos| pos_ok(self@, q@) ==> call_requires(*stop_fn, (&q,)),
            forall|q: Pos, b: bool| pos_ok(self@, q@) && call_ensures(*stop_fn, (&q,), b) ==> b == stop(q@),
        ensures
            r matches Some(v) ==> paths_ok(self@, v@),
            opt_path_view(r) == eps_from(self@, p@, stop, pos_seq_view(path@), fuel),
        decreases fuel, 0nat,
    {
        let ghost g = self@;
        let mut path2 = copy_path(path);
        proof {
            lemma_paths_ok_view(g, path@, path2@);
        }
        let nd = &self.nodes[p.node];
        assert(g.nodes[p.node as int] == nd@);
        match &nd.kind {
            GrammarNodeKind::Normal => {},
            _ => {
                push_pos(&mut path2, p.duplicate());
            },
        }
        assert(paths_ok(g, path2@));
        if stop_fn(p) {
            return Some(path2);
        }
        let ms = self.moves_of(p);
        let ghost cs = moves(g, p@);
        let ghost pv = pos_seq_view(path2@);
        let k = ms.len();
        assert(cs.skip(0) =~= cs);
        assert(eps_from(g, p@, stop, pos_seq_view(path@), fuel) == eps_any(g, cs, stop, pv, (fuel - 1) as nat));
        for i in 0..k
            invariant
                k == ms@.len(),
                pos_seq_view(ms@) == cs,
                cs == moves(g, p@),
                g == self@,
                pv == pos_seq_view(path2@),
                graph_wf(g),
                forall|j: int| 0 <= j < ms@.len() ==> pos_ok(g, #[trigger] ms@[j]@),
                bounded(g, p@, fuel),
                paths_ok(g, path2@),
                forall|q: Pos| pos_ok(self@, q@) ==> call_requires(*stop_fn, (&q,)),
                forall|q: Pos, b: bool| pos_ok(self@, q@) && call_ensures(*stop_fn, (&q,), b) ==> b == stop(q@),
                eps_from(g, p@, stop, pos_seq_view(path@), fuel) == eps_any(g, cs, stop, pv, (fuel - 1) as nat),
                eps_any(g, cs, stop, pv, (fuel - 1) as nat) == eps_any(
                    g,
                    cs.skip(i as int),
                    stop,
                    pv,
                    (fuel - 1) as nat,
                ),
            decreases k - i,
        {
            assert(ms@[i as int]@ == cs[i as int]);
            assert(cs.skip(i as int).drop_first() =~= cs.skip(i + 1));
            assert(cs.skip(i as int)[0] == cs[i as int]);
            let m = &ms[i];
            let mn = &self.nodes[m.node];
            assert(g.nodes[m.node as int] == mn@);
            let is_tok = match &mn.kind {
                GrammarNodeKind::Token(_) => true,
                _ => false,
            };
            if !is_tok {
                let r = self.eps_rec(m, stop_fn, Ghost(stop), &path2, Ghost((fuel - 1) as nat));
                if r.is_some() {
                    assert(eps_any(g, cs.skip(i as int), stop, pv, (fuel - 1) as nat) == opt_path_view(r));
                    return r;
                }
            }
        }
        assert(cs.skip(k as int) =~= Seq::<SPos>::empty());
        None
    }
}

pub open spec fn opt_path_view(o: Option<Vec<Pos>>) -> Option<Seq<SPos>> {
    match o {
        Some(v) => Some(pos_seq_view(v@)),
        None => None,
    }
}

/// Compile the rule bodies `bodies[j..]`, each followed by its own
/// reference pair (a `RuleEnd` and a `RuleStart` node).
pub open spec fn c_rules(
    names: Seq<Seq<char>>,
    bodies: Seq<ElementView>,
    nodes: Seq<NodeView>,
    bv: Seq<BodyView>,
    j: int,
) -> (Seq<NodeView>, Seq<BodyView>)
    decreases bodies.len() - j,
{
    if j < 0 || j >= bodies.len() {
        (nodes, bv)
    } else {
        let r = c_elem(names, nodes, bodies[j]);
        let end = r.0.len() as usize;
        let ns = r.0.push(
            NodeView { kind: KindView::RuleEnd(names[j]), id: Seq::empty(), children: seq![], call: None },
        ).push(
            NodeView {
                kind: KindView::RuleStart(names[j]),
                id: Seq::empty(),
                children: seq![],
                call: Some((j as usize, end)),
            },
        );
        c_rules(
            names,
            bodies,
            ns,
            bv.push(BodyView { name: names[j], entry: r.1, exit: r.2, start: (end + 1) as usize, end }),
            j + 1,
        )
    }
}

/// The graph of a grammar with rules `names[i] -> bodies[i]` and start rule
/// `start`: the compiled bodies followed by the global start and end nodes
/// around a reference to the start rule.
pub open spec fn spec_compile(names: Seq<Seq<char>>, bodies: Seq<ElementView>, start: Option<usize>) -> GraphView {
    let r = c_rules(names, bodies, seq![], seq![], 0);
    match start {
        None => GraphView { nodes: r.0, bodies: r.1, root: None },
        Some(si) => {
            let gs = r.0.len() as usize;
            GraphView {
                nodes: r.0.push(normal_node(seq![(gs + 1) as usize])).push(
                    NodeView {
                        kind: KindView::RuleStart(names[si as int]),
                        id: Seq::empty(),
                        children: seq![],
                        call: Some((si, (gs + 2) as usize)),
                    },
                ).push(
                    NodeView {
                        kind: KindView::RuleEnd(names[si as int]),
                        id: Seq::empty(),
                        children: seq![(gs + 3) as usize],
                        call: None,
                    },
                ).push(normal_node(seq![])),
                bodies: r.1,
                root: Some((gs, (gs + 3) as usize)),
            }
        },
    }
}

/// Compile a single element on its own (no rules): its graph and its entry and exit.
pub open spec fn spec_compile_element(e: ElementView) -> (GraphView, usize, usize) {
    let r = c_elem(seq![], seq![], e);
    (GraphView { nodes: r.0, bodies: seq![], root: None }, r.1, r.2)
}

/// Compile a grammar (see [`spec_compile`]).
#[verifier::spinoff_prover]
/// Compile the rule bodies, each followed by its own reference pair (see [`c_rules`]).
fn compile_rules(names: &Vec<String>, bodies: &Vec<GrammarElement>) -> (r: (Vec<SyntaxNode>, Vec<RuleBody>))
    requires
        names@.len() == bodies@.len(),
    ensures
        (nodes_view(r.0@), bodies_view(r.1@)) == c_rules(
            names_view(names@),
            crate::grammar::views_of(bodies@),
            seq![],
            seq![],
            0,
        ),
        r.1@.len() == names@.len(),
        r.1@.len() <= usize::MAX,
        nodes_ok(nodes_view(r.0@), names@.len() as nat),
        nodes_shape(nodes_view(r.0@)),
        forall|k: int| 0 <= k < r.1@.len() ==> {
            &&& #[trigger] r.1@[k].entry < r.0@.len()
            &&& r.1@[k].exit < r.0@.len()
            &&& r.1@[k].start < r.0@.len()
            &&& r.1@[k].end < r.0@.len()
            &&& !(r.0@[r.1@[k].entry as int].kind is RuleEnd)
            &&& !(r.0@[r.1@[k].exit as int].kind is RuleStart)
            &&& r.0@[r.1@[k].start as int].call == Some((k as usize, r.1@[k].end))
        },
{
    let ghost nv = names_view(names@);
    let ghost ev = crate::grammar::views_of(bodies@);
    let ghost nb = names@.len() as nat;
    let mut nodes: Vec<SyntaxNode> = Vec::new();
    let mut bs: Vec<RuleBody> = Vec::new();
    assert(nodes_view(nodes@) =~= Seq::<NodeView>::empty());
    assert(bodies_view(bs@) =~= Seq::<BodyView>::empty());
    let n = bodies.len();
    let mut j: usize = 0;
    while j < n
        invariant
            j <= n,
            n == bodies@.len(),
            n == names@.len(),
            nv == names_view(names@),
            ev == crate::grammar::views_of(bodies@),
            nb == n as nat,
            bs@.len() == j,
            nodes_ok(nodes_view(nodes@), nb),
            nodes_shape(nodes_view(nodes@)),
            forall|r: int| 0 <= r < j ==> {
                &&& #[trigger] bs@[r].entry < nodes@.len()
                &&& bs@[r].exit < nodes@.len()
                &&& bs@[r].start < nodes@.len()
                &&& bs@[r].end < nodes@.len()
                &&& !(nodes@[bs@[r].entry as int].kind is RuleEnd)
                &&& !(nodes@[bs@[r].exit as int].kind is RuleStart)
                &&& nodes@[bs@[r].start as int].call == Some((r as usize, bs@[r].end))
            },
            c_rules(nv, ev, nodes_view(nodes@), bodies_view(bs@), j as int) == c_rules(nv, ev, seq![], seq![], 0),
        decreases n - j,
    {
        let ghost before = nodes@;
        let (entry, exit) = compile_elem(names, &mut nodes, &bodies[j]);
        let ghost l1 = nodes@.len();
        assert(entry < l1 && exit < l1);
        let ghost after = nodes@;
        let end = push_node(
            &mut nodes,
            SyntaxNode {
                kind: GrammarNodeKind::RuleEnd(names[j].clone()),
                id: String::new(),
                children: Vec::new(),
                call: None,
            },
            Ghost(nb),
        );
        let st = push_node(
            &mut nodes,
            SyntaxNode {
                kind: GrammarNodeKind::RuleStart(names[j].clone()),
                id: String::new(),
                children: Vec::new(),
                call: Some((j, end)),
            },
            Ghost(nb),
        );
        assert(nodes@.len() == l1 + 2 && end == l1 && st == l1 + 1);
        let ghost old_bs = bodies_view(bs@);
        let ghost old_raw = bs@;
        let b = RuleBody { name: names[j].clone(), entry, exit, start: st, end };
        bs.push(b);
        assert(forall|r: int| 0 <= r < j ==> bs@[r] == old_raw[r]);
        assert(bs@[j as int] == b);
        assert forall|r: int| 0 <= r < j + 1 implies {
            &&& #[trigger] bs@[r].entry < nodes@.len()
            &&& bs@[r].exit < nodes@.len()
            &&& bs@[r].start < nodes@.len()
            &&& bs@[r].end < nodes@.len()
            &&& !(nodes@[bs@[r].entry as int].kind is RuleEnd)
            &&& !(nodes@[bs@[r].exit as int].kind is RuleStart)
            &&& nodes@[bs@[r].start as int].call == Some((r as usize, bs@[r].end))
        } by {
            if r < j {
                assert(bs@[r] == old_raw[r]);
                let b0 = old_raw[r];
                assert(after[b0.entry as int].call == before[b0.entry as int].call);
                assert(after[b0.exit as int].call == before[b0.exit as int].call);
                assert(after[b0.start as int].call == before[b0.start as int].call);
                assert(nodes@[b0.entry as int] == after[b0.entry as int]);
                assert(nodes@[b0.exit as int] == after[b0.exit as int]);
                assert(nodes@[b0.start as int] == after[b0.start as int]);
            } else {
                assert(nodes@[entry as int] == after[entry as int]);
                assert(nodes@[exit as int] == after[exit as int]);
            }
        }
        assert(bodies_view(bs@) =~= old_bs.push(b@));
        assert(nv[j as int] == names@[j as int]@);
        assert(ev[j as int] == bodies@[j as int]@);
        j = j + 1;
    }
    (nodes, bs)
}

pub fn compile_graph(names: &Vec<String>, bodies: &Vec<GrammarElement>, start: Option<usize>) -> (g: SyntaxGraph)
    requires
        names@.len() == bodies@.len(),
        start matches Some(si) ==> si < names@.len(),
    ensures
        g@ == spec_compile(names_view(names@), crate::grammar::views_of(bodies@), start),
        graph_wf(g@),
        shape_ok(g@),
        g@.nodes.len() <= usize::MAX,
{
    let ghost nv = names_view(names@);
    let ghost ev = crate::grammar::views_of(bodies@);
    let ghost nb = names@.len() as nat;
    let (mut nodes, bs) = compile_rules(names, bodies);
    let root = match start {
        None => None,
        Some(si) => {
            let gs = nodes.len();
            let ghost pre = nodes_view(nodes@);
            let s0 = push_node(&mut nodes, new_normal(Vec::new()), Ghost(nb));
            let cs = push_node(
                &mut nodes,
                SyntaxNode {
                    kind: GrammarNodeKind::RuleStart(names[si].clone()),
                    id: String::new(),
                    children: Vec::new(),
                    call: None,
                },
                Ghost(nb),
            );
            let ce = push_node(
                &mut nodes,
                SyntaxNode {
                    kind: GrammarNodeKind::RuleEnd(names[si].clone()),
                    id: String::new(),
                    children: Vec::new(),
                    call: None,
                },
                Ghost(nb),
            );
            let ge = push_node(&mut nodes, new_normal(Vec::new()), Ghost(nb));
            let ghost pushed = nodes_view(nodes@);
            assert(forall|k: int| 0 <= k < gs ==> pushed[k] == pre[k]);
            connect(&mut nodes, s0, cs, Ghost(nb));
            let ghost c1 = nodes_view(nodes@);
            assert(forall|k: int| 0 <= k < gs ==> c1[k] == pushed[k]);
            connect(&mut nodes, ce, ge, Ghost(nb));
            let ghost mid = nodes@;
            assert(nodes_view(mid)[s0 as int].children =~= seq![cs]);
            assert(nodes_view(mid)[cs as int].children =~= seq![]);
            assert(mid[cs as int].kind@ == KindView::RuleStart(nv[si as int]));
            nodes[cs].call = Some((si, ce));
            assert(nodes@[cs as int].children == mid[cs as int].children);
            assert(nodes@[cs as int].kind == mid[cs as int].kind);
            assert(nodes@[cs as int].id == mid[cs as int].id);
            assert(nodes@[s0 as int] == mid[s0 as int]);
            assert(nodes@[ce as int] == mid[ce as int]);
            assert(nodes@[ge as int] == mid[ge as int]);
            assert(nodes_view(mid)[ce as int].children =~= seq![ge]);
            assert(nodes_view(mid)[ge as int].children =~= seq![]);
            assert(mid[ce as int].kind@ == KindView::RuleEnd(nv[si as int]));
            assert(nv[si as int] == names@[si as int]@);
            let ghost want = pre.push(normal_node(seq![(gs + 1) as usize])).push(
                NodeView {
                    kind: KindView::RuleStart(nv[si as int]),
                    id: Seq::empty(),
                    children: seq![],
                    call: Some((si, (gs + 2) as usize)),
                },
            ).push(
                NodeView {
                    kind: KindView::RuleEnd(nv[si as int]),
                    id: Seq::empty(),
                    children: seq![(gs + 3) as usize],
                    call: None,
                },
            ).push(normal_node(seq![]));
            proof {
                let got = nodes_view(nodes@);
                assert(got.len() == want.len());
                assert(seq![].push(cs) =~= seq![(gs + 1) as usize]);
                assert(seq![].push(ge) =~= seq![(gs + 3) as usize]);
                assert(got[gs as int] == want[gs as int]);
                assert(got[cs as int] == want[cs as int]);
                assert(got[ce as int] == want[ce as int]);
                assert(got[ge as int] == want[ge as int]);
                assert forall|k: int| 0 <= k < gs implies got[k] == want[k] by {
                    assert(nodes@[k] == mid[k]);
                    assert(nodes_view(mid)[k] == c1[k]);
                    assert(c1[k] == pre[k]);
                }
                assert(got =~= want);
                let mv = nodes_view(mid);
                assert forall|n: int| 0 <= n < got.len() && (#[trigger] got[n].call) is Some implies {
                    &&& call_rule(got[n].call) < nb
                    &&& call_end(got[n].call) < got.len()
                    &&& got[n].children.len() == 0
                    &&& !(got[n].kind is Token)
                    &&& !(got[call_end(got[n].call) as int].kind is Token)
                } by {
                    if n != cs {
                        assert(got[n] == mv[n]);
                        assert(got[call_end(got[n].call) as int].kind == mv[call_end(mv[n].call) as int].kind);
                    }
                }
                assert forall|n: int, i: int|
                    0 <= n < got.len() && 0 <= i < got[n].children.len() implies #[trigger] got[n].children[i] < got.len() by {
                    assert(got[n].children == mv[n].children);
                }
            }
            Some((s0, ge))
        },
    };
    let _total = nodes.len();
    let g = SyntaxGraph { nodes, bodies: bs, root };
    assert(g@ == spec_compile(nv, ev, start));
    g
}

// ---------------------------------------------------------------------------
// Nodes as public values
// ---------------------------------------------------------------------------

impl SyntaxNode {
    pub fn duplicate(&self) -> (r: SyntaxNode)
        ensures
            r@ == self@,
    {
        let children = self.children.clone();
        assert(children@ =~= self.children@);
        SyntaxNode { kind: self.kind.duplicate(), id: self.id.clone(), children, call: self.call }
    }
}

impl SyntaxGraph {
    /// A copy with the same view.
    pub fn duplicate(&self) -> (r: SyntaxGraph)
        ensures
            r@ == self@,
    {
        let mut nodes: Vec<SyntaxNode> = Vec::new();
        for i in 0..self.nodes.len()
            invariant
                nodes_view(nodes@) =~= nodes_view(self.nodes@).take(i as int),
        {
            let ghost before = nodes_view(nodes@);
            nodes.push(self.nodes[i].duplicate());
            assert(nodes_view(nodes@) =~= before.push(self.nodes@[i as int]@));
            assert(nodes_view(self.nodes@).take(i + 1) =~= nodes_view(self.nodes@).take(i as int).push(
                self.nodes@[i as int]@,
            ));
        }
        let mut bodies: Vec<RuleBody> = Vec::new();
        for i in 0..self.bodies.len()
            invariant
                bodies_view(bodies@) =~= bodies_view(self.bodies@).take(i as int),
        {
            let b = &self.bodies[i];
            let ghost before = bodies_view(bodies@);
            let c = RuleBody { name: b.name.clone(), entry: b.entry, exit: b.exit, start: b.start, end: b.end };
            bodies.push(c);
            assert(bodies_view(bodies@) =~= before.push(c@));
            assert(bodies_view(self.bodies@).take(i + 1) =~= bodies_view(self.bodies@).take(i as int).push(
                self.bodies@[i as int]@,
            ));
        }
        assert(nodes_view(self.nodes@).take(self.nodes@.len() as int) =~= nodes_view(self.nodes@));
        assert(bodies_view(self.bodies@).take(self.bodies@.len() as int) =~= bodies_view(self.bodies@));
        SyntaxGraph { nodes, bodies, root: self.root }
    }
}

/// A node of the (lazily expanded) syntax graph: a position together with
/// the graph it belongs to, which all the nodes handed out from one graph
/// share. `kind` and `id` are those of the local node.
pub struct GrammarNode {
    pub kind: GrammarNodeKind,
    pub id: String,
    pub graph: Rc<SyntaxGraph>,
    pub pos: Pos,
}

/// Shared reference to a [`GrammarNode`].
pub type NodeRef = GrammarNode;

impl GrammarNode {
    pub open spec fn graph_view(&self) -> GraphView {
        (*self.graph)@
    }

    pub open spec fn position(&self) -> SPos {
        self.pos@
    }

    /// The node belongs to a well-formed graph, and its kind and id are
    /// those of the graph node at its position.
    pub open spec fn node_ok(&self) -> bool {
        &&& graph_wf(self.graph_view())
        &&& pos_ok(self.graph_view(), self.pos@)
        &&& self.kind@ == self.graph_view().nodes[self.pos.node as int].kind
        &&& self.id@ == self.graph_view().nodes[self.pos.node as int].id
    }

    /// The node at `pos` of `graph`, sharing `graph`.
    pub fn at(graph: &Rc<SyntaxGraph>, pos: &Pos) -> (r: GrammarNode)
        requires
            graph_wf((**graph)@),
            pos_ok((**graph)@, pos@),
        ensures
            r.node_ok(),
            r.graph_view() == (**graph)@,
            r.position() == pos@,
    {
        let g: &SyntaxGraph = &**graph;
        let nd = &g.nodes[pos.node];
        assert(g@.nodes[pos.node as int] == nd@);
        GrammarNode { kind: nd.kind.duplicate(), id: nd.id.clone(), graph: graph.clone(), pos: pos.duplicate() }
    }

    pub fn graph(&self) -> (r: &SyntaxGraph)
        ensures
            r@ == self.graph_view(),
            self.node_ok() ==> graph_wf(r@),
    {
        &*self.graph
    }

    /// The graph of this node, shared with the nodes made from it.
    pub fn shared_graph(&self) -> (r: &Rc<SyntaxGraph>)
        ensures
            (**r)@ == self.graph_view(),
            self.node_ok() ==> graph_wf((**r)@),
    {
        &self.graph
    }

    pub fn pos(&self) -> (r: &Pos)
        ensures
            r@ == self.position(),
            self.node_ok() ==> pos_ok(self.graph_view(), r@),
    {
        &self.pos
    }

    /// The successors of this node (see [`moves`]).
    pub fn get_children(&self) -> (r: Vec<GrammarNode>)
        requires
            self.node_ok(),
        ensures
            r@.len() == moves(self.graph_view(), self.position()).len(),
            forall|i: int|
                0 <= i < r@.len() ==> (#[trigger] r@[i]).position() == moves(self.graph_view(), self.position())[i]
                    && r@[i].graph_view() == self.graph_view() && r@[i].node_ok(),
    {
        let g: &SyntaxGraph = &*self.graph;
        let ms = g.moves_of(&self.pos);
        let mut r: Vec<GrammarNode> = Vec::new();
        for i in 0..ms.len()
            invariant
                graph_wf(self.graph_view()),
                pos_seq_view(ms@) == moves(self.graph_view(), self.pos@),
                forall|j: int| 0 <= j < ms@.len() ==> pos_ok(self.graph_view(), #[trigger] ms@[j]@),
                r@.len() == i,
                forall|j: int|
                    0 <= j < i ==> (#[trigger] r@[j]).position() == ms@[j]@ && r@[j].graph_view() == self.graph_view()
                        && r@[j].node_ok(),
        {
            r.push(GrammarNode::at(&self.graph, &ms[i]));
        }
        r
    }
}

pub open spec fn nodes_positions(v: Seq<GrammarNode>) -> Seq<SPos> {
    Seq::new(v.len(), |i: int| v[i].position())
}

pub fn nodes_of(graph: &Rc<SyntaxGraph>, path: &Vec<Pos>) -> (r: Vec<GrammarNode>)
    requires
        graph_wf((**graph)@),
        forall|j: int| 0 <= j < path@.len() ==> pos_ok((**graph)@, #[trigger] path@[j]@),
    ensures
        nodes_positions(r@) == pos_seq_view(path@),
        forall|j: int| 0 <= j < r@.len() ==> (#[trigger] r@[j]).graph_view() == (**graph)@ && r@[j].node_ok(),
{
    let mut r: Vec<GrammarNode> = Vec::new();
    for i in 0..path.len()
        invariant
            graph_wf((**graph)@),
            forall|j: int| 0 <= j < path@.len() ==> pos_ok((**graph)@, #[trigger] path@[j]@),
            nodes_positions(r@) =~= pos_seq_view(path@).take(i as int),
            forall|j: int| 0 <= j < r@.len() ==> (#[trigger] r@[j]).graph_view() == (**graph)@ && r@[j].node_ok(),
    {
        let n = GrammarNode::at(graph, &path[i]);
        let ghost before = r@;
        r.push(n);
        assert(nodes_positions(r@) =~= nodes_positions(before).push(n.position()));
        assert(pos_seq_view(path@).take(i + 1) =~= pos_seq_view(path@).take(i as int).push(path@[i as int]@));
    }
    assert(pos_seq_view(path@).take(path@.len() as int) =~= pos_seq_view(path@));
    r
}

impl SyntaxGraph {
    /// The tokens that can be consumed next from `p`, with their walks (see [`follow_from`]).
    pub fn follow_tokens(&self, p: &Pos) -> (r: Vec<(String, Vec<Pos>)>)
        requires
            graph_wf(self@),
            has_bounded_walks(self@),
            pos_ok(self@, p@),
        ensures
            follow_view(r@) == follow_from(self@, p@, seq![], false, walk_fuel(self@, p@)),
            results_ok(self@, r@),
    {
        proof {
            lemma_walk_fuel(self@, p@);
        }
        let mut results: Vec<(String, Vec<Pos>)> = Vec::new();
        let path: Vec<Pos> = Vec::new();
        assert(pos_seq_view(path@) =~= Seq::<SPos>::empty());
        assert(follow_view(results@) =~= Seq::<(Seq<char>, Seq<SPos>)>::empty());
        self.follow_rec(p, &path, false, &mut results, Ghost(walk_fuel(self@, p@)));
        assert(follow_view(results@) =~= follow_from(self@, p@, seq![], false, walk_fuel(self@, p@)));
        results
    }

    /// The first token-free walk from `p` to `target` (see [`eps_from`]), on
    /// a graph whose token-free walks are bounded (the parser's searches).
    pub fn path_to(&self, p: &Pos, target: &Pos) -> (r: Option<Vec<Pos>>)
        requires
            graph_wf(self@),
            has_bounded_walks(self@),
            pos_ok(self@, p@),
        ensures
            opt_path_view(r) == eps_from(self@, p@, at_pos(target@), seq![], walk_fuel(self@, p@)),
            r matches Some(v) ==> paths_ok(self@, v@),
    {
        proof {
            lemma_walk_fuel(self@, p@);
        }
        let path: Vec<Pos> = Vec::new();
        assert(pos_seq_view(path@) =~= Seq::<SPos>::empty());
        let stop_fn = |q: &Pos| -> (b: bool)
            ensures
                b == (q@ == target@),
            { q.same(target) };
        self.eps_rec(p, &stop_fn, Ghost(at_pos(target@)), &path, Ghost(walk_fuel(self@, p@)))
    }
}

/// Find all 1-token lookahead continuations reachable from `node`: each
/// token type with the walk to its token node. The walk starts with `node`
/// itself unless it is a `Normal` node, and records only non-`Normal` nodes.
pub fn find_follow_tokens(node: &NodeRef) -> (r: Vec<(String, Vec<NodeRef>)>)
    requires
        node.node_ok(),
        has_bounded_walks(node.graph_view()),
    ensures
        r@.len() == follow_from(node.graph_view(), node.position(), seq![], false, walk_fuel(node.graph_view(), node.position())).len(),
        forall|i: int|
            0 <= i < r@.len() ==> {
                let f = follow_from(node.graph_view(), node.position(), seq![], false, walk_fuel(node.graph_view(), node.position()));
                &&& (#[trigger] r@[i]).0@ == f[i].0
                &&& nodes_positions(r@[i].1@) == f[i].1
            },
{
    let g = node.graph();
    let res = g.follow_tokens(node.pos());
    let sg = node.shared_graph();
    let mut r: Vec<(String, Vec<NodeRef>)> = Vec::new();
    for i in 0..res.len()
        invariant
            graph_wf(g@),
            (**sg)@ == g@,
            results_ok(g@, res@),
            r@.len() == i,
            forall|j: int| 0 <= j < i ==> (#[trigger] r@[j]).0@ == res@[j].0@ && nodes_positions(r@[j].1@) == pos_seq_view(res@[j].1@),
    {
        assert(paths_ok(g@, res@[i as int].1@));
        let ns = nodes_of(sg, &res[i].1);
        r.push((res[i].0.clone(), ns));
    }
    assert(forall|j: int| 0 <= j < res@.len() ==> follow_view(res@)[j] == (res@[j].0@, pos_seq_view(res@[j].1@)));
    r
}

pub proof fn lemma_lookup_spec(names: Seq<Seq<char>>, name: Seq<char>)
    requires
        names.len() <= usize::MAX,
    ensures
        lookup_rule(names, name) matches Some(i) ==> i < names.len() && names[i as int] == name && forall|j: int|
            0 <= j < i ==> names[j] != name,
        lookup_rule(names, name) is None ==> forall|j: int| 0 <= j < names.len() ==> names[j] != name,
    decreases names.len(),
{
    if names.len() > 0 {
        let d = names.drop_last();
        lemma_lookup_spec(d, name);
        assert forall|j: int| 0 <= j < names.len() - 1 implies d[j] == names[j] by {}
        if lookup_rule(d, name) is None {
            assert forall|j: int| 0 <= j < names.len() - 1 implies names[j] != name by {
                assert(d[j] != name);
            }
        } else {
            let i = lookup_rule(d, name)->0;
            assert forall|j: int| 0 <= j < i implies names[j] != name by {
                assert(d[j] != name);
            }
        }
    }
}

/// Compile element `e` after the rules `names[i] -> bodies[i]`: a rule
/// reference in `e` calls the body of the rule it names. The graph, and the
/// element's entry and exit node.
pub open spec fn spec_compile_element_in(names: Seq<Seq<char>>, bodies: Seq<ElementView>, e: ElementView) -> (
    GraphView,
    usize,
    usize,
) {
    let r = c_rules(names, bodies, seq![], seq![], 0);
    let x = c_elem(names, r.0, e);
    (GraphView { nodes: x.0, bodies: r.1, root: None }, x.1, x.2)
}

proof fn lemma_c_rules_bodies(
    names: Seq<Seq<char>>,
    bodies: Seq<ElementView>,
    nodes: Seq<NodeView>,
    bv: Seq<BodyView>,
    j: int,
)
    requires
        0 <= j <= bodies.len(),
        bv.len() == j,
    ensures
        c_rules(names, bodies, nodes, bv, j).1.len() == bodies.len(),
        forall|k: int| 0 <= k < j ==> #[trigger] c_rules(names, bodies, nodes, bv, j).1[k] == bv[k],
        forall|k: int| j <= k < bodies.len() ==> #[trigger] c_rules(names, bodies, nodes, bv, j).1[k].name == names[k],
    decreases bodies.len() - j,
{
    if j < bodies.len() {
        let r = c_elem(names, nodes, bodies[j]);
        let end = r.0.len() as usize;
        let ns = r.0.push(
            NodeView { kind: KindView::RuleEnd(names[j]), id: Seq::empty(), children: seq![], call: None },
        ).push(
            NodeView {
                kind: KindView::RuleStart(names[j]),
                id: Seq::empty(),
                children: seq![],
                call: Some((j as usize, end)),
            },
        );
        let bv2 = bv.push(BodyView { name: names[j], entry: r.1, exit: r.2, start: (end + 1) as usize, end });
        lemma_c_rules_bodies(names, bodies, ns, bv2, j + 1);
        assert(c_rules(names, bodies, nodes, bv, j) == c_rules(names, bodies, ns, bv2, j + 1));
    }
}

/// A rule reference compiled after the rules enters the body of its rule:
/// its entry is a `RuleStart` node of the rule's name, whose one successor
/// is the entry of the body of rule `i` (expanded once, in the graph).
pub proof fn lemma_rule_ref_enters_body(
    names: Seq<Seq<char>>,
    bodies: Seq<ElementView>,
    name: Seq<char>,
    id: Seq<char>,
    i: usize,
)
    requires
        names.len() == bodies.len(),
        names.len() <= usize::MAX,
        lookup_rule(names, name) == Some(i),
        spec_compile_element_in(names, bodies, ElementView::Rule { name, id }).0.nodes.len() <= usize::MAX,
    ensures
        ({
            let (g, en, ex) = spec_compile_element_in(names, bodies, ElementView::Rule { name, id });
            &&& g.nodes[en as int].kind == KindView::RuleStart(name)
            &&& g.nodes[en as int].id == id
            &&& g.nodes[ex as int].kind == KindView::RuleEnd(name)
            &&& i < g.bodies.len()
            &&& g.bodies[i as int].name == names[i as int]
            &&& moves(g, (Seq::empty(), en)) == seq![(seq![en], g.bodies[i as int].entry)]
        }),
{
    lemma_c_rules_bodies(names, bodies, seq![], seq![], 0);
    lemma_lookup_spec(names, name);
    let (g, en, ex) = spec_compile_element_in(names, bodies, ElementView::Rule { name, id });
    let p: SPos = (Seq::empty(), en);
    let r0 = c_rules(names, bodies, seq![], seq![], 0).0;
    assert(g.nodes.len() == r0.len() + 2);
    assert(en == r0.len() + 1 && ex == r0.len());
    assert(g.nodes[en as int].call == Some((i, ex)));
    assert(moves(g, p) =~= seq![(seq![en], g.bodies[i as int].entry)]) by {
        assert(Seq::<usize>::empty().push(en) =~= seq![en]);
    }
}

/// The global start node of a compiled grammar leads into the start rule:
/// its one successor is a `RuleStart` node of the start rule's name, whose
/// one successor is the entry of the body of that rule.
pub proof fn lemma_start_enters_rule(names: Seq<Seq<char>>, bodies: Seq<ElementView>, si: usize)
    requires
        names.len() == bodies.len(),
        si < names.len(),
        spec_compile(names, bodies, Some(si)).nodes.len() <= usize::MAX,
    ensures
        ({
            let g = spec_compile(names, bodies, Some(si));
            let st: SPos = (Seq::empty(), (g.root->0).0);
            let c = moves(g, st)[0];
            &&& moves(g, st).len() == 1
            &&& c.0 == Seq::<usize>::empty()
            &&& g.nodes[c.1 as int].kind == KindView::RuleStart(names[si as int])
            &&& g.nodes[c.1 as int].call matches Some(cl) && cl.0 == si
            &&& g.bodies[si as int].name == names[si as int]
            &&& moves(g, c) == seq![(seq![c.1], g.bodies[si as int].entry)]
        }),
{
    lemma_c_rules_bodies(names, bodies, seq![], seq![], 0);
    let g = spec_compile(names, bodies, Some(si));
    let r0 = c_rules(names, bodies, seq![], seq![], 0).0;
    let gs = r0.len() as usize;
    assert(g.nodes.len() == r0.len() + 4);
    let st: SPos = (Seq::empty(), gs);
    assert(g.nodes[gs as int] == normal_node(seq![(gs + 1) as usize]));
    assert(moves(g, st) =~= seq![(Seq::<usize>::empty(), (gs + 1) as usize)]);
    let c: SPos = (Seq::empty(), (gs + 1) as usize);
    assert(g.nodes[c.1 as int].call == Some((si, (gs + 2) as usize)));
    assert(moves(g, c) =~= seq![(seq![c.1], g.bodies[si as int].entry)]) by {
        assert(Seq::<usize>::empty().push(c.1) =~= seq![c.1]);
    }
}

/// Compile element `e` after the rules (see [`spec_compile_element_in`]).
pub fn compile_element_in(names: &Vec<String>, bodies: &Vec<GrammarElement>, e: &GrammarElement) -> (r: (
    SyntaxGraph,
    usize,
    usize,
))
    requires
        names@.len() == bodies@.len(),
    ensures
        (r.0@, r.1, r.2) == spec_compile_element_in(names_view(names@), crate::grammar::views_of(bodies@), e@),
        graph_wf(r.0@),
        r.0@.nodes.len() <= usize::MAX,
        r.1 < r.0@.nodes.len(),
        r.2 < r.0@.nodes.len(),
{
    let (mut nodes, bs) = compile_rules(names, bodies);
    let ghost n0 = nodes@;
    let (i, o) = compile_elem(names, &mut nodes, e);
    let _total = nodes.len();
    let g = SyntaxGraph { nodes, bodies: bs, root: None };
    proof {
        assert forall|k: int| 0 <= k < g@.bodies.len() implies {
            &&& #[trigger] g@.bodies[k].entry < g@.nodes.len()
            &&& g@.bodies[k].exit < g@.nodes.len()
            &&& g@.bodies[k].start < g@.nodes.len()
            &&& g@.bodies[k].end < g@.nodes.len()
        } by {
            assert(g@.bodies[k] == bs@[k]@);
            assert(bs@[k].entry < n0.len());
        }
    }
    (g, i, o)
}

/// Compile a single element on its own, with no rules defined.
pub fn compile_element(e: &GrammarElement) -> (r: (SyntaxGraph, usize, usize))
    ensures
        (r.0@, r.1, r.2) == spec_compile_element(e@),
        graph_wf(r.0@),
        r.1 < r.0@.nodes.len(),
        r.2 < r.0@.nodes.len(),
{
    let names: Vec<String> = Vec::new();
    let mut nodes: Vec<SyntaxNode> = Vec::new();
    let bodies: Vec<RuleBody> = Vec::new();
    assert(names_view(names@) =~= Seq::<Seq<char>>::empty());
    assert(nodes_view(nodes@) =~= Seq::<NodeView>::empty());
    assert(bodies_view(bodies@) =~= Seq::<BodyView>::empty());
    let (i, o) = compile_elem(&names, &mut nodes, e);
    let g = SyntaxGraph { nodes, bodies, root: None };
    (g, i, o)
}

// ---------------------------------------------------------------------------
// Describing walks
// ---------------------------------------------------------------------------

/// The label of a node kind in a walk description; `Normal` nodes have none.
pub open spec fn kind_label(k: KindView) -> Option<Seq<char>> {
    match k {
        KindView::RuleStart(n) => Some("RuleStart("@ + n + ")"@),
        KindView::RuleEnd(n) => Some("RuleEnd("@ + n + ")"@),
        KindView::Token(t) => Some("Token("@ + t + ")"@),
        KindView::Normal => None,
    }
}

/// The labels of the non-`Normal` kinds, in order.
pub open spec fn kind_labels(ks: Seq<KindView>) -> Seq<Seq<char>>
    decreases ks.len(),
{
    if ks.len() == 0 {
        seq![]
    } else {
        kind_labels(ks.drop_last()) + match kind_label(ks.last()) {
            Some(l) => seq![l],
            None => seq![],
        }
    }
}

/// `parts` joined with `sep` between consecutive parts.
pub open spec fn joined(parts: Seq<Seq<char>>, sep: Seq<char>) -> Seq<char>
    decreases parts.len(),
{
    if parts.len() == 0 {
        seq![]
    } else if parts.len() == 1 {
        parts[0]
    } else {
        joined(parts.drop_last(), sep) + sep + parts.last()
    }
}

/// The kinds of the nodes, in order.
pub open spec fn node_kinds(v: Seq<GrammarNode>) -> Seq<KindView> {
    Seq::new(v.len(), |i: int| v[i].kind@)
}

/// A walk as text: the labels of its rule and token nodes joined with `" -> "`.
pub fn path_to_string(path: &Vec<GrammarNode>) -> (r: String)
    ensures
        r@ == joined(kind_labels(node_kinds(path@)), " -> "@),
{
    let ghost ks = node_kinds(path@);
    let mut out = String::new();
    let mut any = false;
    let n = path.len();
    assert(ks.take(0) =~= Seq::<KindView>::empty());
    for i in 0..n
        invariant
            n == path@.len(),
            ks == node_kinds(path@),
            out@ == joined(kind_labels(ks.take(i as int)), " -> "@),
            any == (kind_labels(ks.take(i as int)).len() > 0),
    {
        let ghost pre = ks.take(i as int);
        assert(ks.take(i + 1).drop_last() =~= pre);
        assert(ks.take(i + 1).last() == path@[i as int].kind@);
        let label = match &path[i].kind {
            GrammarNodeKind::RuleStart(name) => Some(
                String::from_str("RuleStart(").concat(name.as_str()).concat(")"),
            ),
            GrammarNodeKind::RuleEnd(name) => Some(
                String::from_str("RuleEnd(").concat(name.as_str()).concat(")"),
            ),
            GrammarNodeKind::Token(t) => Some(String::from_str("Token(").concat(t.as_str()).concat(")")),
            GrammarNodeKind::Normal => None,
        };
        match label {
            Some(l) => {
                assert(kind_label(path@[i as int].kind@) == Some(l@));
                let ghost parts = kind_labels(pre);
                assert(kind_labels(ks.take(i + 1)) =~= parts.push(l@));
                assert(parts.push(l@).drop_last() =~= parts);
                if any {
                    out = out.concat(" -> ");
                }
                out = out.concat(l.as_str());
                any = true;
            },
            None => {
                assert(kind_labels(ks.take(i + 1)) =~= kind_labels(pre));
            },
        }
    }
    assert(ks.take(n as int) =~= ks);
    out
}

} // verus!
