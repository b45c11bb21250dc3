//! Grammar combinators and the grammar registry.
//!
//! A grammar element is a tree built from the combinator functions
//! [`tok`], [`seq`], [`choice`], [`opt`], [`many`], [`one_or_more`] and rule
//! references made with a [`GrammarHandle`]. [`Grammar::compile`] turns the
//! rule bodies into a syntax graph (see [`crate::graph`]) in which every
//! occurrence of a rule reference is expanded on its own, so that mutually
//! recursive grammars work without false ambiguity.
use vstd::prelude::*;
use std::rc::Rc;

use crate::ast::{Ast, AstView};
use crate::graph::{
    at_pos, callee_of, lemma_start_enters_rule, moves, KindView, body_names, compile_element, compile_graph, graph_wf, shape_ok, lemma_lookup_spec, lookup_rule, names_view,
    nodes_positions, nodes_of, pos_ok, spec_compile, GraphView, GrammarNode, NodeRef, Pos, SPos, SyntaxGraph,
};
use crate::walks::{check_bounded_walks, has_bounded_walks, walk_check};
use crate::search::{eps_found, eps_walk, recorded, search_cap};




verus! {

/// The mathematical value of a grammar element.
pub enum ElementView {
    Token { token_type: Seq<char>, id: Seq<char> },
    Sequence(Seq<ElementView>),
    Choice(Seq<ElementView>),
    Opt(Box<ElementView>),
    Many(Box<ElementView>),
    Rule { name: Seq<char>, id: Seq<char> },
}

/// Terminal element: matches a single token of the given type.
pub struct TokenElement {
    pub token_type: String,
    pub id: String,
}

/// Matches all contained elements in order (A B C ...).
pub struct Sequence {
    pub elements: Vec<GrammarElement>,
}

/// Matches exactly one of the given branches (A | B | C ...).
pub struct ChoiceElement {
    pub branches: Vec<GrammarElement>,
}

/// Makes an element optional (A?).
pub struct OptionalElement {
    pub inner: Box<GrammarElement>,
}

/// Matches zero or more repetitions (A*).
pub struct ManyElement {
    pub inner: Box<GrammarElement>,
}

impl TokenElement {
    /// A terminal for tokens of type `token_type`, tagged with `id`.
    pub fn new(token_type: &str, id: &str) -> (e: TokenElement)
        ensures
            e.token_type@ == token_type@,
            e.id@ == id@,
    {
        TokenElement { token_type: String::from_str(token_type), id: String::from_str(id) }
    }
}

/// A reference to a named rule; every occurrence is expanded on its own.
pub struct LazyRuleElement {
    pub rule_name: String,
    pub id: String,
}

/// A composable grammar piece.
pub enum GrammarElement {
    Token(TokenElement),
    Sequence(Sequence),
    Choice(ChoiceElement),
    Optional(OptionalElement),
    Many(ManyElement),
    Rule(LazyRuleElement),
}

impl GrammarElement {
    pub open spec fn spec_view(self) -> ElementView
        decreases self,
    {
        match self {
            GrammarElement::Token(t) => ElementView::Token { token_type: t.token_type@, id: t.id@ },
            GrammarElement::Sequence(s) => ElementView::Sequence(
                Seq::new(
                    s.elements@.len(),
                    |i: int|
                        if 0 <= i < s.elements@.len() {
                            s.elements@[i].spec_view()
                        } else {
                            ElementView::Sequence(Seq::empty())
                        },
                ),
            ),
            GrammarElement::Choice(c) => ElementView::Choice(
                Seq::new(
                    c.branches@.len(),
                    |i: int|
                        if 0 <= i < c.branches@.len() {
                            c.branches@[i].spec_view()
                        } else {
                            ElementView::Sequence(Seq::empty())
                        },
                ),
            ),
            GrammarElement::Optional(o) => ElementView::Opt(Box::new((*o.inner).spec_view())),
            GrammarElement::Many(m) => ElementView::Many(Box::new((*m.inner).spec_view())),
            GrammarElement::Rule(r) => ElementView::Rule { name: r.rule_name@, id: r.id@ },
        }
    }
}

impl View for GrammarElement {
    type V = ElementView;

    open spec fn view(&self) -> ElementView {
        self.spec_view()
    }
}

pub open spec fn views_of(v: Seq<GrammarElement>) -> Seq<ElementView> {
    Seq::new(v.len(), |i: int| v[i]@)
}

/// The id tag of an element; only tokens and rule references carry one.
pub open spec fn element_id(e: ElementView) -> Seq<char> {
    match e {
        ElementView::Token { id, .. } => id,
        ElementView::Rule { id, .. } => id,
        _ => Seq::empty(),
    }
}

/// `e` with its id tag replaced; elements without a tag are unchanged.
pub open spec fn element_with_id(e: ElementView, id: Seq<char>) -> ElementView {
    match e {
        ElementView::Token { token_type, .. } => ElementView::Token { token_type, id },
        ElementView::Rule { name, .. } => ElementView::Rule { name, id },
        _ => e,
    }
}

impl GrammarElement {
    /// An independent copy of the element.
    pub fn clone_element(&self) -> (r: GrammarElement)
        ensures
            r@ == self@,
        decreases self,
    {
        match self {
            GrammarElement::Token(t) => GrammarElement::Token(
                TokenElement { token_type: t.token_type.clone(), id: t.id.clone() },
            ),
            GrammarElement::Sequence(s) => {
                let v = clone_elements(&s.elements);
                let r = GrammarElement::Sequence(Sequence { elements: v });
                assert(r@ == self@) by {
                    assert(views_of(v@) =~= views_of(s.elements@));
                    if let ElementView::Sequence(a) = r@ {
                        if let ElementView::Sequence(b) = self@ {
                            assert(a =~= b) by {
                                assert forall|i: int| 0 <= i < a.len() implies a[i] == b[i] by {
                                    assert(views_of(v@)[i] == views_of(s.elements@)[i]);
                                }
                            }
                        }
                    }
                }
                r
            },
            GrammarElement::Choice(c) => {
                let v = clone_elements(&c.branches);
                let r = GrammarElement::Choice(ChoiceElement { branches: v });
                assert(r@ == self@) by {
                    assert(views_of(v@) =~= views_of(c.branches@));
                    if let ElementView::Choice(a) = r@ {
                        if let ElementView::Choice(b) = self@ {
                            assert(a =~= b) by {
                                assert forall|i: int| 0 <= i < a.len() implies a[i] == b[i] by {
                                    assert(views_of(v@)[i] == views_of(c.branches@)[i]);
                                }
                            }
                        }
                    }
                }
                r
            },
            GrammarElement::Optional(o) => {
                let inner = (*o.inner).clone_element();
                GrammarElement::Optional(OptionalElement { inner: Box::new(inner) })
            },
            GrammarElement::Many(m) => {
                let inner = (*m.inner).clone_element();
                GrammarElement::Many(ManyElement { inner: Box::new(inner) })
            },
            GrammarElement::Rule(r) => GrammarElement::Rule(
                LazyRuleElement { rule_name: r.rule_name.clone(), id: r.id.clone() },
            ),
        }
    }

    /// The id tag of the element (empty for elements that carry none).
    pub fn get_id(&self) -> (r: &str)
        ensures
            r@ == element_id(self@),
    {
        match self {
            GrammarElement::Token(t) => t.id.as_str(),
            GrammarElement::Rule(r) => r.id.as_str(),
            _ => {
                proof {
                    reveal_strlit("");
                }
                ""
            },
        }
    }

    /// Replace the id tag of a token or rule reference; other elements are unchanged.
    pub fn set_id(&mut self, id: &str)
        ensures
            final(self)@ == element_with_id(old(self)@, id@),
    {
        match self {
            GrammarElement::Token(t) => {
                t.id = String::from_str(id);
            },
            GrammarElement::Rule(r) => {
                r.id = String::from_str(id);
            },
            _ => {},
        }
    }
}

fn clone_elements(v: &Vec<GrammarElement>) -> (r: Vec<GrammarElement>)
    ensures
        views_of(r@) == views_of(v@),
    decreases v,
{
    let mut r: Vec<GrammarElement> = Vec::new();
    let n = v.len();
    for i in 0..n
        invariant
            n == v@.len(),
            r@.len() == i,
            forall|j: int| 0 <= j < i ==> #[trigger] r@[j]@ == v@[j]@,
    {
        proof {
            vstd::std_specs::vec::axiom_vec_index_decreases(*v, i as int);
        }
        let e = v[i].clone_element();
        r.push(e);
    }
    assert(views_of(r@) =~= views_of(v@));
    r
}

/// Terminal element matching a token of the given type.
pub fn tok(token_type: &str) -> (e: GrammarElement)
    ensures
        e@ == (ElementView::Token { token_type: token_type@, id: Seq::empty() }),
{
    GrammarElement::Token(TokenElement { token_type: String::from_str(token_type), id: String::new() })
}

/// Like [`tok`] but with an id tag.
pub fn tok_id(token_type: &str, id: &str) -> (e: GrammarElement)
    ensures
        e@ == (ElementView::Token { token_type: token_type@, id: id@ }),
{
    GrammarElement::Token(TokenElement::new(token_type, id))
}

/// Sequence combinator (A B C ...). A sequence needs at least one element.
pub fn seq(elements: Vec<GrammarElement>) -> (e: GrammarElement)
    requires
        elements@.len() > 0,
    ensures
        e@ == ElementView::Sequence(views_of(elements@)),
{
    let e = GrammarElement::Sequence(Sequence { elements });
    assert(e@ == ElementView::Sequence(views_of(elements@))) by {
        if let ElementView::Sequence(a) = e@ {
            assert(a =~= views_of(elements@));
        }
    }
    e
}

/// Choice combinator (A | B | C ...).
pub fn choice(branches: Vec<GrammarElement>) -> (e: GrammarElement)
    ensures
        e@ == ElementView::Choice(views_of(branches@)),
{
    let e = GrammarElement::Choice(ChoiceElement { branches });
    assert(e@ == ElementView::Choice(views_of(branches@))) by {
        if let ElementView::Choice(a) = e@ {
            assert(a =~= views_of(branches@));
        }
    }
    e
}

/// Optional combinator (A?).
pub fn opt(element: GrammarElement) -> (e: GrammarElement)
    ensures
        e@ == ElementView::Opt(Box::new(element@)),
{
    GrammarElement::Optional(OptionalElement { inner: Box::new(element) })
}

/// Zero-or-more repetition combinator (A*).
pub fn many(element: GrammarElement) -> (e: GrammarElement)
    ensures
        e@ == ElementView::Many(Box::new(element@)),
{
    GrammarElement::Many(ManyElement { inner: Box::new(element) })
}

/// One-or-more repetition combinator (A+): the element followed by `many` of a copy.
pub fn one_or_more(element: GrammarElement) -> (e: GrammarElement)
    ensures
        e@ == ElementView::Sequence(seq![element@, ElementView::Many(Box::new(element@))]),
{
    let cloned = element.clone_element();
    let ghost ev = element@;
    let mut v: Vec<GrammarElement> = Vec::new();
    v.push(element);
    v.push(many(cloned));
    let e = seq(v);
    assert(views_of(v@) =~= seq![ev, ElementView::Many(Box::new(ev))]);
    e
}

/// Tag a grammar element with an id (for AST node retrieval).
pub fn with_id(element: GrammarElement, id: &str) -> (e: GrammarElement)
    ensures
        e@ == element_with_id(element@, id@),
{
    let mut element = element;
    element.set_id(id);
    element
}

/// Hands out references to named rules inside rule definitions.
#[derive(Clone)]
pub struct GrammarHandle;

impl GrammarHandle {
    /// A reference to the named rule. Each occurrence is expanded on its own.
    pub fn rule_ref(&self, name: &str) -> (e: GrammarElement)
        ensures
            e@ == (ElementView::Rule { name: name@, id: Seq::empty() }),
    {
        GrammarElement::Rule(LazyRuleElement { rule_name: String::from_str(name), id: String::new() })
    }

    /// Like [`GrammarHandle::rule_ref`] but with an id tag for AST retrieval.
    pub fn rule_ref_id(&self, name: &str, id: &str) -> (e: GrammarElement)
        ensures
            e@ == (ElementView::Rule { name: name@, id: id@ }),
    {
        GrammarElement::Rule(
            LazyRuleElement { rule_name: String::from_str(name), id: String::from_str(id) },
        )
    }
}

impl GrammarElement {
    /// The entry node of the element, compiled on its own: with no rules
    /// at hand, a rule reference in it is a `RuleStart` node with no
    /// successor. [`Grammar::element_in_node`] compiles the element after a
    /// grammar's rules, so that its references enter their rules' bodies.
    pub fn in_node(&self) -> (r: NodeRef)
        ensures
            r.node_ok(),
            r.graph_view() == spec_compile_element_graph(self@),
            r.position() == (Seq::<usize>::empty(), crate::graph::spec_compile_element(self@).1),
    {
        let (g, i, _o) = compile_element(self);
        let p = Pos { frames: Vec::new(), node: i };
        assert(p.frames@ =~= Seq::<usize>::empty());
        GrammarNode::at(&Rc::new(g), &p)
    }

    /// The exit node of the element, compiled on its own.
    pub fn out_node(&self) -> (r: NodeRef)
        ensures
            r.node_ok(),
            r.graph_view() == spec_compile_element_graph(self@),
            r.position() == (Seq::<usize>::empty(), crate::graph::spec_compile_element(self@).2),
    {
        let (g, _i, o) = compile_element(self);
        let p = Pos { frames: Vec::new(), node: o };
        assert(p.frames@ =~= Seq::<usize>::empty());
        GrammarNode::at(&Rc::new(g), &p)
    }
}

pub open spec fn opt_nodes_positions(o: Option<Vec<GrammarNode>>) -> Option<Seq<SPos>> {
    match o {
        Some(v) => Some(nodes_positions(v@)),
        None => None,
    }
}

/// Find a token-free walk from `node` to a node on which `end_pred` holds
/// (token successors are skipped; `node` itself may be a token). The
/// search is depth-first and never visits a node twice, so it ends on every
/// graph; it follows rule references no deeper than [`search_cap`] below
/// `node`. Only the walk's non-`Normal` nodes are given, `node` first unless
/// it is `Normal`. `stop` is what `end_pred` computes on a node, as a
/// function of its position. `None` means that no token-free walk reaches
/// such a node within that depth, and none at all reaches one that is no
/// deeper than `node` (a deeper walk can be shortened, see
/// [`crate::shortcut`]).
pub fn find_epsilon_path<F: Fn(&NodeRef) -> bool>(
    node: &NodeRef,
    end_pred: &F,
    Ghost(stop): Ghost<spec_fn(SPos) -> bool>,
) -> (r: Option<Vec<NodeRef>>)
    requires
        node.node_ok(),
        forall|n: GrammarNode|
            n.node_ok() && n.graph_view() == node.graph_view() ==> call_requires(*end_pred, (&n,)),
        forall|n: GrammarNode, b: bool|
            n.node_ok() && n.graph_view() == node.graph_view() && call_ensures(*end_pred, (&n,), b) ==> b == stop(
                n.position(),
            ),
    ensures
        r matches Some(v) ==> {
            &&& forall|j: int|
                0 <= j < v@.len() ==> (#[trigger] v@[j]).graph_view() == node.graph_view() && v@[j].node_ok()
            &&& exists|w: Seq<SPos>|
                #[trigger] eps_found(
                    node.graph_view(),
                    search_cap(node.graph_view(), node.position()),
                    stop,
                    node.position(),
                    w,
                ) && nodes_positions(v@) == recorded(node.graph_view(), w)
        },
        r is None ==> forall|w: Seq<SPos>|
            #[trigger] eps_walk(node.graph_view(), search_cap(node.graph_view(), node.position()), w) && w[0]
                == node.position() ==> !stop(w.last()),
        r is None && node.position().0.len() + node.graph_view().nodes.len() <= usize::MAX ==> forall|
            c: nat,
            w: Seq<SPos>,
        |
            #[trigger] eps_walk(node.graph_view(), c, w) && w[0] == node.position() && w.last().0.len()
                <= node.position().0.len() ==> !stop(w.last()),
{
    let g = node.graph();
    let sg = node.shared_graph();
    let gs: Ghost<spec_fn(SPos) -> bool> = Ghost(stop);
    let stop_fn = |q: &Pos| -> (b: bool)
        requires
            pos_ok(g@, q@),
        ensures
            b == gs@(q@),
        {
            let n = GrammarNode::at(sg, q);
            end_pred(&n)
        };
    match g.eps_search(node.pos(), &stop_fn, Ghost(stop)) {
        Some(path) => Some(nodes_of(sg, &path)),
        None => None,
    }
}

pub open spec fn spec_compile_element_graph(e: ElementView) -> GraphView {
    crate::graph::spec_compile_element(e).0
}

/// A rule reference compiled on its own has the form of a reference: its
/// entry is a `RuleStart` node of the rule's name that carries the
/// reference's id, its exit a separate `RuleEnd` node of the name, and
/// neither has a successor until the reference is compiled after the rules
/// (see [`Grammar::element_in_node`]).
pub proof fn lemma_rule_ref_node_form(name: Seq<char>, id: Seq<char>)
    ensures
        ({
            let (g, en, ex) = crate::graph::spec_compile_element(ElementView::Rule { name, id });
            &&& g.nodes[en as int].kind == KindView::RuleStart(name)
            &&& g.nodes[en as int].id == id
            &&& g.nodes[ex as int].kind == KindView::RuleEnd(name)
            &&& en != ex
            &&& moves(g, (Seq::empty(), en)).len() == 0
            &&& moves(g, (Seq::empty(), ex)).len() == 0
        }),
{
    let (g, en, ex) = crate::graph::spec_compile_element(ElementView::Rule { name, id });
    assert(crate::graph::lookup_rule(seq![], name) is None);
    assert(g.nodes.len() == 2);
}

/// Rewrites the AST node built for a rule once the rule is complete.
///
/// `accepts` says on which inputs `transform` may be called; `transforms`
/// relates an input to each result `transform` may give for it; `obeys`
/// says whether `transform` computes the function `spec_transform`. For a
/// closure `Fn(Ast) -> Ast`, `transforms` is what the closure ensures.
pub trait AstTransformer {
    spec fn accepts(&self, ast: Ast) -> bool;

    spec fn transforms(&self, ast: Ast, r: Ast) -> bool;

    spec fn obeys(&self) -> bool;

    spec fn spec_transform(&self, ast: AstView) -> AstView;

    fn transform(&self, ast: Ast) -> (r: Ast)
        requires
            self.accepts(ast),
        ensures
            self.transforms(ast, r),
            self.obeys() ==> r@ == self.spec_transform(ast@),
    ;
}

impl<F: Fn(Ast) -> Ast> AstTransformer for F {
    open spec fn accepts(&self, ast: Ast) -> bool {
        call_requires(*self, (ast,))
    }

    open spec fn transforms(&self, ast: Ast, r: Ast) -> bool {
        call_ensures(*self, (ast,), r)
    }

    open spec fn obeys(&self) -> bool {
        false
    }

    open spec fn spec_transform(&self, ast: AstView) -> AstView {
        ast
    }

    /// The closure applied to `ast`.
    fn transform(&self, ast: Ast) -> (r: Ast) {
        self(ast)
    }
}

/// A registered transformer.
pub struct TransformerEntry {
    pub transformer: Box<dyn AstTransformer>,
}

impl TransformerEntry {
    pub fn new<T: AstTransformer + 'static>(t: T) -> (e: TransformerEntry)
        ensures
            e.transformer.obeys() == t.obeys(),
            forall|a: AstView| #[trigger] e.transformer.spec_transform(a) == t.spec_transform(a),
            forall|a: Ast| #[trigger] e.transformer.accepts(a) == t.accepts(a),
            forall|a: Ast, b: Ast| #[trigger] e.transformer.transforms(a, b) == t.transforms(a, b),
    {
        TransformerEntry { transformer: Box::new(t) }
    }
}

/// The complete grammar: rule definitions, the start rule and AST transformers.
///
/// [`Grammar::compile`] builds the syntax graph once; later changes to the
/// rules do not change a graph that was already built.
pub struct Grammar {
    rule_names: Vec<String>,
    rule_defs: Vec<GrammarElement>,
    start_rule: Option<String>,
    transformer_names: Vec<String>,
    transformers: Vec<TransformerEntry>,
    graph: Option<Rc<SyntaxGraph>>,
}

impl Grammar {
    /// Rule names are unique and parallel to the bodies, transformer names
    /// are unique and parallel to the transformers, and a built graph is
    /// well-formed and has the shape of a compiled graph.
    pub closed spec fn wf(self) -> bool {
        &&& self.rule_names@.len() == self.rule_defs@.len()
        &&& forall|i: int, j: int|
            0 <= i < j < self.rule_names@.len() ==> self.rule_names@[i]@ != self.rule_names@[j]@
        &&& self.transformer_names@.len() == self.transformers@.len()
        &&& forall|i: int, j: int|
            0 <= i < j < self.transformer_names@.len() ==> self.transformer_names@[i]@
                != self.transformer_names@[j]@
        &&& self.graph matches Some(g) ==> graph_wf((*g)@) && shape_ok((*g)@) && (*g)@.root is Some
        &&& self.graph matches Some(g) ==> (*g)@.nodes.len() <= usize::MAX && self.rule_names@.len() <= usize::MAX
    }

    /// The rule names, in the order they were first added.
    pub closed spec fn names(self) -> Seq<Seq<char>> {
        names_view(self.rule_names@)
    }

    /// The rule bodies, parallel to [`Grammar::names`].
    pub closed spec fn bodies(self) -> Seq<ElementView> {
        views_of(self.rule_defs@)
    }

    pub closed spec fn start(self) -> Option<Seq<char>> {
        match self.start_rule {
            Some(s) => Some(s@),
            None => None,
        }
    }

    /// The names that have a transformer, in the order they were first added.
    pub closed spec fn transformer_names(self) -> Seq<Seq<char>> {
        names_view(self.transformer_names@)
    }

    /// The transformers, parallel to [`Grammar::transformer_names`].
    pub closed spec fn transformers(self) -> Seq<TransformerEntry> {
        self.transformers@
    }

    pub open spec fn has_transformer(self, name: Seq<char>) -> bool {
        lookup_rule(self.transformer_names(), name) is Some
    }

    /// The transformer registered for `name` (meaningful when [`Grammar::has_transformer`]).
    pub open spec fn transformer(self, name: Seq<char>) -> Box<dyn AstTransformer> {
        self.transformers()[(lookup_rule(self.transformer_names(), name)->0) as int].transformer
    }

    /// Every registered transformer computes its `spec_transform`.
    pub open spec fn transformers_obey(self) -> bool {
        forall|i: int| 0 <= i < self.transformers().len() ==> #[trigger] self.transformers()[i].transformer.obeys()
    }

    /// Every registered transformer may be called on every AST.
    pub open spec fn transformers_total(self) -> bool {
        forall|i: int, a: Ast|
            0 <= i < self.transformers().len() ==> #[trigger] self.transformers()[i].transformer.accepts(a)
    }

    pub closed spec fn is_compiled(self) -> bool {
        self.graph is Some
    }

    pub closed spec fn graph_view(self) -> GraphView {
        (*self.graph->0)@
    }

    /// The graph of the current rules (see [`spec_compile`]).
    pub open spec fn spec_graph(self) -> GraphView {
        spec_compile(
            self.names(),
            self.bodies(),
            match self.start() {
                Some(s) => lookup_rule(self.names(), s),
                None => None,
            },
        )
    }

    pub fn new() -> (g: Grammar)
        ensures
            g.names() == Seq::<Seq<char>>::empty(),
            g.bodies() == Seq::<ElementView>::empty(),
            g.start() is None,
            g.transformer_names() == Seq::<Seq<char>>::empty(),
            g.transformers().len() == 0,
            g.transformers_total(),
            g.transformers_obey(),
            !g.is_compiled(),
            g.wf(),
    {
        let g = Grammar {
            rule_names: Vec::new(),
            rule_defs: Vec::new(),
            start_rule: None,
            transformer_names: Vec::new(),
            transformers: Vec::new(),
            graph: None,
        };
        assert(g.names() =~= Seq::<Seq<char>>::empty());
        assert(g.transformer_names() =~= Seq::<Seq<char>>::empty());
        assert(g.bodies() =~= Seq::<ElementView>::empty());
        g
    }

    /// Register a grammar rule: `expander` is called with a handle and its
    /// result becomes the body of rule `name` (replacing an earlier body of
    /// that name). With `is_start`, `name` becomes the start rule.
    pub fn add_rule<F: Fn(&GrammarHandle) -> GrammarElement>(&mut self, name: &str, is_start: bool, expander: F)
        requires
            old(self).wf(),
            call_requires(expander, (&GrammarHandle,)),
        ensures
            final(self).wf(),
            exists|body: GrammarElement|
                #![trigger call_ensures(expander, (&GrammarHandle,), body)]
                call_ensures(expander, (&GrammarHandle,), body) && match lookup_rule(old(self).names(), name@) {
                    Some(i) => final(self).names() == old(self).names() && final(self).bodies() == old(
                        self,
                    ).bodies().update(i as int, body@),
                    None => final(self).names() == old(self).names().push(name@) && final(self).bodies()
                        == old(self).bodies().push(body@),
                },
            final(self).start() == if is_start {
                Some(name@)
            } else {
                old(self).start()
            },
            final(self).transformer_names() == old(self).transformer_names(),
            final(self).transformers() == old(self).transformers(),
            final(self).is_compiled() == old(self).is_compiled(),
            old(self).is_compiled() ==> final(self).graph_view() == old(self).graph_view(),
    {
        let handle = GrammarHandle;
        let body = expander(&handle);
        let ghost bv = body@;
        let name_s = String::from_str(name);
        let found = crate::graph::find_rule_pub(&self.rule_names, &name_s);
        let _n = self.rule_names.len();
        proof {
            lemma_lookup_spec(names_view(self.rule_names@), name@);
        }
        match found {
            Some(i) => {
                let ghost ob = self.bodies();
                self.rule_defs.set(i, body);
                assert(self.bodies() =~= ob.update(i as int, bv));
            },
            None => {
                let ghost on = self.names();
                let ghost ob = self.bodies();
                assert forall|j: int| 0 <= j < self.rule_names@.len() implies self.rule_names@[j]@ != name@ by {
                    assert(on[j] == self.rule_names@[j]@);
                }
                self.rule_names.push(name_s);
                self.rule_defs.push(body);
                let _m = self.rule_names.len();
                assert(self.names() =~= on.push(name@));
                assert(self.bodies() =~= ob.push(bv));
            },
        }
        if is_start {
            self.start_rule = Some(String::from_str(name));
        }
    }

    /// Register an AST transformer closure for the named rule (replacing an earlier one).
    pub fn add_ast_transformer<F: Fn(Ast) -> Ast + 'static>(&mut self, rule_name: &str, f: F)
        requires
            old(self).wf(),
        ensures
            final(self).wf(),
            final(self).names() == old(self).names(),
            final(self).bodies() == old(self).bodies(),
            final(self).start() == old(self).start(),
            final(self).is_compiled() == old(self).is_compiled(),
            old(self).is_compiled() ==> final(self).graph_view() == old(self).graph_view(),
            final(self).has_transformer(rule_name@),
            final(self).transformer(rule_name@).obeys() == f.obeys(),
            forall|a: AstView| #[trigger] final(self).transformer(rule_name@).spec_transform(a) == f.spec_transform(a),
            forall|a: Ast| #[trigger] final(self).transformer(rule_name@).accepts(a) == f.accepts(a),
            forall|a: Ast, b: Ast| #[trigger] final(self).transformer(rule_name@).transforms(a, b) == f.transforms(a, b),
            forall|m: Seq<char>|
                m != rule_name@ ==> (#[trigger] final(self).has_transformer(m) == old(self).has_transformer(m)
                    && (old(self).has_transformer(m) ==> final(self).transformer(m) == old(self).transformer(m))),
            (old(self).transformers_total() && forall|a: Ast| #[trigger] f.accepts(a)) ==> final(self).transformers_total(),
            (old(self).transformers_obey() && f.obeys()) ==> final(self).transformers_obey(),
    {
        self.add_transformer(rule_name, f);
    }

    /// Register a transformer value for the named rule (replacing an earlier one).
    pub fn add_transformer<T: AstTransformer + 'static>(&mut self, rule_name: &str, t: T)
        requires
            old(self).wf(),
        ensures
            final(self).wf(),
            final(self).names() == old(self).names(),
            final(self).bodies() == old(self).bodies(),
            final(self).start() == old(self).start(),
            final(self).is_compiled() == old(self).is_compiled(),
            old(self).is_compiled() ==> final(self).graph_view() == old(self).graph_view(),
            final(self).has_transformer(rule_name@),
            final(self).transformer(rule_name@).obeys() == t.obeys(),
            forall|a: AstView| #[trigger] final(self).transformer(rule_name@).spec_transform(a) == t.spec_transform(a),
            forall|a: Ast| #[trigger] final(self).transformer(rule_name@).accepts(a) == t.accepts(a),
            forall|a: Ast, b: Ast| #[trigger] final(self).transformer(rule_name@).transforms(a, b) == t.transforms(a, b),
            forall|m: Seq<char>|
                m != rule_name@ ==> (#[trigger] final(self).has_transformer(m) == old(self).has_transformer(m)
                    && (old(self).has_transformer(m) ==> final(self).transformer(m) == old(self).transformer(m))),
            (old(self).transformers_total() && forall|a: Ast| #[trigger] t.accepts(a)) ==> final(self).transformers_total(),
            (old(self).transformers_obey() && t.obeys()) ==> final(self).transformers_obey(),
    {
        let entry = TransformerEntry::new(t);
        let ghost ge = entry;
        let name = String::from_str(rule_name);
        let found = crate::graph::find_rule_pub(&self.transformer_names, &name);
        let _n = self.transformer_names.len();
        let ghost on = self.transformer_names();
        proof {
            lemma_lookup_spec(on, name@);
        }
        match found {
            Some(i) => {
                let ghost ots = self.transformers@;
                self.transformers.set(i, entry);
                assert forall|m: Seq<char>| m != rule_name@ && old(self).has_transformer(m) implies
                    #[trigger] self.transformer(m) == old(self).transformer(m) by {
                    lemma_lookup_spec(on, m);
                    let j = lookup_rule(on, m)->0;
                    assert(j != i);
                    assert(self.transformers@[j as int].transformer == ots[j as int].transformer);
                }
                assert((old(self).transformers_total() && forall|a: Ast| #[trigger] t.accepts(a))
                    ==> self.transformers_total()) by {
                    if old(self).transformers_total() && forall|a: Ast| #[trigger] t.accepts(a) {
                    assert forall|k: int, a: Ast| 0 <= k < self.transformers().len() implies
                        #[trigger] self.transformers()[k].transformer.accepts(a) by {
                        if k != i {
                            assert(self.transformers@[k].transformer == ots[k].transformer);
                            assert(old(self).transformers()[k].transformer.accepts(a));
                        } else {
                            assert(self.transformers@[k].transformer == ge.transformer);
                            assert(ge.transformer.accepts(a) == t.accepts(a));
                        }
                    }
                    }
                }
                assert((old(self).transformers_obey() && t.obeys()) ==> self.transformers_obey()) by {
                    if old(self).transformers_obey() && t.obeys() {
                        assert forall|k: int| 0 <= k < self.transformers().len() implies
                            #[trigger] self.transformers()[k].transformer.obeys() by {
                            if k != i {
                                assert(self.transformers@[k].transformer == ots[k].transformer);
                                assert(old(self).transformers()[k].transformer.obeys());
                            } else {
                                assert(self.transformers@[k].transformer == ge.transformer);
                            }
                        }
                    }
                }
            },
            None => {
                assert forall|j: int| 0 <= j < self.transformer_names@.len() implies
                    self.transformer_names@[j]@ != name@ by {
                    assert(on[j] == self.transformer_names@[j]@);
                }
                let ghost ots = self.transformers@;
                self.transformer_names.push(name);
                self.transformers.push(entry);
                assert(self.transformer_names() =~= on.push(rule_name@));
                assert(self.transformer_names().drop_last() =~= on);
                assert forall|m: Seq<char>| m != rule_name@ implies
                    lookup_rule(#[trigger] self.transformer_names(), m) == lookup_rule(on, m) by {}
                assert forall|m: Seq<char>| m != rule_name@ && old(self).has_transformer(m) implies
                    #[trigger] self.transformer(m) == old(self).transformer(m) by {
                    lemma_lookup_spec(on, m);
                    let j = lookup_rule(on, m)->0;
                    assert(self.transformers@[j as int].transformer == ots[j as int].transformer);
                }
                assert((old(self).transformers_total() && forall|a: Ast| #[trigger] t.accepts(a))
                    ==> self.transformers_total()) by {
                    if old(self).transformers_total() && forall|a: Ast| #[trigger] t.accepts(a) {
                    assert forall|k: int, a: Ast| 0 <= k < self.transformers().len() implies
                        #[trigger] self.transformers()[k].transformer.accepts(a) by {
                        if k < ots.len() {
                            assert(self.transformers@[k].transformer == ots[k].transformer);
                            assert(old(self).transformers()[k].transformer.accepts(a));
                        } else {
                            assert(self.transformers@[k].transformer == ge.transformer);
                            assert(ge.transformer.accepts(a) == t.accepts(a));
                        }
                    }
                    }
                }
                assert((old(self).transformers_obey() && t.obeys()) ==> self.transformers_obey()) by {
                    if old(self).transformers_obey() && t.obeys() {
                        assert forall|k: int| 0 <= k < self.transformers().len() implies
                            #[trigger] self.transformers()[k].transformer.obeys() by {
                            if k < ots.len() {
                                assert(self.transformers@[k].transformer == ots[k].transformer);
                                assert(old(self).transformers()[k].transformer.obeys());
                            } else {
                                assert(self.transformers@[k].transformer == ge.transformer);
                            }
                        }
                    }
                }
            },
        }
    }

    /// Whether a transformer is registered for the named rule.
    pub fn get_ast_transformer(&self, rule_name: &str) -> (r: Option<&Box<dyn AstTransformer>>)
        requires
            self.wf(),
        ensures
            r is Some == self.has_transformer(rule_name@),
            r matches Some(t) ==> {
                &&& t.obeys() == self.transformer(rule_name@).obeys()
                &&& forall|a: AstView| #[trigger] t.spec_transform(a) == self.transformer(rule_name@).spec_transform(a)
                &&& forall|a: Ast| #[trigger] t.accepts(a) == self.transformer(rule_name@).accepts(a)
                &&& forall|a: Ast, b: Ast| #[trigger] t.transforms(a, b) == self.transformer(rule_name@).transforms(a, b)
            },
    {
        let key = String::from_str(rule_name);
        match self.transformer_index(&key) {
            Some(i) => {
                assert(lookup_rule(self.transformer_names(), rule_name@) == Some(i));
                proof {
                    self.lemma_transformer_at(rule_name@, i);
                }
                Some(self.transformer_at(i))
            },
            None => None,
        }
    }

    /// The position of the transformer for `name` in [`Grammar::transformers`].
    pub fn transformer_index(&self, name: &String) -> (r: Option<usize>)
        requires
            self.wf(),
        ensures
            r == lookup_rule(self.transformer_names(), name@),
            r matches Some(i) ==> i < self.transformers().len(),
    {
        crate::graph::find_rule_pub(&self.transformer_names, name)
    }

    /// The transformer at position `i`.
    pub fn transformer_at(&self, i: usize) -> (r: &Box<dyn AstTransformer>)
        requires
            self.wf(),
            i < self.transformers().len(),
        ensures
            *r == self.transformers()[i as int].transformer,
    {
        &self.transformers[i].transformer
    }

    /// Compile the grammar into a syntax graph. Idempotent. The start rule
    /// must be set and defined.
    pub fn compile(&mut self)
        requires
            old(self).wf(),
            old(self).is_compiled() || (old(self).start() matches Some(s) && lookup_rule(old(self).names(), s) is Some),
        ensures
            final(self).is_compiled(),
            final(self).names() == old(self).names(),
            final(self).bodies() == old(self).bodies(),
            final(self).start() == old(self).start(),
            final(self).transformer_names() == old(self).transformer_names(),
            final(self).transformers() == old(self).transformers(),
            old(self).is_compiled() ==> final(self).graph_view() == old(self).graph_view(),
            !old(self).is_compiled() ==> final(self).graph_view() == old(self).spec_graph(),
            graph_wf(final(self).graph_view()),
            final(self).wf(),
    {
        if self.graph.is_some() {
            return;
        }
        let si = match &self.start_rule {
            Some(s) => crate::graph::find_rule_pub(&self.rule_names, s),
            None => None,
        };
        let _n = self.rule_names.len();
        proof {
            lemma_lookup_spec(names_view(self.rule_names@), self.start()->0);
        }
        let g = compile_graph(&self.rule_names, &self.rule_defs, si);
        assert(g@.root is Some);
        self.graph = Some(Rc::new(g));
    }

    /// The graph of a compiled grammar is well formed and has the shape of a compiled graph.
    pub proof fn lemma_compiled_shape(self)
        requires
            self.wf(),
            self.is_compiled(),
        ensures
            graph_wf(self.graph_view()),
            shape_ok(self.graph_view()),
            self.graph_view().root is Some,
    {
    }

    /// After `compile`, the start node leads into the start rule: its one
    /// child is a `RuleStart` node named after the start rule, and that
    /// node's one child is the entry of the body of the start rule.
    pub proof fn lemma_start_node_enters_start_rule(self)
        requires
            self.wf(),
            self.is_compiled(),
            self.graph_view() == self.spec_graph(),
        ensures
            self.start() is Some,
            ({
                let g = self.graph_view();
                let s = self.start()->0;
                let c = moves(g, self.start_pos())[0];
                &&& moves(g, self.start_pos()).len() == 1
                &&& g.nodes[c.1 as int].kind == KindView::RuleStart(s)
                &&& g.nodes[c.1 as int].call matches Some(cl) && g.bodies[cl.0 as int].name == s
                &&& moves(g, c) == seq![(seq![c.1], g.bodies[callee_of(g, c.1) as int].entry)]
            }),
    {
        let g = self.graph_view();
        assert(g.root is Some);
        let si = lookup_rule(self.names(), self.start()->0)->0;
        lemma_lookup_spec(self.names(), self.start()->0);
        lemma_start_enters_rule(self.names(), self.bodies(), si);
    }

    /// Rule references are independent: in a compiled grammar each reference
    /// node has a `RuleEnd` node of its own, no other reference returns to
    /// it, and a walk that leaves a rule body returns to the `RuleEnd` node
    /// of the reference it entered the body through.
    pub proof fn lemma_references_independent(self, n1: int, n2: int, p: SPos)
        requires
            self.wf(),
            self.is_compiled(),
            0 <= n1 < self.graph_view().nodes.len(),
            0 <= n2 < self.graph_view().nodes.len(),
            n1 != n2,
            self.graph_view().nodes[n1].call is Some,
            self.graph_view().nodes[n2].call is Some,
        ensures
            crate::graph::call_end(self.graph_view().nodes[n1].call) != crate::graph::call_end(
                self.graph_view().nodes[n2].call,
            ),
            self.graph_view().nodes[crate::graph::call_end(self.graph_view().nodes[n1].call) as int].kind is RuleEnd,
            crate::graph::pos_ok(self.graph_view(), p) && crate::graph::pops_at(self.graph_view(), p) ==> crate::graph::moves(
                self.graph_view(),
                p,
            ).last() == (p.0.drop_last(), crate::graph::end_of(self.graph_view(), p.0.last())),
    {
        let g = self.graph_view();
        if crate::graph::pos_ok(g, p) && crate::graph::pops_at(g, p) {
            assert(p.0[p.0.len() - 1] < g.nodes.len() && g.nodes[p.0.last() as int].call is Some);
            assert(g.nodes[p.1 as int].call is None);
        }
    }

    /// The registered transformer for `name` is the one at its position.
    pub proof fn lemma_transformer_at(self, name: Seq<char>, i: usize)
        requires
            lookup_rule(self.transformer_names(), name) == Some(i),
        ensures
            self.transformer(name).obeys() == self.transformers()[i as int].transformer.obeys(),
            forall|a: AstView| #[trigger] self.transformer(name).spec_transform(a) == self.transformers()[i as int].transformer.spec_transform(a),
            forall|a: Ast| #[trigger] self.transformer(name).accepts(a) == self.transformers()[i as int].transformer.accepts(a),
            forall|a: Ast, b: Ast| #[trigger] self.transformer(name).transforms(a, b) == self.transformers()[i as int].transformer.transforms(a, b),
    {
    }

    pub fn graph(&self) -> (r: &SyntaxGraph)
        requires
            self.wf(),
            self.is_compiled(),
        ensures
            r@ == self.graph_view(),
            graph_wf(r@),
            r@.root is Some,
    {
        match &self.graph {
            Some(g) => &**g,
            None => vstd::pervasive::unreached(),
        }
    }

    /// The compiled graph, shared with the nodes made from it.
    fn shared_graph(&self) -> (r: &Rc<SyntaxGraph>)
        requires
            self.wf(),
            self.is_compiled(),
        ensures
            (**r)@ == self.graph_view(),
            graph_wf((**r)@),
    {
        match &self.graph {
            Some(g) => g,
            None => vstd::pervasive::unreached(),
        }
    }

    /// The entry node of `e` compiled after the rules of this grammar: a
    /// rule reference in `e` leads into the body of the rule it names (see
    /// [`crate::graph::lemma_rule_ref_enters_body`]).
    pub fn element_in_node(&self, e: &GrammarElement) -> (r: NodeRef)
        requires
            self.wf(),
        ensures
            r.node_ok(),
            r.graph_view() == crate::graph::spec_compile_element_in(self.names(), self.bodies(), e@).0,
            r.position() == (Seq::<usize>::empty(), crate::graph::spec_compile_element_in(
                self.names(),
                self.bodies(),
                e@,
            ).1),
            r.graph_view().nodes.len() <= usize::MAX,
            self.names().len() <= usize::MAX,
    {
        let (g, i, _o) = crate::graph::compile_element_in(&self.rule_names, &self.rule_defs, e);
        let _n = self.rule_names.len();
        let p = Pos { frames: Vec::new(), node: i };
        assert(p.frames@ =~= Seq::<usize>::empty());
        GrammarNode::at(&Rc::new(g), &p)
    }

    /// The exit node of `e` compiled after the rules of this grammar.
    pub fn element_out_node(&self, e: &GrammarElement) -> (r: NodeRef)
        requires
            self.wf(),
        ensures
            r.node_ok(),
            r.graph_view() == crate::graph::spec_compile_element_in(self.names(), self.bodies(), e@).0,
            r.position() == (Seq::<usize>::empty(), crate::graph::spec_compile_element_in(
                self.names(),
                self.bodies(),
                e@,
            ).2),
    {
        let (g, _i, o) = crate::graph::compile_element_in(&self.rule_names, &self.rule_defs, e);
        let p = Pos { frames: Vec::new(), node: o };
        assert(p.frames@ =~= Seq::<usize>::empty());
        GrammarNode::at(&Rc::new(g), &p)
    }

    /// The position of the global start node.
    pub open spec fn start_pos(self) -> SPos {
        (Seq::empty(), (self.graph_view().root->0).0)
    }

    /// The position of the global end node.
    pub open spec fn end_pos(self) -> SPos {
        (Seq::empty(), (self.graph_view().root->0).1)
    }

    fn root_pos(&self, at_end: bool) -> (r: Pos)
        requires
            self.wf(),
            self.is_compiled(),
        ensures
            r@ == if at_end {
                self.end_pos()
            } else {
                self.start_pos()
            },
            pos_ok(self.graph_view(), r@),
    {
        let g = self.graph();
        let node = match g.root {
            Some((s, e)) => if at_end {
                e
            } else {
                s
            },
            None => vstd::pervasive::unreached(),
        };
        let p = Pos { frames: Vec::new(), node };
        assert(p.frames@ =~= Seq::<usize>::empty());
        p
    }

    pub fn start_pos_exec(&self) -> (r: Pos)
        requires
            self.wf(),
            self.is_compiled(),
        ensures
            r@ == self.start_pos(),
            pos_ok(self.graph_view(), r@),
    {
        self.root_pos(false)
    }

    pub fn end_pos_exec(&self) -> (r: Pos)
        requires
            self.wf(),
            self.is_compiled(),
        ensures
            r@ == self.end_pos(),
            pos_ok(self.graph_view(), r@),
    {
        self.root_pos(true)
    }

    /// Rule `name` was compiled into the graph.
    pub open spec fn has_compiled_rule(self, name: Seq<char>) -> bool {
        lookup_rule(body_names(self.graph_view()), name) is Some
    }

    /// The position of the reference node through which rule `name` is parsed on its own.
    pub open spec fn rule_start_pos(self, name: Seq<char>) -> SPos {
        (Seq::empty(), self.graph_view().bodies[lookup_rule(body_names(self.graph_view()), name)->0 as int].start)
    }

    /// The position of the `RuleEnd` node of that reference.
    pub open spec fn rule_end_pos(self, name: Seq<char>) -> SPos {
        (Seq::empty(), self.graph_view().bodies[lookup_rule(body_names(self.graph_view()), name)->0 as int].end)
    }

    pub fn rule_pos_exec(&self, name: &str) -> (r: (Pos, Pos))
        requires
            self.wf(),
            self.is_compiled(),
            self.has_compiled_rule(name@),
        ensures
            r.0@ == self.rule_start_pos(name@),
            r.1@ == self.rule_end_pos(name@),
            pos_ok(self.graph_view(), r.0@),
            pos_ok(self.graph_view(), r.1@),
    {
        let g = self.graph();
        let i = match g.find_body(name) {
            Some(i) => i,
            None => vstd::pervasive::unreached(),
        };
        let b = &g.bodies[i];
        assert(g@.bodies[i as int] == b@);
        assert(g@.bodies[i as int].entry < g@.nodes.len());
        let s = Pos { frames: Vec::new(), node: b.start };
        let e = Pos { frames: Vec::new(), node: b.end };
        assert(s.frames@ =~= Seq::<usize>::empty());
        assert(e.frames@ =~= Seq::<usize>::empty());
        (s, e)
    }

    /// The global start node of the compiled syntax graph.
    pub fn start_node(&self) -> (r: NodeRef)
        requires
            self.wf(),
            self.is_compiled(),
        ensures
            r.node_ok(),
            r.graph_view() == self.graph_view(),
            r.position() == self.start_pos(),
    {
        GrammarNode::at(self.shared_graph(), &self.root_pos(false))
    }

    /// The global end node of the compiled syntax graph.
    pub fn end_node(&self) -> (r: NodeRef)
        requires
            self.wf(),
            self.is_compiled(),
        ensures
            r.node_ok(),
            r.graph_view() == self.graph_view(),
            r.position() == self.end_pos(),
    {
        GrammarNode::at(self.shared_graph(), &self.root_pos(true))
    }

    /// Whether every token-free walk in the compiled graph is bounded, as
    /// decided by [`check_bounded_walks`].
    pub fn walks_bounded(&self) -> (r: bool)
        requires
            self.wf(),
            self.is_compiled(),
        ensures
            r == walk_check(self.graph_view()),
            r ==> has_bounded_walks(self.graph_view()),
    {
        check_bounded_walks(self.graph())
    }

    /// A token-free walk from `node` to the global end node (see
    /// [`find_epsilon_path`]), on any compiled grammar: `None` exactly when
    /// no token-free walk reaches the end node.
    pub fn find_path_to_end(&self, node: &NodeRef) -> (r: Option<Vec<NodeRef>>)
        requires
            self.wf(),
            self.is_compiled(),
            node.node_ok(),
            node.graph_view() == self.graph_view(),
        ensures
            r matches Some(v) ==> {
                &&& forall|j: int|
                    0 <= j < v@.len() ==> (#[trigger] v@[j]).graph_view() == self.graph_view() && v@[j].node_ok()
                &&& exists|w: Seq<SPos>|
                    #[trigger] eps_found(
                        self.graph_view(),
                        search_cap(self.graph_view(), node.position()),
                        at_pos(self.end_pos()),
                        node.position(),
                        w,
                    ) && nodes_positions(v@) == recorded(self.graph_view(), w)
            },
            r is None ==> forall|w: Seq<SPos>|
                #[trigger] eps_walk(self.graph_view(), search_cap(self.graph_view(), node.position()), w) && w[0]
                    == node.position() ==> w.last() != self.end_pos(),
            r is None && node.position().0.len() + self.graph_view().nodes.len() <= usize::MAX ==> forall|
                c: nat,
                w: Seq<SPos>,
            | #[trigger] eps_walk(self.graph_view(), c, w) && w[0] == node.position() ==> w.last() != self.end_pos(),
    {
        let g = self.graph();
        let end = self.root_pos(true);
        let endr = &end;
        let stop_fn = |q: &Pos| -> (b: bool)
            ensures
                b == (q@ == endr@),
            { q.same(endr) };
        match g.eps_search(node.pos(), &stop_fn, Ghost(at_pos(end@))) {
            Some(path) => Some(nodes_of(self.shared_graph(), &path)),
            None => {
                assert forall|c: nat, w: Seq<SPos>|
                    node.position().0.len() + self.graph_view().nodes.len() <= usize::MAX && #[trigger] eps_walk(
                        self.graph_view(),
                        c,
                        w,
                    ) && w[0] == node.position() implies w.last() != self.end_pos() by {
                    if w.last() == self.end_pos() {
                        assert(w.last().0.len() == 0);
                        assert(!at_pos(end@)(w.last()));
                    }
                }
                None
            },
        }
    }
}

impl Default for Grammar {
    /// An empty grammar (see [`Grammar::new`]).
    fn default() -> (g: Grammar)
        ensures
            g.names() == Seq::<Seq<char>>::empty(),
            g.bodies() == Seq::<ElementView>::empty(),
            g.start() is None,
            g.transformer_names() == Seq::<Seq<char>>::empty(),
            g.transformers().len() == 0,
            !g.is_compiled(),
            g.wf(),
    {
        Grammar::new()
    }
}

} // verus!
