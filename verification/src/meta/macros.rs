//! Expansion of macros in the tree of a grammar definition.
//!
//! A `macro` node defines a macro: a `name` child, a `parameters` child
//! whose children name the parameters, and the body as the third child. A
//! `macro_call` node has a `name` child and an `arguments` child; a
//! `param_ref` node refers to a parameter by its value. Expansion removes
//! the definitions and replaces calls by their bodies with the arguments
//! substituted.
use vstd::prelude::*;

use crate::ast::{lemma_ast_view, Ast, AstView};

verus! {

/// A macro: its parameter names and its body.
pub struct MacroDef {
    pub params: Seq<Seq<char>>,
    pub body: AstView,
}

struct MacroDefinition {
    parameters: Vec<String>,
    body: Ast,
}

impl View for MacroDefinition {
    type V = MacroDef;

    closed spec fn view(&self) -> MacroDef {
        MacroDef { params: Seq::new(self.parameters@.len(), |i: int| self.parameters@[i]@), body: self.body@ }
    }
}

/// The map of a list of named entries in which a later entry replaces an
/// earlier one of the same name.
pub open spec fn last_wins<T: View>(v: Seq<(String, T)>) -> Map<Seq<char>, T::V>
    decreases v.len(),
{
    if v.len() == 0 {
        Map::empty()
    } else {
        last_wins(v.drop_last()).insert(v.last().0@, v.last().1@)
    }
}

proof fn lemma_last_wins_absent<T: View>(v: Seq<(String, T)>, k: Seq<char>)
    requires
        forall|j: int| 0 <= j < v.len() ==> v[j].0@ != k,
    ensures
        !last_wins(v).contains_key(k),
    decreases v.len(),
{
    if v.len() > 0 {
        lemma_last_wins_absent(v.drop_last(), k);
    }
}

proof fn lemma_last_wins_at<T: View>(v: Seq<(String, T)>, i: int)
    requires
        0 <= i < v.len(),
        forall|j: int| i < j < v.len() ==> v[j].0@ != v[i].0@,
    ensures
        last_wins(v).contains_key(v[i].0@),
        last_wins(v)[v[i].0@] == v[i].1@,
    decreases v.len(),
{
    if i < v.len() - 1 {
        lemma_last_wins_at(v.drop_last(), i);
    }
}

/// The index of the last entry called `key`.
fn find_last<T: View>(v: &Vec<(String, T)>, key: &String) -> (r: Option<usize>)
    ensures
        match r {
            Some(i) => i < v@.len() && last_wins(v@).contains_key(key@) && last_wins(v@)[key@] == v@[i as int].1@,
            None => !last_wins(v@).contains_key(key@),
        },
{
    let n = v.len();
    let mut k = n;
    while k > 0
        invariant
            k <= n,
            n == v@.len(),
            forall|j: int| k <= j < n ==> v@[j].0@ != key@,
        decreases k,
    {
        if v[k - 1].0 == *key {
            proof {
                lemma_last_wins_at(v@, k - 1);
            }
            return Some(k - 1);
        }
        k = k - 1;
    }
    proof {
        lemma_last_wins_absent(v@, key@);
    }
    None
}

/// The first of `cs` called `name`.
pub open spec fn child_named(cs: Seq<AstView>, name: Seq<char>, k: int) -> Option<AstView>
    decreases cs.len() - k,
{
    if k < 0 || k >= cs.len() {
        None
    } else if cs[k].name == name {
        Some(cs[k])
    } else {
        child_named(cs, name, k + 1)
    }
}

/// The value of the `name` child.
pub open spec fn name_value(a: AstView) -> Option<Seq<char>> {
    match child_named(a.children, "name"@, 0) {
        Some(n) => n.value,
        None => None,
    }
}

/// The values of the nodes `cs`, when all of them have one.
pub open spec fn values_of(cs: Seq<AstView>) -> Option<Seq<Seq<char>>>
    decreases cs.len(),
{
    if cs.len() == 0 {
        Some(seq![])
    } else {
        match (values_of(cs.drop_last()), cs.last().value) {
            (Some(vs), Some(v)) => Some(vs.push(v)),
            _ => None,
        }
    }
}

/// The definition a `macro` node makes, when it is well-formed.
pub open spec fn def_of(a: AstView) -> Option<(Seq<char>, MacroDef)> {
    match (name_value(a), child_named(a.children, "parameters"@, 0)) {
        (Some(n), Some(ps)) => match values_of(ps.children) {
            Some(params) => if a.children.len() >= 3 {
                Some((n, MacroDef { params, body: a.children[2] }))
            } else {
                None
            },
            None => None,
        },
        _ => None,
    }
}

/// The definitions of the `macro` nodes of `a`, in pre-order, added to
/// `defs` (a later one replaces an earlier one); `None` for a malformed one.
pub open spec fn find_defs(a: AstView, defs: Map<Seq<char>, MacroDef>) -> Option<Map<Seq<char>, MacroDef>>
    decreases a, 1int,
{
    let here = if a.name == "macro"@ {
        match def_of(a) {
            Some((n, d)) => Some(defs.insert(n, d)),
            None => None,
        }
    } else {
        Some(defs)
    };
    match here {
        Some(d) => find_defs_seq(a.children, a.children.len() as int, d),
        None => None,
    }
}

pub open spec fn find_defs_seq(cs: Seq<AstView>, k: int, defs: Map<Seq<char>, MacroDef>) -> Option<
    Map<Seq<char>, MacroDef>,
>
    decreases cs, k,
{
    if k <= 0 || k > cs.len() {
        Some(defs)
    } else {
        match find_defs_seq(cs, k - 1, defs) {
            Some(d) => find_defs(cs[k - 1], d),
            None => None,
        }
    }
}

/// The value a parameter name refers to, looked up from frame `idx` down:
/// a `param_ref` value is followed to the frame below.
pub open spec fn lookup_param(args: Seq<Map<Seq<char>, AstView>>, idx: int, p: Seq<char>) -> Option<AstView>
    decreases idx + 1,
{
    if idx < 0 || idx >= args.len() || !args[idx].contains_key(p) {
        None
    } else {
        let v = args[idx][p];
        if v.name != "param_ref"@ {
            Some(v)
        } else {
            match v.value {
                Some(p2) => lookup_param(args, idx - 1, p2),
                None => None,
            }
        }
    }
}

/// The arguments bound to the parameters, in order (a later binding of a
/// name replaces an earlier one).
pub open spec fn bind(params: Seq<Seq<char>>, vals: Seq<AstView>) -> Map<Seq<char>, AstView>
    decreases params.len(),
{
    if params.len() == 0 || vals.len() < params.len() {
        Map::empty()
    } else {
        bind(params.drop_last(), vals.take(params.len() - 1)).insert(params.last(), vals[params.len() - 1])
    }
}

/// The evaluation of a node with argument frames `args`: `Some(Some(n))`
/// for the node it becomes, `Some(None)` when it disappears (a
/// definition), `None` when the evaluation fails or needs more than `fuel`
/// steps.
pub open spec fn ev(
    defs: Map<Seq<char>, MacroDef>,
    args: Seq<Map<Seq<char>, AstView>>,
    a: AstView,
    fuel: nat,
) -> Option<Option<AstView>>
    decreases fuel, 0int,
{
    if fuel == 0 {
        None
    } else if a.name == "macro"@ {
        Some(None)
    } else if a.name == "macro_call"@ {
        ev_call(defs, args, a, (fuel - 1) as nat)
    } else if a.name == "param_ref"@ {
        match a.value {
            Some(p) => Some(lookup_param(args, args.len() - 1, p)),
            None => Some(None),
        }
    } else {
        match ev_seq(defs, args, a.children, a.children.len() as int, (fuel - 1) as nat) {
            Some(cs) => Some(Some(AstView { children: cs, ..a })),
            None => None,
        }
    }
}

/// The evaluations of the first `k` nodes of `cs` that do not disappear.
pub open spec fn ev_seq(
    defs: Map<Seq<char>, MacroDef>,
    args: Seq<Map<Seq<char>, AstView>>,
    cs: Seq<AstView>,
    k: int,
    fuel: nat,
) -> Option<Seq<AstView>>
    decreases fuel, k + 1,
{
    if k <= 0 || k > cs.len() {
        Some(seq![])
    } else {
        match ev_seq(defs, args, cs, k - 1, fuel) {
            Some(done) => match ev(defs, args, cs[k - 1], fuel) {
                Some(Some(c)) => Some(done.push(c)),
                Some(None) => Some(done),
                None => None,
            },
            None => None,
        }
    }
}

/// The evaluation of a macro call: the arguments are evaluated, bound to
/// the macro's parameters in a new frame, and the body is evaluated there.
pub open spec fn ev_call(
    defs: Map<Seq<char>, MacroDef>,
    args: Seq<Map<Seq<char>, AstView>>,
    call: AstView,
    fuel: nat,
) -> Option<Option<AstView>>
    decreases fuel, 0int,
{
    if fuel == 0 {
        None
    } else {
        match (name_value(call), child_named(call.children, "arguments"@, 0)) {
            (Some(n), Some(an)) => match ev_seq(defs, args, an.children, an.children.len() as int, (fuel - 1) as nat) {
                Some(vals) => if defs.contains_key(n) && defs[n].params.len() == vals.len() {
                    match ev(defs, args.push(bind(defs[n].params, vals)), defs[n].body, (fuel - 1) as nat) {
                        Some(Some(b)) => Some(Some(b)),
                        _ => None,
                    }
                } else {
                    None
                },
                None => None,
            },
            _ => None,
        }
    }
}

/// Binding distinct parameter names to values binds the `i`-th name to the
/// `i`-th value.
pub proof fn lemma_bind_at(params: Seq<Seq<char>>, vals: Seq<AstView>, i: int)
    requires
        params.no_duplicates(),
        params.len() <= vals.len(),
        0 <= i < params.len(),
    ensures
        bind(params, vals).contains_key(params[i]),
        bind(params, vals)[params[i]] == vals[i],
    decreases params.len(),
{
    let n = params.len() - 1;
    if i < n {
        let ps = params.drop_last();
        assert(ps.no_duplicates()) by {
            assert forall|a: int, b: int| 0 <= a < ps.len() && 0 <= b < ps.len() && a != b implies ps[a]
                != ps[b] by {
                assert(params[a] != params[b]);
            }
        }
        assert(params[i] != params[n]);
        lemma_bind_at(ps, vals.take(n), i);
        assert(ps[i] == params[i]);
    }
}

/// A macro call binds the macro's `i`-th parameter to its `i`-th argument:
/// when the arguments of a call evaluate to `vals` and the macro's body is a
/// reference to its `i`-th parameter, the call becomes the `i`-th
/// argument's value (a value that is no parameter reference itself).
pub proof fn lemma_call_binds_in_order(
    defs: Map<Seq<char>, MacroDef>,
    args: Seq<Map<Seq<char>, AstView>>,
    call: AstView,
    an: AstView,
    vals: Seq<AstView>,
    fuel: nat,
    i: int,
)
    requires
        fuel >= 2,
        name_value(call) matches Some(n) && defs.contains_key(n) && ({
            let d = defs[n];
            &&& d.params.no_duplicates()
            &&& d.params.len() == vals.len()
            &&& 0 <= i < vals.len()
            &&& d.body.name == "param_ref"@
            &&& d.body.value == Some(d.params[i])
        }),
        child_named(call.children, "arguments"@, 0) == Some(an),
        ev_seq(defs, args, an.children, an.children.len() as int, (fuel - 1) as nat) == Some(vals),
        vals[i].name != "param_ref"@,
    ensures
        ev_call(defs, args, call, fuel) == Some(Some(vals[i])),
{
    let n = name_value(call)->0;
    let d = defs[n];
    lemma_bind_at(d.params, vals, i);
    let args2 = args.push(bind(d.params, vals));
    assert(args2[args2.len() - 1] == bind(d.params, vals));
    assert(lookup_param(args2, args2.len() - 1, d.params[i]) == Some(vals[i]));
    reveal_strlit("macro");
    reveal_strlit("macro_call");
    reveal_strlit("param_ref");
    assert("macro"@.len() == 5 && "macro_call"@.len() == 10 && "param_ref"@.len() == 9);
    assert(d.body.name != "macro"@);
    assert(d.body.name != "macro_call"@);
    assert(ev(defs, args2, d.body, (fuel - 1) as nat) == Some(Some(vals[i])));
}

/// The expansion of `a`, when its definitions are well-formed and its
/// evaluation succeeds within `fuel` steps.
pub open spec fn expansion(a: AstView, fuel: nat) -> Option<AstView> {
    match find_defs(a, Map::empty()) {
        Some(defs) => match ev(defs, seq![], a, fuel) {
            Some(Some(r)) => Some(r),
            _ => None,
        },
        None => None,
    }
}

pub proof fn lemma_ev_seq_prefix(
    defs: Map<Seq<char>, MacroDef>,
    args: Seq<Map<Seq<char>, AstView>>,
    cs: Seq<AstView>,
    k: int,
    j: int,
    fuel: nat,
)
    requires
        0 <= j < k <= cs.len(),
        ev_seq(defs, args, cs, k, fuel) is Some,
    ensures
        ev_seq(defs, args, cs, j, fuel) is Some,
        ev(defs, args, cs[j], fuel) is Some,
    decreases k,
{
    if j < k - 1 {
        lemma_ev_seq_prefix(defs, args, cs, k - 1, j, fuel);
    }
}

proof fn lemma_bind<T: View<V = AstView>>(params: Seq<Seq<char>>, frame: Seq<(String, T)>, vals: Seq<AstView>)
    requires
        frame.len() == params.len(),
        vals.len() == params.len(),
        forall|i: int| 0 <= i < frame.len() ==> frame[i].0@ == params[i] && frame[i].1@ == vals[i],
    ensures
        last_wins(frame) == bind(params, vals),
    decreases params.len(),
{
    if params.len() > 0 {
        let n = params.len() - 1;
        lemma_bind(params.drop_last(), frame.drop_last(), vals.take(n as int));
    }
}

pub open spec fn views(v: Seq<Ast>) -> Seq<AstView> {
    Seq::new(v.len(), |i: int| v[i]@)
}

fn child_named_exec<'a>(cs: &'a Vec<Ast>, name: &str) -> (r: Option<&'a Ast>)
    ensures
        match child_named(views(cs@), name@, 0) {
            Some(c) => r matches Some(x) && x@ == c,
            None => r is None,
        },
{
    let n = cs.len();
    let key = String::from_str(name);
    for i in 0..n
        invariant
            n == cs@.len(),
            key@ == name@,
            child_named(views(cs@), name@, 0) == child_named(views(cs@), name@, i as int),
    {
        if cs[i].name == key {
            return Some(&cs[i]);
        }
    }
    None
}

fn value_of_name(a: &Ast) -> (r: Option<String>)
    ensures
        match name_value(a@) {
            Some(v) => r matches Some(s) && s@ == v,
            None => r is None,
        },
{
    proof {
        lemma_ast_view(*a);
        assert(views(a.children@) =~= a@.children);
    }
    match child_named_exec(&a.children, "name") {
        Some(n) => match &n.value {
            Some(v) => Some(v.clone()),
            None => None,
        },
        None => None,
    }
}

/// Expands macro calls in grammar definition trees.
pub struct MacroExpander {
    macros: Vec<(String, MacroDefinition)>,
    arguments: Vec<Vec<(String, Ast)>>,
}

pub open spec fn frame_views(v: Seq<Vec<(String, Ast)>>) -> Seq<Map<Seq<char>, AstView>> {
    Seq::new(v.len(), |i: int| last_wins(v[i]@))
}

impl MacroExpander {
    /// The macros found so far.
    pub closed spec fn defs(&self) -> Map<Seq<char>, MacroDef> {
        last_wins(self.macros@)
    }

    /// The argument frames of the calls being evaluated.
    pub closed spec fn frames(&self) -> Seq<Map<Seq<char>, AstView>> {
        frame_views(self.arguments@)
    }

    pub fn new() -> (m: MacroExpander)
        ensures
            m.defs() == Map::<Seq<char>, MacroDef>::empty(),
            m.frames().len() == 0,
    {
        MacroExpander { macros: Vec::new(), arguments: Vec::new() }
    }

    /// Remove the macro definitions from `ast` and replace each macro call
    /// by the macro's body with the arguments substituted. The definitions
    /// must be well-formed and the expansion must end (see [`expansion`]).
    pub fn expand_macros(&mut self, ast: Ast) -> (r: Ast)
        requires
            old(self).frames().len() == 0,
            exists|f: nat| #[trigger] expansion(ast@, f) is Some,
        ensures
            forall|f: nat| #[trigger] expansion(ast@, f) is Some ==> r@ == expansion(ast@, f)->0,
            final(self).frames().len() == 0,
    {
        let ghost f = choose|f: nat| #[trigger] expansion(ast@, f) is Some;
        self.find_macro_definitions(&ast);
        assert(self.frames() =~= Seq::<Map<Seq<char>, AstView>>::empty());
        let r = match self.eval_macro_calls(ast, Ghost(f)) {
            Some(r) => r,
            None => vstd::pervasive::unreached(),
        };
        proof {
            assert forall|f2: nat| #[trigger] expansion(ast@, f2) is Some implies r@ == expansion(ast@, f2)->0 by {
                let defs = find_defs(ast@, Map::empty())->0;
                if f <= f2 {
                    lemma_ev_fuel(defs, seq![], ast@, f, f2);
                } else {
                    lemma_ev_fuel(defs, seq![], ast@, f2, f);
                }
            }
        }
        r
    }

    fn find_macro_definitions(&mut self, ast: &Ast)
        requires
            find_defs(ast@, Map::empty()) is Some,
        ensures
            final(self).defs() == find_defs(ast@, Map::empty())->0,
            final(self).frames() == old(self).frames(),
    {
        self.macros = Vec::new();
        self.find_macro_defs(ast);
    }

    fn find_macro_defs(&mut self, ast: &Ast)
        requires
            find_defs(ast@, old(self).defs()) is Some,
        ensures
            final(self).defs() == find_defs(ast@, old(self).defs())->0,
            final(self).frames() == old(self).frames(),
        decreases ast,
    {
        proof {
            lemma_ast_view(*ast);
        }
        let ghost d0 = self.defs();
        if ast.name == String::from_str("macro") {
            let name = match value_of_name(ast) {
                Some(n) => n,
                None => vstd::pervasive::unreached(),
            };
            proof {
                assert(views(ast.children@) =~= ast@.children);
            }
            let ps = match child_named_exec(&ast.children, "parameters") {
                Some(p) => p,
                None => vstd::pervasive::unreached(),
            };
            let mut params: Vec<String> = Vec::new();
            let k = ps.children.len();
            proof {
                lemma_ast_view(*ps);
                lemma_values_of(ps@.children);
            }
            for i in 0..k
                invariant
                    k == ps.children@.len(),
                    k == ps@.children.len(),
                    forall|j: int| 0 <= j < k ==> #[trigger] ps.children@[j]@ == ps@.children[j],
                    values_of(ps@.children) is Some,
                    values_of(ps@.children) is Some ==> forall|j: int| 0 <= j < k ==> (#[trigger] ps@.children[j]).value is Some,
                    params@.len() == i,
                    forall|j: int| 0 <= j < i ==> (#[trigger] params@[j])@ == ps@.children[j].value->0,
            {
                proof {
                    lemma_ast_view(ps.children@[i as int]);
                }
                let v = match &ps.children[i].value {
                    Some(v) => v.clone(),
                    None => vstd::pervasive::unreached(),
                };
                params.push(v);
            }
            let body = ast.children[2].duplicate();
            let def = MacroDefinition { parameters: params, body };
            proof {
                lemma_values_of_eq(ps@.children, Seq::new(params@.len(), |j: int| params@[j]@));
                assert(ast@.children[2] == ast.children@[2]@);
            }
            let ghost before = self.macros@;
            self.macros.push((name, def));
            proof {
                assert(self.macros@.drop_last() =~= before);
            }
        }
        let ghost d1 = self.defs();
        assert(find_defs(ast@, d0) == find_defs_seq(ast@.children, ast@.children.len() as int, d1));
        let n = ast.children.len();
        for i in 0..n
            invariant
                n == ast.children@.len(),
                n == ast@.children.len(),
                forall|j: int| 0 <= j < n ==> #[trigger] ast.children@[j]@ == ast@.children[j],
                find_defs_seq(ast@.children, n as int, d1) is Some,
                find_defs_seq(ast@.children, i as int, d1) == Some(self.defs()),
                self.frames() == old(self).frames(),
        {
            proof {
                vstd::std_specs::vec::axiom_vec_index_decreases(ast.children, i as int);
                lemma_find_defs_prefix(ast@.children, n as int, i + 1, d1);
            }
            self.find_macro_defs(&ast.children[i]);
        }
    }

    fn eval_macro_calls(&mut self, ast: Ast, Ghost(fuel): Ghost<nat>) -> (r: Option<Ast>)
        requires
            ev(old(self).defs(), old(self).frames(), ast@, fuel) is Some,
        ensures
            match ev(old(self).defs(), old(self).frames(), ast@, fuel)->0 {
                Some(v) => r matches Some(x) && x@ == v,
                None => r is None,
            },
            final(self).defs() == old(self).defs(),
            final(self).frames() == old(self).frames(),
        decreases fuel, 0int,
    {
        proof {
            lemma_ast_view(ast);
        }
        if ast.name == String::from_str("macro") {
            return None;
        }
        if ast.name == String::from_str("macro_call") {
            return self.eval_macro_call(&ast, Ghost((fuel - 1) as nat));
        }
        if ast.name == String::from_str("param_ref") {
            if ast.value.is_none() {
                return None;
            }
            return self.eval_param_ref(&ast);
        }
        self.eval_other_node(ast, Ghost((fuel - 1) as nat))
    }

    fn eval_children(&mut self, cs: &Vec<Ast>, Ghost(fuel): Ghost<nat>) -> (r: Vec<Ast>)
        requires
            ev_seq(old(self).defs(), old(self).frames(), views(cs@), cs@.len() as int, fuel) is Some,
        ensures
            views(r@) == ev_seq(old(self).defs(), old(self).frames(), views(cs@), cs@.len() as int, fuel)->0,
            final(self).defs() == old(self).defs(),
            final(self).frames() == old(self).frames(),
        decreases fuel, cs@.len() + 1,
    {
        let ghost defs = self.defs();
        let ghost frames = self.frames();
        let ghost cv = views(cs@);
        let mut out: Vec<Ast> = Vec::new();
        let n = cs.len();
        for i in 0..n
            invariant
                n == cs@.len(),
                cv == views(cs@),
                defs == self.defs(),
                frames == self.frames(),
                defs == old(self).defs(),
                frames == old(self).frames(),
                ev_seq(defs, frames, cv, n as int, fuel) is Some,
                ev_seq(defs, frames, cv, i as int, fuel) == Some(views(out@)),
        {
            proof {
                lemma_ev_seq_prefix(defs, frames, cv, n as int, i as int, fuel);
            }
            let c = cs[i].duplicate();
            let ghost before = out@;
            match self.eval_macro_calls(c, Ghost(fuel)) {
                Some(x) => {
                    out.push(x);
                    assert(views(out@) =~= views(before).push(x@));
                },
                None => {},
            }
        }
        out
    }

    fn eval_other_node(&mut self, ast: Ast, Ghost(fuel): Ghost<nat>) -> (r: Option<Ast>)
        requires
            ev_seq(old(self).defs(), old(self).frames(), ast@.children, ast@.children.len() as int, fuel) is Some,
        ensures
            r matches Some(x) && x@ == (AstView {
                children: ev_seq(old(self).defs(), old(self).frames(), ast@.children, ast@.children.len() as int, fuel)->0,
                ..ast@
            }),
            final(self).defs() == old(self).defs(),
            final(self).frames() == old(self).frames(),
        decreases fuel, ast.children@.len() + 2,
    {
        proof {
            lemma_ast_view(ast);
            assert(views(ast.children@) =~= ast@.children);
        }
        let kids = self.eval_children(&ast.children, Ghost(fuel));
        let mut a = ast;
        a.children = kids;
        proof {
            assert(a@.children =~= views(kids@));
        }
        Some(a)
    }

    fn eval_param_ref(&self, ast: &Ast) -> (r: Option<Ast>)
        requires
            ast@.value is Some,
        ensures
            match lookup_param(self.frames(), self.frames().len() - 1, ast@.value->0) {
                Some(v) => r matches Some(x) && x@ == v,
                None => r is None,
            },
    {
        let mut param_name = match &ast.value {
            Some(v) => v.clone(),
            None => vstd::pervasive::unreached(),
        };
        let ghost frames = self.frames();
        let mut idx = self.arguments.len();
        while idx > 0
            invariant
                idx <= self.arguments@.len(),
                frames == self.frames(),
                lookup_param(frames, frames.len() - 1, ast@.value->0) == lookup_param(frames, idx - 1, param_name@),
            decreases idx,
        {
            let frame = &self.arguments[idx - 1];
            assert(frames[idx - 1] == last_wins(frame@));
            match find_last(frame, &param_name) {
                None => {
                    return None;
                },
                Some(i) => {
                    let value = &frame[i].1;
                    if value.name != String::from_str("param_ref") {
                        return Some(value.duplicate());
                    }
                    match &value.value {
                        Some(v) => {
                            param_name = v.clone();
                        },
                        None => {
                            return None;
                        },
                    }
                },
            }
            idx = idx - 1;
        }
        None
    }

    fn eval_macro_call(&mut self, call: &Ast, Ghost(fuel): Ghost<nat>) -> (r: Option<Ast>)
        requires
            ev_call(old(self).defs(), old(self).frames(), call@, fuel) is Some,
        ensures
            match ev_call(old(self).defs(), old(self).frames(), call@, fuel)->0 {
                Some(v) => r matches Some(x) && x@ == v,
                None => r is None,
            },
            final(self).defs() == old(self).defs(),
            final(self).frames() == old(self).frames(),
        decreases fuel, 1int,
    {
        let ghost defs = self.defs();
        let ghost frames = self.frames();
        proof {
            lemma_ast_view(*call);
            assert(views(call.children@) =~= call@.children);
        }
        let name = match value_of_name(call) {
            Some(n) => n,
            None => vstd::pervasive::unreached(),
        };
        let an = match child_named_exec(&call.children, "arguments") {
            Some(a) => a,
            None => vstd::pervasive::unreached(),
        };
        proof {
            lemma_ast_view(*an);
            assert(views(an.children@) =~= an@.children);
        }
        let vals = self.eval_children(&an.children, Ghost((fuel - 1) as nat));
        let di = match find_last(&self.macros, &name) {
            Some(i) => i,
            None => vstd::pervasive::unreached(),
        };
        let def = &self.macros[di].1;
        let ghost d = defs[name@];
        assert(def@ == d);
        let k = def.parameters.len();
        let mut frame: Vec<(String, Ast)> = Vec::new();
        for i in 0..k
            invariant
                k == def.parameters@.len(),
                k == vals@.len(),
                d == def@,
                frame@.len() == i,
                forall|j: int| 0 <= j < i ==> (#[trigger] frame@[j]).0@ == d.params[j] && frame@[j].1@ == views(vals@)[j],
        {
            frame.push((def.parameters[i].clone(), vals[i].duplicate()));
        }
        proof {
            lemma_bind(d.params, frame@, views(vals@));
        }
        let body = def.body.duplicate();
        let ghost before = self.arguments@;
        self.arguments.push(frame);
        assert(self.frames() =~= frames.push(bind(d.params, views(vals@))));
        let r = self.eval_macro_calls(body, Ghost((fuel - 1) as nat));
        let ghost mid = self.arguments@;
        self.arguments.pop();
        assert(self.frames() =~= frame_views(mid).drop_last());
        assert(self.frames() =~= frames);
        match r {
            Some(x) => Some(x),
            None => vstd::pervasive::unreached(),
        }
    }
}

proof fn lemma_values_of(cs: Seq<AstView>)
    ensures
        values_of(cs) is Some ==> forall|j: int| 0 <= j < cs.len() ==> (#[trigger] cs[j]).value is Some,
    decreases cs.len(),
{
    if cs.len() > 0 {
        lemma_values_of(cs.drop_last());
        if values_of(cs) is Some {
            assert forall|j: int| 0 <= j < cs.len() implies (#[trigger] cs[j]).value is Some by {
                if j < cs.len() - 1 {
                    assert(cs[j] == cs.drop_last()[j]);
                }
            }
        }
    }
}

proof fn lemma_values_of_eq(cs: Seq<AstView>, vs: Seq<Seq<char>>)
    requires
        vs.len() == cs.len(),
        forall|j: int| 0 <= j < cs.len() ==> cs[j].value == Some(#[trigger] vs[j]),
    ensures
        values_of(cs) == Some(vs),
    decreases cs.len(),
{
    if cs.len() > 0 {
        lemma_values_of_eq(cs.drop_last(), vs.drop_last());
        assert(vs.drop_last().push(vs.last()) =~= vs);
    } else {
        assert(vs =~= Seq::<Seq<char>>::empty());
    }
}

proof fn lemma_find_defs_prefix(cs: Seq<AstView>, k: int, j: int, defs: Map<Seq<char>, MacroDef>)
    requires
        0 < j <= k <= cs.len(),
        find_defs_seq(cs, k, defs) is Some,
    ensures
        find_defs_seq(cs, j, defs) is Some,
    decreases k,
{
    if j < k {
        lemma_find_defs_prefix(cs, k - 1, j, defs);
    }
}

/// Evaluation that succeeds with some fuel gives the same result with more.
pub proof fn lemma_ev_fuel(
    defs: Map<Seq<char>, MacroDef>,
    args: Seq<Map<Seq<char>, AstView>>,
    a: AstView,
    f1: nat,
    f2: nat,
)
    requires
        ev(defs, args, a, f1) is Some,
        f1 <= f2,
    ensures
        ev(defs, args, a, f2) == ev(defs, args, a, f1),
    decreases f1, 0int,
{
    assert(f1 > 0);
    if a.name == "macro"@ {
        assert(ev(defs, args, a, f2) == ev(defs, args, a, f1));
    } else if a.name == "macro_call"@ {
        lemma_ev_call_fuel(defs, args, a, (f1 - 1) as nat, (f2 - 1) as nat);
        assert(ev(defs, args, a, f2) == ev(defs, args, a, f1));
    } else if a.name == "param_ref"@ {
        assert(ev(defs, args, a, f2) == ev(defs, args, a, f1));
    } else {
        lemma_ev_seq_fuel(defs, args, a.children, a.children.len() as int, (f1 - 1) as nat, (f2 - 1) as nat);
        assert(ev_seq(defs, args, a.children, a.children.len() as int, (f2 - 1) as nat) == ev_seq(
            defs,
            args,
            a.children,
            a.children.len() as int,
            (f1 - 1) as nat,
        ));
    }
}

proof fn lemma_ev_seq_fuel(
    defs: Map<Seq<char>, MacroDef>,
    args: Seq<Map<Seq<char>, AstView>>,
    cs: Seq<AstView>,
    k: int,
    f1: nat,
    f2: nat,
)
    requires
        ev_seq(defs, args, cs, k, f1) is Some,
        f1 <= f2,
    ensures
        ev_seq(defs, args, cs, k, f2) == ev_seq(defs, args, cs, k, f1),
    decreases f1, k + 1,
{
    if 0 < k <= cs.len() {
        lemma_ev_seq_fuel(defs, args, cs, k - 1, f1, f2);
        lemma_ev_fuel(defs, args, cs[k - 1], f1, f2);
    }
}

proof fn lemma_ev_call_fuel(
    defs: Map<Seq<char>, MacroDef>,
    args: Seq<Map<Seq<char>, AstView>>,
    call: AstView,
    f1: nat,
    f2: nat,
)
    requires
        ev_call(defs, args, call, f1) is Some,
        f1 <= f2,
    ensures
        ev_call(defs, args, call, f2) == ev_call(defs, args, call, f1),
    decreases f1, 0int,
{
    let an = child_named(call.children, "arguments"@, 0)->0;
    lemma_ev_seq_fuel(defs, args, an.children, an.children.len() as int, (f1 - 1) as nat, (f2 - 1) as nat);
    let n = name_value(call)->0;
    let vals = ev_seq(defs, args, an.children, an.children.len() as int, (f1 - 1) as nat)->0;
    lemma_ev_fuel(defs, args.push(bind(defs[n].params, vals)), defs[n].body, (f1 - 1) as nat, (f2 - 1) as nat);
}

} // verus!
