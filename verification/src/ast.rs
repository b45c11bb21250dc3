use vstd::prelude::*;
use vstd::std_specs::convert::IntoSpec;

verus! {

/// A value that can be stored as an AST node attribute.
#[derive(Debug, Clone, PartialEq)]
pub enum AstAttr {
    Bool(bool),
    Str(String),
}

impl AstAttr {
    /// A copy equal to `self`.
    pub fn duplicate(&self) -> (r: AstAttr)
        ensures
            r == *self,
    {
        match self {
            AstAttr::Bool(b) => AstAttr::Bool(*b),
            AstAttr::Str(s) => AstAttr::Str(s.clone()),
        }
    }
}

impl From<bool> for AstAttr {
    fn from(v: bool) -> (r: Self) {
        AstAttr::Bool(v)
    }
}

impl vstd::std_specs::convert::FromSpecImpl<bool> for AstAttr {
    open spec fn obeys_from_spec() -> bool {
        true
    }

    open spec fn from_spec(v: bool) -> AstAttr {
        AstAttr::Bool(v)
    }
}

impl<'a> From<&'a str> for AstAttr {
    /// A string attribute holding the text of `v`.
    fn from(v: &'a str) -> (r: Self)
        ensures
            r matches AstAttr::Str(s) && s@ == v@,
    {
        AstAttr::Str(String::from_str(v))
    }
}

/// A `String` is not determined by its text in specifications, so this
/// conversion does not claim to compute `from_spec` (a string with the same
/// text); [`From::from`] states the text instead.
impl<'a> vstd::std_specs::convert::FromSpecImpl<&'a str> for AstAttr {
    open spec fn obeys_from_spec() -> bool {
        false
    }

    open spec fn from_spec(v: &'a str) -> AstAttr {
        AstAttr::Str(choose|s: String| s@ == v@)
    }
}

impl From<String> for AstAttr {
    fn from(v: String) -> (r: Self) {
        AstAttr::Str(v)
    }
}

impl vstd::std_specs::convert::FromSpecImpl<String> for AstAttr {
    open spec fn obeys_from_spec() -> bool {
        true
    }

    open spec fn from_spec(v: String) -> AstAttr {
        AstAttr::Str(v)
    }
}

/// The mathematical value of an [`Ast`] node.
pub struct AstView {
    pub name: Seq<char>,
    pub value: Option<Seq<char>>,
    pub id: Seq<char>,
    pub children: Seq<AstView>,
    pub attrs: Map<Seq<char>, AstAttr>,
}

pub open spec fn opt_str_view(v: Option<String>) -> Option<Seq<char>> {
    match v {
        Some(s) => Some(s@),
        None => None,
    }
}

/// The attribute map of an attribute list: the first entry for a name wins.
pub open spec fn attrs_map(v: Seq<(String, AstAttr)>) -> Map<Seq<char>, AstAttr>
    decreases v.len(),
{
    if v.len() == 0 {
        Map::empty()
    } else {
        attrs_map(v.drop_first()).insert(v[0].0@, v[0].1)
    }
}

/// A node in the Abstract Syntax Tree.
///
/// Rule nodes carry a `name` (the rule name) and no `value`.
/// Token nodes carry both a `name` (the token type) and a `value` (the matched text).
#[derive(Debug)]
pub struct Ast {
    pub name: String,
    pub value: Option<String>,
    pub id: String,
    pub children: Vec<Ast>,
    pub attributes: Vec<(String, AstAttr)>,
}

pub open spec fn empty_view() -> AstView {
    AstView {
        name: Seq::empty(),
        value: None,
        id: Seq::empty(),
        children: Seq::empty(),
        attrs: Map::empty(),
    }
}

impl Ast {
    pub open spec fn spec_view(self) -> AstView
        decreases self,
    {
        AstView {
            name: self.name@,
            value: opt_str_view(self.value),
            id: self.id@,
            children: Seq::new(
                self.children@.len(),
                |i: int|
                    if 0 <= i < self.children@.len() {
                        self.children@[i].spec_view()
                    } else {
                        empty_view()
                    },
            ),
            attrs: attrs_map(self.attributes@),
        }
    }

    /// The children as exec values.
    pub open spec fn child_values(self) -> Seq<Ast> {
        self.children@
    }
}

impl View for Ast {
    type V = AstView;

    open spec fn view(&self) -> AstView {
        self.spec_view()
    }
}

/// Relates the public fields and the children of an [`Ast`] to its view.
pub broadcast proof fn lemma_ast_view(a: Ast)
    ensures
        #[trigger] a@.name == a.name@,
        a@.value == opt_str_view(a.value),
        a@.id == a.id@,
        a@.children.len() == a.child_values().len(),
        forall|i: int| 0 <= i < a.child_values().len() ==> a@.children[i] == #[trigger] a.child_values()[i]@,
{
}

proof fn lemma_attrs_map_first(v: Seq<(String, AstAttr)>, i: int)
    requires
        0 <= i < v.len(),
        forall|j: int| 0 <= j < i ==> v[j].0@ != v[i].0@,
    ensures
        attrs_map(v).contains_key(v[i].0@),
        attrs_map(v)[v[i].0@] == v[i].1,
    decreases i,
{
    if i > 0 {
        lemma_attrs_map_first(v.drop_first(), i - 1);
    }
}

proof fn lemma_attrs_map_absent(v: Seq<(String, AstAttr)>, k: Seq<char>)
    requires
        forall|j: int| 0 <= j < v.len() ==> v[j].0@ != k,
    ensures
        !attrs_map(v).contains_key(k),
    decreases v.len(),
{
    if v.len() > 0 {
        lemma_attrs_map_absent(v.drop_first(), k);
    }
}

proof fn lemma_attrs_map_replace(v: Seq<(String, AstAttr)>, i: int, e: (String, AstAttr))
    requires
        0 <= i < v.len(),
        e.0@ == v[i].0@,
        forall|j: int| 0 <= j < i ==> v[j].0@ != v[i].0@,
    ensures
        attrs_map(v.update(i, e)) =~= attrs_map(v).insert(e.0@, e.1),
    decreases i,
{
    if i == 0 {
        assert(v.update(0, e).drop_first() =~= v.drop_first());
    } else {
        lemma_attrs_map_replace(v.drop_first(), i - 1, e);
        assert(v.update(i, e).drop_first() =~= v.drop_first().update(i - 1, e));
    }
}

proof fn lemma_attrs_map_push(v: Seq<(String, AstAttr)>, e: (String, AstAttr))
    requires
        forall|j: int| 0 <= j < v.len() ==> v[j].0@ != e.0@,
    ensures
        attrs_map(v.push(e)) =~= attrs_map(v).insert(e.0@, e.1),
    decreases v.len(),
{
    if v.len() == 0 {
        assert(v.push(e).drop_first() =~= Seq::<(String, AstAttr)>::empty());
        assert(attrs_map(v.push(e).drop_first()) == Map::<Seq<char>, AstAttr>::empty());
        assert(attrs_map(v) == Map::<Seq<char>, AstAttr>::empty());
    } else {
        lemma_attrs_map_push(v.drop_first(), e);
        assert(v.push(e).drop_first() =~= v.drop_first().push(e));
        assert(v.push(e)[0] == v[0]);
        assert(attrs_map(v.push(e)) == attrs_map(v.drop_first().push(e)).insert(v[0].0@, v[0].1));
        assert(attrs_map(v.drop_first()).insert(e.0@, e.1).insert(v[0].0@, v[0].1) =~= attrs_map(
            v.drop_first(),
        ).insert(v[0].0@, v[0].1).insert(e.0@, e.1));
    }
}

impl Ast {
    pub fn new(name: &str) -> (a: Ast)
        ensures
            a@ == (AstView { name: name@, value: None, id: Seq::empty(), children: Seq::empty(), attrs: Map::empty() }),
    {
        let a = Ast {
            name: String::from_str(name),
            value: None,
            id: String::new(),
            children: Vec::new(),
            attributes: Vec::new(),
        };
        assert(a@.children =~= Seq::<AstView>::empty());
        a
    }

    pub fn with_value(name: &str, value: &str) -> (a: Ast)
        ensures
            a@ == (AstView { name: name@, value: Some(value@), id: Seq::empty(), children: Seq::empty(), attrs: Map::empty() }),
    {
        let a = Ast {
            name: String::from_str(name),
            value: Some(String::from_str(value)),
            id: String::new(),
            children: Vec::new(),
            attributes: Vec::new(),
        };
        assert(a@.children =~= Seq::<AstView>::empty());
        a
    }

    pub fn with_id(self, id: &str) -> (a: Ast)
        ensures
            a@ == (AstView { id: id@, ..self@ }),
    {
        let mut a = self;
        a.id = String::from_str(id);
        assert(a@.children =~= self@.children);
        a
    }

    pub fn add_child(&mut self, child: Ast)
        ensures
            final(self)@ == (AstView { children: old(self)@.children.push(child@), ..old(self)@ }),
    {
        self.children.push(child);
        assert(self@.children =~= old(self)@.children.push(child@));
    }

    pub fn children(&self) -> (r: &[Ast])
        ensures
            r@ == self.child_values(),
    {
        self.children.as_slice()
    }

    pub fn nth_child(&self, n: usize) -> (r: &Ast)
        requires
            n < self@.children.len(),
        ensures
            r@ == self@.children[n as int],
    {
        &self.children[n]
    }

    /// A deep copy with the same view.
    pub fn duplicate(&self) -> (r: Ast)
        ensures
            r@ == self@,
        decreases self,
    {
        let mut children: Vec<Ast> = Vec::new();
        let n = self.children.len();
        for i in 0..n
            invariant
                n == self.children@.len(),
                children@.len() == i,
                forall|j: int| 0 <= j < i ==> #[trigger] children@[j]@ == self.children@[j]@,
        {
            proof {
                vstd::std_specs::vec::axiom_vec_index_decreases(self.children, i as int);
            }
            let c = self.children[i].duplicate();
            children.push(c);
        }
        let mut attributes: Vec<(String, AstAttr)> = Vec::new();
        let m = self.attributes.len();
        for i in 0..m
            invariant
                m == self.attributes@.len(),
                attributes@ =~= self.attributes@.take(i as int),
        {
            let e = (self.attributes[i].0.clone(), self.attributes[i].1.duplicate());
            attributes.push(e);
            assert(self.attributes@.take(i + 1) =~= self.attributes@.take(i as int).push(e));
        }
        assert(self.attributes@.take(m as int) =~= self.attributes@);
        let value = match &self.value {
            Some(v) => Some(v.clone()),
            None => None,
        };
        let r = Ast { name: self.name.clone(), value, id: self.id.clone(), children, attributes };
        assert forall|j: int| 0 <= j < n implies r@.children[j] == self@.children[j] by {
            assert(r.children@[j]@ == self.children@[j]@);
        }
        assert(r@.children =~= self@.children);
        r
    }

    /// The children whose name is `name`, in order.
    pub fn children_by_name(&self, name: &str) -> (r: Vec<&Ast>)
        ensures
            r@.map_values(|c: &Ast| c@) == self@.children.filter(|c: AstView| c.name == name@),
    {
        let mut r: Vec<&Ast> = Vec::new();
        let n = self.children.len();
        proof {
            broadcast use lemma_ast_view;
        }
        for i in 0..n
            invariant
                n == self@.children.len(),
                n == self.children@.len(),
                forall|j: int| 0 <= j < n ==> #[trigger] self.children@[j]@ == self@.children[j],
                r@.map_values(|c: &Ast| c@) == self@.children.take(i as int).filter(|c: AstView| c.name == name@),
        {
            let c = &self.children[i];
            proof {
                lemma_ast_view(*c);
                assert(self@.children.take(i + 1).drop_last() =~= self@.children.take(i as int));
                reveal_with_fuel(Seq::filter, 1);
            }
            if c.name == String::from_str(name) {
                r.push(c);
                assert(r@.map_values(|c: &Ast| c@) =~= self@.children.take(i as int).filter(|c: AstView| c.name == name@).push(c@));
            }
        }
        assert(self@.children.take(n as int) =~= self@.children);
        r
    }
}

impl Clone for Ast {
    fn clone(&self) -> (r: Self)
        ensures
            r@ == self@,
    {
        self.duplicate()
    }
}

/// The index of the first child from `k` on whose id is `id`.
pub open spec fn first_with_id(cs: Seq<AstView>, id: Seq<char>, k: int) -> Option<int>
    decreases cs.len() - k,
{
    if k < 0 || k >= cs.len() {
        None
    } else if cs[k].id == id {
        Some(k)
    } else {
        first_with_id(cs, id, k + 1)
    }
}

/// `a` with its id cleared when `clear` is set.
pub open spec fn cleared(a: AstView, clear: bool) -> AstView {
    if clear {
        AstView { id: Seq::empty(), ..a }
    } else {
        a
    }
}

impl Ast {
    /// The first child whose id is `id`, copied; with `clear_id` the copy's id is cleared.
    pub fn child_by_id(&self, id: &str, clear_id: bool) -> (r: Option<Ast>)
        ensures
            match first_with_id(self@.children, id@, 0) {
                Some(i) => r matches Some(c) && c@ == cleared(self@.children[i], clear_id),
                None => r is None,
            },
    {
        let n = self.children.len();
        proof {
            broadcast use lemma_ast_view;
        }
        for i in 0..n
            invariant
                n == self@.children.len(),
                n == self.children@.len(),
                forall|j: int| 0 <= j < n ==> #[trigger] self.children@[j]@ == self@.children[j],
                first_with_id(self@.children, id@, 0) == first_with_id(self@.children, id@, i as int),
        {
            let c = &self.children[i];
            proof {
                lemma_ast_view(*c);
            }
            if c.id == String::from_str(id) {
                let mut copy = c.duplicate();
                if clear_id {
                    copy.id = String::new();
                    assert(copy@.children =~= c@.children);
                }
                return Some(copy);
            }
        }
        None
    }

    /// All children whose id is `id`, copied, in order; with `clear_id` the copies' ids are cleared.
    pub fn children_by_id(&self, id: &str, clear_id: bool) -> (r: Vec<Ast>)
        ensures
            stack_of(r@) == self@.children.filter(|c: AstView| c.id == id@).map_values(
                |c: AstView| cleared(c, clear_id),
            ),
    {
        let mut r: Vec<Ast> = Vec::new();
        let n = self.children.len();
        let ghost want = |c: AstView| c.id == id@;
        let ghost f = |c: AstView| cleared(c, clear_id);
        proof {
            broadcast use lemma_ast_view;
        }
        for i in 0..n
            invariant
                n == self@.children.len(),
                n == self.children@.len(),
                forall|j: int| 0 <= j < n ==> #[trigger] self.children@[j]@ == self@.children[j],
                want == (|c: AstView| c.id == id@),
                f == (|c: AstView| cleared(c, clear_id)),
                stack_of(r@) == self@.children.take(i as int).filter(want).map_values(f),
        {
            let c = &self.children[i];
            proof {
                lemma_ast_view(*c);
                assert(self@.children.take(i + 1).drop_last() =~= self@.children.take(i as int));
                reveal_with_fuel(Seq::filter, 1);
            }
            if c.id == String::from_str(id) {
                let mut copy = c.duplicate();
                if clear_id {
                    copy.id = String::new();
                    assert(copy@.children =~= c@.children);
                }
                let ghost before = r@;
                r.push(copy);
                assert(stack_of(r@) =~= stack_of(before).push(copy@));
                assert(stack_of(r@) =~= self@.children.take(i as int).filter(want).push(c@).map_values(f));
            }
        }
        assert(self@.children.take(n as int) =~= self@.children);
        r
    }

    /// Set attribute `name` to `value` (replacing an earlier value). The
    /// value stored is what converting `value` into an [`AstAttr`] gives:
    /// `AstAttr::from(value)`.
    pub fn set_attr<V>(&mut self, name: &str, value: V) where AstAttr: From<V>
        ensures
            final(self)@.name == old(self)@.name,
            final(self)@.value == old(self)@.value,
            final(self)@.id == old(self)@.id,
            final(self)@.children == old(self)@.children,
            final(self)@.attrs == old(self)@.attrs.insert(name@, final(self)@.attrs[name@]),
            call_ensures(AstAttr::from, (value,), final(self)@.attrs[name@]),
    {
        let ghost old_attrs = self.attributes@;
        let v: AstAttr = value.into();
        let key = String::from_str(name);
        let ghost e = (key, v);
        match self.find_attr(&key) {
            Some(i) => {
                proof {
                    lemma_attrs_map_replace(old_attrs, i as int, e);
                }
                self.attributes.set(i, (key, v));
            },
            None => {
                proof {
                    lemma_attrs_map_push(old_attrs, e);
                }
                self.attributes.push((key, v));
            },
        }
        assert(self@.children =~= old(self)@.children);
        assert(self@.attrs =~= old(self)@.attrs.insert(name@, v));
    }

    /// The index of the first attribute entry called `key`.
    fn find_attr(&self, key: &String) -> (r: Option<usize>)
        ensures
            match r {
                Some(i) => i < self.attributes@.len() && self.attributes@[i as int].0@ == key@ && forall|j: int|
                    0 <= j < i ==> self.attributes@[j].0@ != key@,
                None => forall|j: int| 0 <= j < self.attributes@.len() ==> self.attributes@[j].0@ != key@,
            },
    {
        let n = self.attributes.len();
        for i in 0..n
            invariant
                n == self.attributes@.len(),
                forall|j: int| 0 <= j < i ==> self.attributes@[j].0@ != key@,
        {
            if self.attributes[i].0 == *key {
                return Some(i);
            }
        }
        None
    }

    /// The value of attribute `name`.
    pub fn get_attr(&self, name: &str) -> (r: Option<&AstAttr>)
        ensures
            match r {
                Some(v) => self@.attrs.contains_key(name@) && *v == self@.attrs[name@],
                None => !self@.attrs.contains_key(name@),
            },
    {
        let key = String::from_str(name);
        match self.find_attr(&key) {
            Some(i) => {
                proof {
                    lemma_attrs_map_first(self.attributes@, i as int);
                }
                Some(&self.attributes[i].1)
            },
            None => {
                proof {
                    lemma_attrs_map_absent(self.attributes@, name@);
                }
                None
            },
        }
    }

    /// Whether attribute `name` is set.
    pub fn has_attr(&self, name: &str) -> (r: bool)
        ensures
            r == self@.attrs.contains_key(name@),
    {
        self.get_attr(name).is_some()
    }
}

/// What [`Ast::set_attr`] writes, [`Ast::get_attr`] reads back: once the
/// attribute `name` is set to `v`, it holds `v`, and every other attribute
/// is present and equal exactly as before.
pub proof fn lemma_attr_read_after_write(before: AstView, after: AstView, name: Seq<char>, v: AstAttr)
    requires
        after.attrs == before.attrs.insert(name, v),
    ensures
        after.attrs.contains_key(name),
        after.attrs[name] == v,
        forall|k: Seq<char>|
            k != name ==> (#[trigger] after.attrs.contains_key(k) == before.attrs.contains_key(k) && (
            before.attrs.contains_key(k) ==> after.attrs[k] == before.attrs[k])),
{
}

pub open spec fn stack_of(v: Seq<Ast>) -> Seq<AstView> {
    Seq::new(v.len(), |i: int| v[i]@)
}

// ---------------------------------------------------------------------------
// Rendering
// ---------------------------------------------------------------------------

pub open spec fn spaces(n: nat) -> Seq<char> {
    Seq::new(n, |i: int| ' ')
}

/// The ` id="..."` part of an opening tag; empty for an empty id.
pub open spec fn id_part(id: Seq<char>) -> Seq<char> {
    if id.len() == 0 {
        seq![]
    } else {
        seq![' ', 'i', 'd', '=', '"'] + id + seq!['"']
    }
}

/// The XML-like text of `a` at nesting `level`, each level indented by `ind` spaces.
pub open spec fn render(a: AstView, level: nat, ind: nat) -> Seq<char>
    decreases a, 0nat,
{
    let pad = spaces(level * ind);
    let open = seq!['<'] + a.name + id_part(a.id);
    let close = pad + seq!['<', '/'] + a.name + seq!['>', '\n'];
    match a.value {
        None => if a.children.len() == 0 {
            pad + open + seq!['/', '>', '\n']
        } else {
            pad + open + seq!['>', '\n'] + render_seq(a.children, a.children.len() as int, level + 1, ind) + close
        },
        Some(v) => if a.children.len() == 0 {
            pad + open + seq!['>', ' '] + v + seq![' ', '<', '/'] + a.name + seq!['>', '\n']
        } else {
            pad + open + seq!['>', ' '] + v + seq!['\n'] + render_seq(a.children, a.children.len() as int, level + 1, ind)
                + close
        },
    }
}

/// The renderings of the first `k` nodes of `cs`, one after the other.
pub open spec fn render_seq(cs: Seq<AstView>, k: int, level: nat, ind: nat) -> Seq<char>
    decreases cs, k,
{
    if k <= 0 || k > cs.len() {
        seq![]
    } else {
        render_seq(cs, k - 1, level, ind) + render(cs[k - 1], level, ind)
    }
}

/// The number of levels of `a` (a leaf has one).
pub open spec fn height(a: AstView) -> nat
    decreases a, 0nat,
{
    1 + height_seq(a.children, a.children.len() as int)
}

/// The largest height among the first `k` nodes of `cs`.
pub open spec fn height_seq(cs: Seq<AstView>, k: int) -> nat
    decreases cs, k,
{
    if k <= 0 || k > cs.len() {
        0
    } else {
        let h = height(cs[k - 1]);
        let rest = height_seq(cs, k - 1);
        if h > rest {
            h
        } else {
            rest
        }
    }
}

proof fn lemma_height_seq(cs: Seq<AstView>, k: int, i: int)
    requires
        0 <= i < k <= cs.len(),
    ensures
        height(cs[i]) <= height_seq(cs, k),
    decreases k,
{
    if i < k - 1 {
        lemma_height_seq(cs, k - 1, i);
    }
}

/// Renders an [`Ast`] as an XML-like string for debugging.
pub struct AstStrWriter {
    pub indent_size: usize,
}

impl AstStrWriter {
    pub fn new(indent_size: usize) -> (w: AstStrWriter)
        ensures
            w.indent_size == indent_size,
    {
        AstStrWriter { indent_size }
    }

    /// The text of `ast` (see [`render`]). The deepest indentation must fit in a `usize`.
    pub fn write_ast_to_str(&self, ast: &Ast) -> (r: String)
        requires
            height(ast@) <= usize::MAX,
            (height(ast@) - 1) * self.indent_size <= usize::MAX,
        ensures
            r@ == render(ast@, 0, self.indent_size as nat),
    {
        let mut out = String::new();
        self.write_node(ast, 0, &mut out);
        assert(out@ =~= Seq::<char>::empty() + render(ast@, 0, self.indent_size as nat));
        out
    }

    fn indent(&self, level: usize, out: &mut String)
        requires
            level * self.indent_size <= usize::MAX,
        ensures
            final(out)@ == old(out)@ + spaces(level as nat * self.indent_size as nat),
    {
        let n = level * self.indent_size;
        for i in 0..n
            invariant
                out@ == old(out)@ + spaces(i as nat),
        {
            let ghost before = out@;
            out.append(" ");
            proof {
                reveal_strlit(" ");
            }
            assert(out@ =~= old(out)@ + spaces((i + 1) as nat));
        }
    }

    /// The indentation and the opening tag up to its `>`.
    fn write_open(&self, name: &str, id: &str, level: usize, out: &mut String)
        requires
            level * self.indent_size <= usize::MAX,
        ensures
            final(out)@ == old(out)@ + spaces(level as nat * self.indent_size as nat) + (seq!['<'] + name@ + id_part(
                id@,
            )),
    {
        self.indent(level, out);
        out.append("<");
        out.append(name);
        if id.unicode_len() > 0 {
            out.append(" id=\"");
            out.append(id);
            out.append("\"");
        }
        proof {
            reveal_strlit("<");
            reveal_strlit(" id=\"");
            reveal_strlit("\"");
        }
        assert(out@ =~= old(out)@ + spaces(level as nat * self.indent_size as nat) + (seq!['<'] + name@ + id_part(id@)));
    }

    #[verifier::rlimit(30)]
    fn write_node(&self, ast: &Ast, level: usize, out: &mut String)
        requires
            level + height(ast@) <= usize::MAX,
            (level + height(ast@) - 1) * self.indent_size <= usize::MAX,
        ensures
            final(out)@ == old(out)@ + render(ast@, level as nat, self.indent_size as nat),
        decreases ast,
    {
        let ghost a = ast@;
        let ghost ind = self.indent_size as nat;
        proof {
            lemma_ast_view(*ast);
            assert(height(a) >= 1);
            assert(level * ind <= (level + height(a) - 1) * ind) by (nonlinear_arith)
                requires
                    height(a) >= 1,
            ;
        }
        let has_children = ast.children.len() > 0;
        self.write_open(ast.name.as_str(), ast.id.as_str(), level, out);
        match &ast.value {
            None => {
                if !has_children {
                    out.append("/>\n");
                    proof {
                        reveal_strlit("/>\n");
                    }
                    assert(out@ =~= old(out)@ + render(a, level as nat, ind));
                    return;
                }
                out.append(">\n");
                proof {
                    reveal_strlit(">\n");
                }
            },
            Some(v) => {
                if !has_children {
                    out.append("> ");
                    out.append(v.as_str());
                    out.append(" </");
                    out.append(ast.name.as_str());
                    out.append(">\n");
                    proof {
                        reveal_strlit("> ");
                        reveal_strlit(" </");
                        reveal_strlit(">\n");
                    }
                    assert(out@ =~= old(out)@ + render(a, level as nat, ind));
                    return;
                }
                out.append("> ");
                out.append(v.as_str());
                out.append("\n");
                proof {
                    reveal_strlit("> ");
                    reveal_strlit("\n");
                }
            },
        }
        let ghost head = out@;
        let n = ast.children.len();
        for i in 0..n
            invariant
                n == ast.children@.len(),
                n == a.children.len(),
                a == ast@,
                ind == self.indent_size as nat,
                (level + height(a) - 1) * ind <= usize::MAX,
                level + height(a) <= usize::MAX,
                height(a) == 1 + height_seq(a.children, a.children.len() as int),
                forall|j: int| 0 <= j < n ==> #[trigger] ast.children@[j]@ == a.children[j],
                out@ == head + render_seq(a.children, i as int, (level + 1) as nat, ind),
        {
            proof {
                vstd::std_specs::vec::axiom_vec_index_decreases(ast.children, i as int);
                lemma_height_seq(a.children, n as int, i as int);
                let hc = height(a.children[i as int]);
                assert((level + 1 + hc - 1) * ind <= (level + height(a) - 1) * ind) by (nonlinear_arith)
                    requires
                        hc <= height(a) - 1,
                ;
            }
            self.write_node(&ast.children[i], level + 1, out);
        }
        self.indent(level, out);
        out.append("</");
        out.append(ast.name.as_str());
        out.append(">\n");
        proof {
            reveal_strlit("</");
            reveal_strlit(">\n");
        }
        assert(out@ =~= old(out)@ + render(a, level as nat, ind));
    }
}

impl Default for AstStrWriter {
    fn default() -> (r: Self)
        ensures
            r.indent_size == 2,
    {
        AstStrWriter::new(2)
    }
}

} // verus!
