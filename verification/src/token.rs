use vstd::prelude::*;

verus! {

/// A single lexical token.
#[derive(Debug, Clone, PartialEq)]
pub struct Token {
    /// The token classification (e.g. `"NUMBER"`, `"LPAREN"`).
    pub token_type: String,
    /// The matched text.
    pub value: String,
    /// 1-based line number in the source.
    pub line: usize,
    /// 1-based column number in the source.
    pub column: usize,
}

impl Token {
    pub fn new(token_type: &str, value: &str, line: usize, column: usize) -> (t: Token)
        ensures
            t.token_type@ == token_type@,
            t.value@ == value@,
            t.line == line,
            t.column == column,
    {
        Token {
            token_type: String::from_str(token_type),
            value: String::from_str(value),
            line,
            column,
        }
    }

    /// A field-by-field copy of the token.
    pub fn duplicate(&self) -> (t: Token)
        ensures
            t == *self,
    {
        Token {
            token_type: self.token_type.clone(),
            value: self.value.clone(),
            line: self.line,
            column: self.column,
        }
    }
}

/// A source of [`Token`]s; `advance` returns `None` when it is exhausted.
///
/// `handed_out` is the sequence of tokens the stream has returned so far,
/// `size` a measure that every returned token decreases, so that a reader
/// that keeps calling `advance` until `None` stops, and `exhausted` holds
/// once `advance` has returned `None`.
pub trait TokenStream {
    spec fn handed_out(&self) -> Seq<Token>;

    spec fn size(&self) -> nat;

    spec fn exhausted(&self) -> bool;

    /// `later` is this stream after some calls of `advance`.
    spec fn continues(&self, later: &Self) -> bool;

    proof fn lemma_continues_refl(s: &Self)
        ensures
            s.continues(s),
    ;

    proof fn lemma_continues_trans(a: &Self, b: &Self, c: &Self)
        requires
            a.continues(b),
            b.continues(c),
        ensures
            a.continues(c),
    ;

    fn advance(&mut self) -> (r: Option<Token>)
        ensures
            old(self).continues(final(self)),
            match r {
                Some(t) => {
                    &&& final(self).handed_out() == old(self).handed_out().push(t)
                    &&& final(self).size() < old(self).size()
                },
                None => final(self).handed_out() == old(self).handed_out() && final(self).exhausted(),
            },
    ;
}

/// A [`TokenStream`] backed by an in-memory list.
pub struct TokenStreamFromList {
    tokens: Vec<Token>,
    pos: usize,
}

impl TokenStreamFromList {
    #[verifier::type_invariant]
    spec fn inv(self) -> bool {
        self.pos <= self.tokens.len()
    }

    /// The tokens not handed out yet.
    pub closed spec fn pending(&self) -> Seq<Token> {
        self.tokens@.skip(self.pos as int)
    }

    pub fn new(tokens: Vec<Token>) -> (s: Self)
        ensures
            s.pending() == tokens@,
            s.handed_out() == Seq::<Token>::empty(),
    {
        let s = TokenStreamFromList { tokens, pos: 0 };
        assert(s.tokens@.skip(0) =~= s.tokens@);
        assert(s.tokens@.take(0) =~= Seq::<Token>::empty());
        s
    }
}

impl TokenStream for TokenStreamFromList {
    closed spec fn handed_out(&self) -> Seq<Token> {
        self.tokens@.take(self.pos as int)
    }

    closed spec fn size(&self) -> nat {
        (self.tokens.len() - self.pos) as nat
    }

    closed spec fn exhausted(&self) -> bool {
        self.pos == self.tokens.len()
    }

    closed spec fn continues(&self, later: &Self) -> bool {
        later.tokens@ == self.tokens@
    }

    proof fn lemma_continues_refl(s: &Self) {
    }

    proof fn lemma_continues_trans(a: &Self, b: &Self, c: &Self) {
    }

    fn advance(&mut self) -> (r: Option<Token>)
        ensures
            old(self).pending().len() == 0 ==> r is None && final(self).pending() == old(self).pending(),
            old(self).pending().len() > 0 ==> r == Some(old(self).pending()[0])
                && final(self).pending() == old(self).pending().drop_first(),
    {
        proof {
            use_type_invariant(&*self);
        }
        if self.pos < self.tokens.len() {
            let t = self.tokens[self.pos].duplicate();
            self.pos = self.pos + 1;
            proof {
                assert(self.tokens@.take(self.pos as int) =~= old(self).tokens@.take(old(self).pos as int).push(t));
                assert(self.tokens@.skip(self.pos as int) =~= old(self).tokens@.skip(old(self).pos as int).drop_first());
            }
            Some(t)
        } else {
            None
        }
    }
}

} // verus!
