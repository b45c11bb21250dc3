//! The lexer: splits a text into tokens by the rules of a [`LexerGrammar`].
//!
//! At each point the rules are tried in insertion order and the first rule
//! whose regex matches a non-empty prefix of the remaining text wins;
//! tokens of ignored rules are dropped. Lines and columns are 1-based, and
//! columns count bytes of the UTF-8 encoding.
use vstd::prelude::*;

use crate::error::ParseError;
use crate::lexer_grammar::{regex_find, regex_first_match, LexerGrammar, LexerRule};
use crate::token::{Token, TokenStream};

verus! {

/// The lexer's position: the remaining text and its line and column.
pub struct LexState {
    pub input: Seq<char>,
    pub line: usize,
    pub col: usize,
}

/// A lexed token: the rule that matched, the matched text and its position.
pub struct LexTok {
    pub rule: int,
    pub value: Seq<char>,
    pub line: usize,
    pub col: usize,
}

pub open spec fn sat_add(a: usize, b: nat) -> usize {
    if a + b > usize::MAX {
        usize::MAX
    } else {
        (a + b) as usize
    }
}

pub open spec fn char_utf8_len(c: char) -> nat {
    if (c as u32) < 0x80 {
        1
    } else if (c as u32) < 0x800 {
        2
    } else if (c as u32) < 0x10000 {
        3
    } else {
        4
    }
}

/// The number of bytes of the UTF-8 encoding of `s`.
pub open spec fn utf8_len(s: Seq<char>) -> nat
    decreases s.len(),
{
    if s.len() == 0 {
        0
    } else {
        utf8_len(s.drop_last()) + char_utf8_len(s.last())
    }
}

pub open spec fn count_newlines(s: Seq<char>) -> nat
    decreases s.len(),
{
    if s.len() == 0 {
        0
    } else {
        count_newlines(s.drop_last()) + if s.last() == '\n' {
            1nat
        } else {
            0nat
        }
    }
}

/// The text after the last line break of `s` (all of `s` if it has none).
pub open spec fn after_last_newline(s: Seq<char>) -> Seq<char>
    decreases s.len(),
{
    if s.len() == 0 {
        s
    } else if s.last() == '\n' {
        seq![]
    } else {
        after_last_newline(s.drop_last()).push(s.last())
    }
}

/// The line and column after `text` that starts at (`line`, `col`).
pub open spec fn moved(line: usize, col: usize, text: Seq<char>) -> (usize, usize) {
    let nl = count_newlines(text);
    if nl > 0 {
        (sat_add(line, nl), sat_add(1, utf8_len(after_last_newline(text))))
    } else {
        (line, sat_add(col, utf8_len(text)))
    }
}

/// The length of the regex match `m` when it is a non-empty prefix of `input`.
pub open spec fn prefix_len(m: Option<Seq<char>>, input: Seq<char>) -> Option<nat> {
    match m {
        Some(s) => if 0 < s.len() <= input.len() && input.subrange(0, s.len() as int) == s {
            Some(s.len())
        } else {
            None
        },
        None => None,
    }
}

/// How much of `input` rule `i` matches.
pub open spec fn rule_match(rules: Seq<LexerRule>, i: int, input: Seq<char>) -> Option<nat> {
    prefix_len(regex_first_match(rules[i].source()@, input), input)
}

/// The first rule from `k` on that matches a prefix of `input`, with the length of the match.
pub open spec fn first_match(rules: Seq<LexerRule>, input: Seq<char>, k: int) -> Option<(int, nat)>
    decreases rules.len() - k,
{
    if k < 0 || k >= rules.len() {
        None
    } else {
        match rule_match(rules, k, input) {
            Some(l) => Some((k, l)),
            None => first_match(rules, input, k + 1),
        }
    }
}

pub proof fn lemma_first_match(rules: Seq<LexerRule>, input: Seq<char>, k: int)
    ensures
        first_match(rules, input, k) matches Some((i, l)) ==> 0 <= i < rules.len() && 0 < l <= input.len()
            && rule_match(rules, i, input) == Some(l),
    decreases rules.len() - k,
{
    if 0 <= k < rules.len() && rule_match(rules, k, input) is None {
        lemma_first_match(rules, input, k + 1);
    }
}

proof fn lemma_first_match_skips(rules: Seq<LexerRule>, input: Seq<char>, k: int, i: int)
    requires
        0 <= k <= i < rules.len(),
        forall|j: int| 0 <= j < i ==> #[trigger] rule_match(rules, j, input) is None,
    ensures
        first_match(rules, input, k) == first_match(rules, input, i),
    decreases i - k,
{
    if k < i {
        assert(rule_match(rules, k, input) is None);
        lemma_first_match_skips(rules, input, k + 1, i);
    }
}

/// Rules are tried in insertion order and the first that matches wins: when
/// rule `i` matches a non-empty prefix of the input and no earlier rule
/// does, the lexer takes rule `i` with its match, however long the matches
/// of later rules are. Unless rule `i` is ignored, the next token is then of
/// rule `i`, with the matched text and the current position.
pub proof fn lemma_first_rule_wins(rules: Seq<LexerRule>, st: LexState, i: int)
    requires
        0 <= i < rules.len(),
        rule_match(rules, i, st.input) is Some,
        forall|j: int| 0 <= j < i ==> #[trigger] rule_match(rules, j, st.input) is None,
    ensures
        first_match(rules, st.input, 0) == Some((i, rule_match(rules, i, st.input)->0)),
        !rules[i].is_ignored() ==> lex_next(rules, st).0 == Ok::<Option<LexTok>, ParseError>(
            Some(
                LexTok {
                    rule: i,
                    value: st.input.subrange(0, rule_match(rules, i, st.input)->0 as int),
                    line: st.line,
                    col: st.col,
                },
            ),
        ),
{
    lemma_first_match_skips(rules, st.input, 0, i);
    let l = rule_match(rules, i, st.input)->0;
    assert(l > 0 && l <= st.input.len()) by {
        let m = regex_first_match(rules[i].source()@, st.input);
        assert(prefix_len(m, st.input) == Some(l));
    }
}

/// The next token from `st`, or the error for a text that no rule matches,
/// with the state after it; ignored matches are skipped.
pub open spec fn lex_next(rules: Seq<LexerRule>, st: LexState) -> (Result<Option<LexTok>, ParseError>, LexState)
    decreases st.input.len(),
{
    if st.input.len() == 0 {
        (Ok(None), st)
    } else {
        match first_match(rules, st.input, 0) {
            None => (Err(ParseError::UnexpectedChar { ch: st.input[0], line: st.line, col: st.col }), st),
            Some((i, l)) => {
                proof {
                    lemma_first_match(rules, st.input, 0);
                }
                let value = st.input.subrange(0, l as int);
                let pos = moved(st.line, st.col, value);
                let st2 = LexState { input: st.input.skip(l as int), line: pos.0, col: pos.1 };
                if rules[i].is_ignored() {
                    lex_next(rules, st2)
                } else {
                    (Ok(Some(LexTok { rule: i, value, line: st.line, col: st.col })), st2)
                }
            },
        }
    }
}

/// The token `t` is the lexed token `lt`; its type is one the rule's
/// derivation gives for the matched text (the derived type itself when the
/// derivation computes its specification).
pub open spec fn tok_matches(rules: Seq<LexerRule>, t: Token, lt: LexTok) -> bool {
    &&& t.value@ == lt.value
    &&& t.line == lt.line
    &&& t.column == lt.col
    &&& exists|v: &str| v@ == lt.value && #[trigger] rules[lt.rule].derivation().derives(v, t.token_type)
    &&& rules[lt.rule].derivation().obeys() ==> t.token_type@ == rules[lt.rule].derivation().spec_derive(lt.value)
}

/// The first `k` tokens lexed from `st` and the state after them, when there are that many.
pub open spec fn lex_prefix(rules: Seq<LexerRule>, st: LexState, k: nat) -> Option<(Seq<LexTok>, LexState)>
    decreases k,
{
    if k == 0 {
        Some((seq![], st))
    } else {
        match lex_prefix(rules, st, (k - 1) as nat) {
            Some((toks, st1)) => match lex_next(rules, st1) {
                (Ok(Some(lt)), st2) => Some((toks.push(lt), st2)),
                _ => None,
            },
            None => None,
        }
    }
}

/// The tokens `ts` are the first tokens lexed from `st`.
pub open spec fn lexed(rules: Seq<LexerRule>, st: LexState, ts: Seq<Token>) -> bool {
    lex_prefix(rules, st, ts.len()) matches Some((lts, _)) && forall|i: int|
        0 <= i < ts.len() ==> tok_matches(rules, #[trigger] ts[i], lts[i])
}

pub open spec fn start_state(text: Seq<char>) -> LexState {
    LexState { input: text, line: 1, col: 1 }
}

pub open spec fn opt_view(m: Option<String>) -> Option<Seq<char>> {
    match m {
        Some(s) => Some(s@),
        None => None,
    }
}

/// The length of the regex match `m` when it is a non-empty prefix of `input`.
pub fn match_prefix_len(m: &Option<String>, input: &str) -> (r: Option<usize>)
    ensures
        match r {
            Some(n) => prefix_len(opt_view(*m), input@) == Some(n as nat),
            None => prefix_len(opt_view(*m), input@) is None,
        },
{
    match m {
        None => None,
        Some(s) => {
            assert(opt_view(*m) == Some(s@));
            let n = s.as_str().unicode_len();
            let len = input.unicode_len();
            if n == 0 || n > len {
                return None;
            }
            for i in 0..n
                invariant
                    n == s@.len(),
                    len == input@.len(),
                    0 < n <= len,
                    opt_view(*m) == Some(s@),
                    forall|j: int| 0 <= j < i ==> input@[j] == s@[j],
            {
                if s.as_str().get_char(i) != input.get_char(i) {
                    assert(input@.subrange(0, n as int)[i as int] != s@[i as int]);
                    return None;
                }
            }
            assert(input@.subrange(0, n as int) =~= s@);
            Some(n)
        },
    }
}

fn char_len_utf8(c: char) -> (r: usize)
    ensures
        r == char_utf8_len(c),
{
    let u = c as u32;
    if u < 0x80 {
        1
    } else if u < 0x800 {
        2
    } else if u < 0x10000 {
        3
    } else {
        4
    }
}

/// The line and column after `text` that starts at (`line`, `column`):
/// each line break moves to the next line, and the column counts the bytes
/// after the last line break.
pub fn advance_position(line: usize, column: usize, text: &str) -> (r: (usize, usize))
    ensures
        r == moved(line, column, text@),
{
    let n = text.unicode_len();
    let mut nl: usize = 0;
    let mut tail_bytes: usize = 0;
    let mut all_bytes: usize = 0;
    for i in 0..n
        invariant
            n == text@.len(),
            nl == if count_newlines(text@.take(i as int)) > usize::MAX {
                usize::MAX as nat
            } else {
                count_newlines(text@.take(i as int))
            },
            tail_bytes == if utf8_len(after_last_newline(text@.take(i as int))) > usize::MAX {
                usize::MAX as nat
            } else {
                utf8_len(after_last_newline(text@.take(i as int)))
            },
            all_bytes == if utf8_len(text@.take(i as int)) > usize::MAX {
                usize::MAX as nat
            } else {
                utf8_len(text@.take(i as int))
            },
    {
        let c = text.get_char(i);
        assert(text@.take(i + 1).drop_last() =~= text@.take(i as int));
        assert(text@.take(i + 1).last() == c);
        let b = char_len_utf8(c);
        let ghost pre = text@.take(i as int);
        assert(after_last_newline(pre.push(c)) == if c == '\n' {
            Seq::<char>::empty()
        } else {
            after_last_newline(pre).push(c)
        }) by {
            assert(pre.push(c).drop_last() =~= pre);
        }
        assert(after_last_newline(pre).push(c).drop_last() =~= after_last_newline(pre));
        assert(text@.take(i + 1) =~= pre.push(c));
        all_bytes = all_bytes.saturating_add(b);
        if c == '\n' {
            nl = nl.saturating_add(1);
            tail_bytes = 0;
        } else {
            tail_bytes = tail_bytes.saturating_add(b);
        }
    }
    assert(text@.take(n as int) =~= text@);
    if nl > 0 {
        (line.saturating_add(nl), tail_bytes.saturating_add(1))
    } else {
        (line, column.saturating_add(all_bytes))
    }
}

/// Tokenizes a text by the rules of a [`LexerGrammar`].
///
/// The first rule whose regex matches a non-empty prefix of the remaining
/// text wins; tokens of ignored rules are dropped. As a [`TokenStream`] the
/// lexer stops at the first text that no rule matches and keeps that error.
pub struct Lexer<'g> {
    grammar: &'g LexerGrammar,
    input: String,
    line: usize,
    column: usize,
    error: Option<ParseError>,
    handed: Ghost<Seq<Token>>,
    origin: Ghost<LexState>,
}

impl<'g> Lexer<'g> {
    #[verifier::type_invariant]
    spec fn inv(self) -> bool {
        self.grammar.derivations_total()
    }

    pub closed spec fn rules(&self) -> Seq<LexerRule> {
        self.grammar.rules_view()
    }

    pub closed spec fn grammar_ref(&self) -> LexerGrammar {
        *self.grammar
    }

    pub closed spec fn state(&self) -> LexState {
        LexState { input: self.input@, line: self.line, col: self.column }
    }

    /// The lexing error the stream stopped at, if any.
    pub closed spec fn lex_error(&self) -> Option<ParseError> {
        self.error
    }

    /// The state the lexer started from.
    pub closed spec fn origin(&self) -> LexState {
        self.origin@
    }

    /// The tokens handed out are the first tokens lexed from the origin; the
    /// state is the one after them, or, after an error, the one the error
    /// was found in.
    pub closed spec fn tracks(&self) -> bool {
        lex_prefix(self.rules(), self.origin@, self.handed@.len()) matches Some((lts, st)) && (forall|i: int|
            0 <= i < self.handed@.len() ==> tok_matches(self.rules(), #[trigger] self.handed@[i], lts[i])) && match self.error {
            None => self.state() == st || lex_next(self.rules(), st) == (Ok::<Option<LexTok>, ParseError>(None), self.state()),
            Some(e) => lex_next(self.rules(), st) == (Err::<Option<LexTok>, ParseError>(e), self.state()),
        }
    }

    /// The lexing error the stream stopped at, if any.
    pub fn error(&self) -> (r: Option<ParseError>)
        ensures
            r == self.lex_error(),
    {
        match &self.error {
            Some(e) => Some(e.duplicate()),
            None => None,
        }
    }

    pub fn new(grammar: &'g LexerGrammar, text: &str) -> (l: Lexer<'g>)
        requires
            grammar.derivations_total(),
        ensures
            l.rules() == grammar.rules_view(),
            l.grammar_ref() == *grammar,
            l.state() == start_state(text@),
            l.lex_error() is None,
            l.handed_out() == Seq::<Token>::empty(),
            l.origin() == start_state(text@),
            l.tracks(),
    {
        Lexer {
            grammar,
            input: String::from_str(text),
            line: 1,
            column: 1,
            error: None,
            handed: Ghost(Seq::empty()),
            origin: Ghost(start_state(text@)),
        }
    }

    /// Start over on a new text.
    pub fn set_input(&mut self, text: &str)
        ensures
            final(self).rules() == old(self).rules(),
            final(self).grammar_ref() == old(self).grammar_ref(),
            final(self).state() == start_state(text@),
            final(self).lex_error() is None,
            final(self).handed_out() == Seq::<Token>::empty(),
            final(self).origin() == start_state(text@),
            final(self).tracks(),
    {
        proof {
            use_type_invariant(&*self);
        }
        self.input = String::from_str(text);
        self.line = 1;
        self.column = 1;
        self.error = None;
        self.handed = Ghost(Seq::empty());
        self.origin = Ghost(start_state(text@));
    }

    /// The first rule that matches a non-empty prefix of the remaining text,
    /// with the length of the match (see [`first_match`]).
    fn find_match(&self) -> (r: Option<(usize, usize)>)
        ensures
            match r {
                Some((i, l)) => first_match(self.rules(), self.state().input, 0) == Some((i as int, l as nat)),
                None => first_match(self.rules(), self.state().input, 0) is None,
            },
    {
        let ghost rules = self.rules();
        let ghost input = self.input@;
        let count = self.grammar.rule_count();
        let mut k: usize = 0;
        while k < count
            invariant
                count == rules.len(),
                k <= count,
                rules == self.grammar.rules_view(),
                input == self.input@,
                first_match(rules, input, 0) == first_match(rules, input, k as int),
            decreases count - k,
        {
            let rule = self.grammar.rule_at(k);
            let m = regex_find(rule, self.input.as_str());
            assert(opt_view(m) == regex_first_match(rules[k as int].source()@, input));
            match match_prefix_len(&m, self.input.as_str()) {
                Some(l) => {
                    return Some((k, l));
                },
                None => {},
            }
            k = k + 1;
        }
        None
    }

    /// The next token, `None` at the end of the text, or the error for a
    /// text that no rule matches (see [`lex_next`]).
    pub fn next_token(&mut self) -> (r: Result<Option<Token>, ParseError>)
        ensures
            final(self).rules() == old(self).rules(),
            final(self).grammar_ref() == old(self).grammar_ref(),
            final(self).lex_error() == old(self).lex_error(),
            final(self).handed_out() == old(self).handed_out(),
            final(self).origin() == old(self).origin(),
            final(self).state() == lex_next(old(self).rules(), old(self).state()).1,
            match lex_next(old(self).rules(), old(self).state()).0 {
                Ok(None) => r == Ok::<Option<Token>, ParseError>(None),
                Err(e) => r == Err::<Option<Token>, ParseError>(e),
                Ok(Some(lt)) => r matches Ok(Some(t)) && tok_matches(old(self).rules(), t, lt),
            },
            r matches Ok(Some(_)) ==> final(self).state().input.len() < old(self).state().input.len(),
    {
        proof {
            use_type_invariant(&*self);
        }
        let ghost rules = self.rules();
        let ghost st0 = self.state();
        loop
            invariant
                rules == self.rules(),
                rules == old(self).rules(),
                st0 == old(self).state(),
                rules == self.grammar.rules_view(),
                self.grammar.derivations_total(),
                self.grammar_ref() == old(self).grammar_ref(),
                self.lex_error() == old(self).lex_error(),
                self.handed_out() == old(self).handed_out(),
                self.origin() == old(self).origin(),
                lex_next(rules, st0) == lex_next(rules, self.state()),
                self.state().input.len() <= st0.input.len(),
            decreases self.input@.len(),
        {
            let ghost st = self.state();
            let len = self.input.as_str().unicode_len();
            if len == 0 {
                assert(lex_next(rules, st) == (Ok::<Option<LexTok>, ParseError>(None), st));
                return Ok(None);
            }
            let found = self.find_match();
            proof {
                lemma_first_match(rules, st.input, 0);
            }
            match found {
                None => {
                    let ch = self.input.as_str().get_char(0);
                    return Err(ParseError::UnexpectedChar { ch, line: self.line, col: self.column });
                },
                Some((i, l)) => {
                    let value_s = String::from_str(self.input.as_str().substring_char(0, l));
                    let value = value_s.as_str();
                    let pos = advance_position(self.line, self.column, value);
                    let rest = String::from_str(self.input.as_str().substring_char(l, len));
                    let tok_line = self.line;
                    let tok_col = self.column;
                    self.input = rest;
                    self.line = pos.0;
                    self.column = pos.1;
                    let rule = self.grammar.rule_at(i);
                    if !rule.ignored() {
                        assert(rule.derivation().accepts(value));
                        let tt = rule.token_type_of(value);
                        assert(rules[i as int].derivation().derives(value, tt));
                        let ghost lt = lex_next(rules, st0).0->Ok_0->Some_0;
                        assert(lt.rule == i && lt.value == value@);
                        let tok = Token { token_type: tt, value: value_s, line: tok_line, column: tok_col };
                        assert(rules[lt.rule as int].derivation().derives(value, tok.token_type));
                        assert(tok_matches(rules, tok, lt));
                        return Ok(Some(tok));
                    }
                },
            }
        }
    }
}

impl<'g> TokenStream for Lexer<'g> {
    closed spec fn handed_out(&self) -> Seq<Token> {
        self.handed@
    }

    closed spec fn size(&self) -> nat {
        self.input@.len()
    }

    closed spec fn exhausted(&self) -> bool {
        self.input@.len() == 0 || self.error is Some
    }

    closed spec fn continues(&self, later: &Self) -> bool {
        &&& later.rules() == self.rules()
        &&& later.grammar_ref() == self.grammar_ref()
        &&& later.origin() == self.origin()
        &&& self.tracks() ==> later.tracks()
    }

    proof fn lemma_continues_refl(s: &Self) {
    }

    proof fn lemma_continues_trans(a: &Self, b: &Self, c: &Self) {
    }

    fn advance(&mut self) -> (r: Option<Token>)
        ensures
            final(self).rules() == old(self).rules(),
            final(self).grammar_ref() == old(self).grammar_ref(),
            final(self).origin() == old(self).origin(),
            old(self).tracks() ==> final(self).tracks(),
            old(self).lex_error() is Some ==> r is None && final(self).state() == old(self).state()
                && final(self).lex_error() == old(self).lex_error(),
            old(self).lex_error() is None ==> match lex_next(old(self).rules(), old(self).state()) {
                (Ok(None), st2) => r is None && final(self).state() == st2 && final(self).lex_error() is None,
                (Err(e), st2) => r is None && final(self).state() == st2 && final(self).lex_error() == Some(e),
                (Ok(Some(lt)), st2) => r matches Some(t) && tok_matches(old(self).rules(), t, lt) && final(self).state()
                    == st2 && final(self).lex_error() is None,
            },
    {
        proof {
            use_type_invariant(&*self);
        }
        if self.error.is_some() {
            return None;
        }
        let ghost st0 = self.state();
        let ghost h0 = self.handed@;
        match self.next_token() {
            Ok(Some(t)) => {
                let ghost gt = t;
                self.handed = Ghost(self.handed@.push(gt));
                proof {
                    if old(self).tracks() {
                        let (lts, st) = lex_prefix(self.rules(), self.origin@, h0.len())->0;
                        lemma_lex_prefix_len(self.rules(), self.origin@, h0.len());
                        if st != st0 {
                            lemma_lex_next_end(self.rules(), st);
                            assert(st0.input.len() == 0);
                            assert(false);
                        }
                        assert(self.handed@.len() == h0.len() + 1);
                        assert(self.handed@.drop_last() =~= h0);
                        let lt = lex_next(self.rules(), st).0->Ok_0->0;
                        assert(lex_prefix(self.rules(), self.origin@, self.handed@.len()) == Some((lts.push(lt), self.state())));
                        assert forall|i: int| 0 <= i < self.handed@.len() implies tok_matches(self.rules(), #[trigger] self.handed@[i], lts.push(lt)[i]) by {
                            if i < h0.len() {
                                assert(self.handed@[i] == h0[i]);
                                assert(lts.push(lt)[i] == lts[i]);
                                assert(old(self).handed@[i] == h0[i]);
                                assert(tok_matches(old(self).rules(), old(self).handed@[i], lts[i]));
                            } else {
                                assert(self.handed@[i] == t);
                                assert(lts.push(lt)[i] == lt);
                                assert(lex_next(old(self).rules(), old(self).state()).0 == Ok::<Option<LexTok>, ParseError>(Some(lt)));
                            }
                        }
                    }
                }
                Some(t)
            },
            Ok(None) => {
                proof {
                    lemma_lex_next_end(self.rules(), st0);
                    if old(self).tracks() {
                        let (lts, st) = lex_prefix(self.rules(), self.origin@, h0.len())->0;
                        if st != st0 {
                            lemma_lex_next_end(self.rules(), st);
                        }
                    }
                }
                None
            },
            Err(e) => {
                self.error = Some(e);
                proof {
                    if old(self).tracks() {
                        let (lts, st) = lex_prefix(self.rules(), self.origin@, h0.len())->0;
                        if st != st0 {
                            lemma_lex_next_end(self.rules(), st);
                        }
                    }
                }
                None
            },
        }
    }
}

pub proof fn lemma_lex_prefix_len(rules: Seq<LexerRule>, st: LexState, k: nat)
    ensures
        lex_prefix(rules, st, k) matches Some((lts, _)) ==> lts.len() == k,
    decreases k,
{
    if k > 0 {
        lemma_lex_prefix_len(rules, st, (k - 1) as nat);
    }
}

impl<'g> Lexer<'g> {
    /// What [`TokenStream::continues`] means for a lexer: the same rules
    /// and origin, and tracking is kept.
    pub proof fn lemma_continues(&self, later: &Self)
        requires
            self.continues(later),
        ensures
            later.rules() == self.rules(),
            later.grammar_ref() == self.grammar_ref(),
            later.origin() == self.origin(),
            self.tracks() ==> later.tracks(),
    {
    }

    /// What [`Lexer::tracks`] says in terms of the lexing specification: the
    /// tokens handed out were lexed from the origin, a kept error is the
    /// error found after them, and an exhausted lexer without error has
    /// lexed all of its text.
    pub proof fn lemma_tracks(&self)
        requires
            self.tracks(),
        ensures
            lexed(self.rules(), self.origin(), self.handed_out()),
            lex_prefix(self.rules(), self.origin(), self.handed_out().len()) matches Some((_, st)) && {
                &&& self.lex_error() matches Some(e) ==> lex_next(self.rules(), st).0 == Err::<
                    Option<LexTok>,
                    ParseError,
                >(e)
                &&& self.lex_error() is None && self.exhausted() ==> lex_next(self.rules(), st).0 == Ok::<
                    Option<LexTok>,
                    ParseError,
                >(None)
            },
    {
        let (lts, st) = lex_prefix(self.rules(), self.origin@, self.handed@.len())->0;
        if self.error is None && self.input@.len() == 0 && self.state() == st {
            assert(lex_next(self.rules(), st) == (Ok::<Option<LexTok>, ParseError>(None), st));
        }
    }
}

/// At the end of the text the state after the skipped ignored matches has no input left.
proof fn lemma_lex_next_end(rules: Seq<LexerRule>, st: LexState)
    ensures
        lex_next(rules, st).0 == Ok::<Option<LexTok>, ParseError>(None) ==> lex_next(rules, st).1.input.len() == 0,
    decreases st.input.len(),
{
    if st.input.len() > 0 {
        match first_match(rules, st.input, 0) {
            None => {},
            Some((i, l)) => {
                lemma_first_match(rules, st.input, 0);
                let value = st.input.subrange(0, l as int);
                let pos = moved(st.line, st.col, value);
                let st2 = LexState { input: st.input.skip(l as int), line: pos.0, col: pos.1 };
                if rules[i].is_ignored() {
                    lemma_lex_next_end(rules, st2);
                }
            },
        }
    }
}

} // verus!
