//! Tokenization rules: a compiled regular expression per token type, tried
//! in insertion order. Patterns are compiled with `fancy_regex`.
use vstd::prelude::*;

verus! {

#[verifier::external_type_specification]
#[verifier::external_body]
pub struct ExRegex(fancy_regex::Regex);

#[verifier::external_type_specification]
#[verifier::external_body]
pub struct ExRegexError(fancy_regex::Error);

/// Whether `fancy_regex` compiles `pattern` (with its default options).
pub uninterp spec fn regex_compiles(pattern: Seq<char>) -> bool;

/// The text of the first match of the compiled `pattern` in `text`, as
/// `fancy_regex::Regex::find` reports it; `None` when there is no match or
/// the search fails.
pub uninterp spec fn regex_first_match(pattern: Seq<char>, text: Seq<char>) -> Option<Seq<char>>;

/// Compiles `pattern` with `fancy_regex::Regex::new`: succeeds exactly when
/// the pattern compiles, which depends on the pattern alone.
#[verifier::external_body]
fn regex_new(pattern: &str) -> (r: Result<fancy_regex::Regex, fancy_regex::Error>)
    ensures
        r is Ok == regex_compiles(pattern@),
{
    fancy_regex::Regex::new(pattern)
}

/// Runs `fancy_regex::Regex::find` of the rule's regex on `text` and
/// returns the matched text (`Match::as_str`); an error of the search
/// counts as no match. The rule's regex was compiled from its source, so
/// the result is a function of the source and the text.
#[verifier::external_body]
pub(crate) fn regex_find(rule: &LexerRule, text: &str) -> (r: Option<String>)
    ensures
        match r {
            Some(m) => regex_first_match(rule.source()@, text@) == Some(m@),
            None => regex_first_match(rule.source()@, text@) is None,
        },
{
    match rule.pattern.find(text) {
        Ok(Some(m)) => Some(m.as_str().to_string()),
        _ => None,
    }
}

/// How the token type of a match is derived from the matched text.
///
/// `accepts` says on which texts `derive` may be called; `derives` relates
/// a text to each type `derive` may give for it; `obeys` says whether
/// `derive` computes the function `spec_derive`. For a closure
/// `Fn(&str) -> String`, `derives` is what the closure ensures.
pub trait TokenTypeDerivation {
    spec fn accepts(&self, value: &str) -> bool;

    spec fn derives(&self, value: &str, r: String) -> bool;

    spec fn obeys(&self) -> bool;

    spec fn spec_derive(&self, value: Seq<char>) -> Seq<char>;

    fn derive(&self, value: &str) -> (r: String)
        requires
            self.accepts(value),
        ensures
            self.derives(value, r),
            self.obeys() ==> r@ == self.spec_derive(value@),
    ;
}

/// Every match gets the same token type.
pub struct FixedTokenType {
    pub token_type: String,
}

impl TokenTypeDerivation for FixedTokenType {
    open spec fn accepts(&self, value: &str) -> bool {
        true
    }

    open spec fn derives(&self, value: &str, r: String) -> bool {
        r@ == self.token_type@
    }

    open spec fn obeys(&self) -> bool {
        true
    }

    open spec fn spec_derive(&self, value: Seq<char>) -> Seq<char> {
        self.token_type@
    }

    fn derive(&self, value: &str) -> (r: String) {
        self.token_type.clone()
    }
}

impl<F: Fn(&str) -> String> TokenTypeDerivation for F {
    open spec fn accepts(&self, value: &str) -> bool {
        call_requires(*self, (value,))
    }

    open spec fn derives(&self, value: &str, r: String) -> bool {
        call_ensures(*self, (value,), r)
    }

    open spec fn obeys(&self) -> bool {
        false
    }

    open spec fn spec_derive(&self, value: Seq<char>) -> Seq<char> {
        value
    }

    /// The closure applied to `value`.
    fn derive(&self, value: &str) -> (r: String) {
        self(value)
    }
}

/// A derivation that always gives `token_type`.
pub fn fixed_token_type(token_type: &str) -> (r: FixedTokenType)
    ensures
        r.token_type@ == token_type@,
{
    FixedTokenType { token_type: String::from_str(token_type) }
}

/// A single tokenization rule: how the token type is derived, the compiled
/// regex, and whether matched tokens are discarded.
pub struct LexerRule {
    pub token_type_fn: Box<dyn TokenTypeDerivation>,
    pub pattern: fancy_regex::Regex,
    pub ignore: bool,
    source: String,
}

impl LexerRule {
    /// The pattern the regex was compiled from (anchored, with flags).
    pub closed spec fn source(&self) -> String {
        self.source
    }

    pub closed spec fn is_ignored(&self) -> bool {
        self.ignore
    }

    pub closed spec fn derivation(&self) -> Box<dyn TokenTypeDerivation> {
        self.token_type_fn
    }

    pub fn ignored(&self) -> (r: bool)
        ensures
            r == self.is_ignored(),
    {
        self.ignore
    }

    /// The token type of a match of this rule.
    pub fn token_type_of(&self, value: &str) -> (r: String)
        requires
            self.derivation().accepts(value),
        ensures
            self.derivation().derives(value, r),
            self.derivation().obeys() ==> r@ == self.derivation().spec_derive(value@),
    {
        self.token_type_fn.derive(value)
    }

    pub fn source_str(&self) -> (r: &str)
        ensures
            r@ == self.source()@,
    {
        self.source.as_str()
    }
}

/// `pattern` anchored at the start of the text: `^` is put in front unless
/// it is there already.
pub open spec fn anchored(pattern: Seq<char>) -> Seq<char> {
    if pattern.len() > 0 && pattern[0] == '^' {
        pattern
    } else {
        seq!['^'] + pattern
    }
}

/// The pattern that is compiled for a rule.
pub open spec fn rule_source(pattern: Seq<char>, case_insensitive: bool) -> Seq<char> {
    if case_insensitive {
        seq!['(', '?', 'i', ')'] + anchored(pattern)
    } else {
        anchored(pattern)
    }
}

/// The compiled pattern of a rule as an executable string.
pub fn make_rule_source(pattern: &str, case_insensitive: bool) -> (r: String)
    ensures
        r@ == rule_source(pattern@, case_insensitive),
{
    let starts = pattern.unicode_len() > 0 && pattern.get_char(0) == '^';
    let a = if starts {
        String::from_str(pattern)
    } else {
        let s = String::from_str("^");
        proof {
            reveal_strlit("^");
        }
        s.concat(pattern)
    };
    if case_insensitive {
        let s = String::from_str("(?i)");
        proof {
            reveal_strlit("(?i)");
        }
        s.concat(a.as_str())
    } else {
        a
    }
}

/// A registered rule in mathematical form: its compiled pattern, whether
/// it is ignored, and its token type derivation.
pub open spec fn rule_is(
    r: LexerRule,
    pattern: Seq<char>,
    case_insensitive: bool,
    ignore: bool,
) -> bool {
    &&& r.source()@ == rule_source(pattern, case_insensitive)
    &&& r.is_ignored() == ignore
}

/// Tokenization rules, tried in insertion order; the first match wins.
pub struct LexerGrammar {
    rules: Vec<LexerRule>,
}

impl LexerGrammar {
    pub closed spec fn rules_view(&self) -> Seq<LexerRule> {
        self.rules@
    }

    /// Every token type derivation may be called on every text.
    pub open spec fn derivations_total(&self) -> bool {
        forall|i: int, v: &str|
            0 <= i < self.rules_view().len() ==> #[trigger] self.rules_view()[i].derivation().accepts(v)
    }

    /// Every token type derivation computes its specification.
    pub open spec fn derivations_obey(&self) -> bool {
        forall|i: int| 0 <= i < self.rules_view().len() ==> #[trigger] self.rules_view()[i].derivation().obeys()
    }

    pub fn new() -> (lg: LexerGrammar)
        ensures
            lg.rules_view().len() == 0,
            lg.derivations_total(),
            lg.derivations_obey(),
    {
        LexerGrammar { rules: Vec::new() }
    }

    /// Register a rule with a fixed token type. `^` is put in front of the
    /// pattern unless it starts with one; `case_insensitive` compiles it
    /// with the `i` flag. The pattern must compile.
    pub fn add_rule(&mut self, token_type: &str, pattern: &str, ignore: bool, case_insensitive: bool) -> (r:
        &mut Self)
        requires
            regex_compiles(rule_source(pattern@, case_insensitive)),
        ensures
            (*r).rules_view().len() == old(self).rules_view().len() + 1,
            forall|i: int| 0 <= i < old(self).rules_view().len() ==> (*r).rules_view()[i] == old(self).rules_view()[i],
            rule_is((*r).rules_view().last(), pattern@, case_insensitive, ignore),
            (*r).rules_view().last().derivation().obeys(),
            forall|v: Seq<char>| #[trigger] (*r).rules_view().last().derivation().spec_derive(v) == token_type@,
            forall|v: &str| #[trigger] (*r).rules_view().last().derivation().accepts(v),
            forall|v: &str, t: String| #[trigger] (*r).rules_view().last().derivation().derives(v, t) == (t@
                == token_type@),
            old(self).derivations_total() ==> (*r).derivations_total(),
            old(self).derivations_obey() ==> (*r).derivations_obey(),
            *final(self) == *final(r),
    {
        self.add_rule_with_tok_type_derivation(fixed_token_type(token_type), pattern, ignore, case_insensitive)
    }

    /// Register a rule whose token type is derived from the matched text.
    /// The pattern must compile.
    pub fn add_rule_with_tok_type_derivation<D: TokenTypeDerivation + 'static>(
        &mut self,
        token_type_fn: D,
        pattern: &str,
        ignore: bool,
        case_insensitive: bool,
    ) -> (r: &mut Self)
        requires
            regex_compiles(rule_source(pattern@, case_insensitive)),
        ensures
            (*r).rules_view().len() == old(self).rules_view().len() + 1,
            forall|i: int| 0 <= i < old(self).rules_view().len() ==> (*r).rules_view()[i] == old(self).rules_view()[i],
            rule_is((*r).rules_view().last(), pattern@, case_insensitive, ignore),
            (*r).rules_view().last().derivation().obeys() == token_type_fn.obeys(),
            forall|v: Seq<char>| #[trigger] (*r).rules_view().last().derivation().spec_derive(v)
                == token_type_fn.spec_derive(v),
            forall|v: &str| #[trigger] (*r).rules_view().last().derivation().accepts(v) == token_type_fn.accepts(v),
            forall|v: &str, t: String| #[trigger] (*r).rules_view().last().derivation().derives(v, t)
                == token_type_fn.derives(v, t),
            old(self).derivations_total() && (forall|v: &str| #[trigger] token_type_fn.accepts(v)) ==> (*r).derivations_total(),
            old(self).derivations_obey() && token_type_fn.obeys() ==> (*r).derivations_obey(),
            *final(self) == *final(r),
    {
        let added = self.try_add_rule_with_tok_type_derivation(token_type_fn, pattern, ignore, case_insensitive);
        assert(added);
        self
    }

    /// Register a rule when its pattern compiles; returns whether it was added.
    pub fn try_add_rule_with_tok_type_derivation<D: TokenTypeDerivation + 'static>(
        &mut self,
        token_type_fn: D,
        pattern: &str,
        ignore: bool,
        case_insensitive: bool,
    ) -> (added: bool)
        ensures
            added == regex_compiles(rule_source(pattern@, case_insensitive)),
            !added ==> final(self).rules_view() == old(self).rules_view(),
            added ==> {
                &&& final(self).rules_view().len() == old(self).rules_view().len() + 1
                &&& forall|i: int|
                    0 <= i < old(self).rules_view().len() ==> final(self).rules_view()[i] == old(
                        self,
                    ).rules_view()[i]
                &&& rule_is(final(self).rules_view().last(), pattern@, case_insensitive, ignore)
                &&& final(self).rules_view().last().derivation().obeys() == token_type_fn.obeys()
                &&& forall|v: Seq<char>| #[trigger] final(self).rules_view().last().derivation().spec_derive(v)
                    == token_type_fn.spec_derive(v)
                &&& forall|v: &str| #[trigger] final(self).rules_view().last().derivation().accepts(v)
                    == token_type_fn.accepts(v)
                &&& forall|v: &str, t: String| #[trigger] final(self).rules_view().last().derivation().derives(v, t)
                    == token_type_fn.derives(v, t)
            },
            old(self).derivations_total() && (forall|v: &str| #[trigger] token_type_fn.accepts(v))
                ==> final(self).derivations_total(),
            old(self).derivations_obey() && token_type_fn.obeys() ==> final(self).derivations_obey(),
    {
        let source = make_rule_source(pattern, case_insensitive);
        match regex_new(source.as_str()) {
            Ok(regex) => {
                let rule = LexerRule::new(token_type_fn, regex, ignore, source);
                let ghost old_rules = self.rules@;
                self.rules.push(rule);
                proof {
                    assert(forall|i: int| 0 <= i < old_rules.len() ==> self.rules@[i] == old_rules[i]);
                    assert(self.rules@[old_rules.len() as int] == rule);
                }
                true
            },
            Err(_) => false,
        }
    }

    /// Register a rule with a fixed token type when its pattern compiles;
    /// returns whether it was added.
    pub fn try_add_rule(&mut self, token_type: &str, pattern: &str, ignore: bool, case_insensitive: bool) -> (added:
        bool)
        ensures
            added == regex_compiles(rule_source(pattern@, case_insensitive)),
            !added ==> final(self).rules_view() == old(self).rules_view(),
            added ==> {
                &&& final(self).rules_view().len() == old(self).rules_view().len() + 1
                &&& forall|i: int|
                    0 <= i < old(self).rules_view().len() ==> final(self).rules_view()[i] == old(
                        self,
                    ).rules_view()[i]
                &&& rule_is(final(self).rules_view().last(), pattern@, case_insensitive, ignore)
                &&& final(self).rules_view().last().derivation().obeys()
                &&& forall|v: Seq<char>| #[trigger] final(self).rules_view().last().derivation().spec_derive(v)
                    == token_type@
                &&& forall|v: &str, t: String| #[trigger] final(self).rules_view().last().derivation().derives(v, t)
                    == (t@ == token_type@)
            },
            old(self).derivations_total() ==> final(self).derivations_total(),
            old(self).derivations_obey() ==> final(self).derivations_obey(),
    {
        self.try_add_rule_with_tok_type_derivation(fixed_token_type(token_type), pattern, ignore, case_insensitive)
    }

    pub fn rules(&self) -> (r: &[LexerRule])
        ensures
            r@ == self.rules_view(),
    {
        self.rules.as_slice()
    }

    pub fn rule_at(&self, i: usize) -> (r: &LexerRule)
        requires
            i < self.rules_view().len(),
        ensures
            *r == self.rules_view()[i as int],
    {
        &self.rules[i]
    }

    pub fn rule_count(&self) -> (r: usize)
        ensures
            r == self.rules_view().len(),
    {
        self.rules.len()
    }

    /// The token type name itself (for readability when building grammars).
    pub fn token_type<'a>(&self, name: &'a str) -> (r: &'a str)
        ensures
            r@ == name@,
    {
        name
    }
}

impl LexerRule {
    fn new<D: TokenTypeDerivation + 'static>(token_type_fn: D, pattern: fancy_regex::Regex, ignore: bool, source: String) -> (r:
        LexerRule)
        ensures
            r.source() == source,
            r.ignore == ignore,
            r.derivation().obeys() == token_type_fn.obeys(),
            forall|v: Seq<char>| #[trigger] r.derivation().spec_derive(v) == token_type_fn.spec_derive(v),
            forall|v: &str| #[trigger] r.derivation().accepts(v) == token_type_fn.accepts(v),
            forall|v: &str, t: String| #[trigger] r.derivation().derives(v, t) == token_type_fn.derives(v, t),
    {
        LexerRule { token_type_fn: Box::new(token_type_fn), pattern, ignore, source }
    }
}

impl Default for LexerGrammar {
    fn default() -> (r: Self)
        ensures
            r.rules_view().len() == 0,
    {
        LexerGrammar::new()
    }
}

} // verus!
