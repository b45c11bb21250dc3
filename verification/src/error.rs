use vstd::prelude::*;

verus! {

/// Errors produced during lexing or parsing.
#[derive(Debug, Clone, PartialEq)]
pub enum ParseError {
    /// A character in the input text did not match any lexer rule.
    UnexpectedChar { ch: char, line: usize, col: usize },
    /// A token in the token stream did not match the grammar at this point.
    UnexpectedToken { found: String, line: usize, col: usize },
    /// The grammar matched more than one valid parse path (ambiguous grammar).
    AmbiguousGrammar,
    /// All tokens were consumed but no valid parse path reached the grammar end.
    IncompleteParse,
}

impl ParseError {
    /// A copy equal to `self`.
    pub fn duplicate(&self) -> (r: ParseError)
        ensures
            r == *self,
    {
        match self {
            ParseError::UnexpectedChar { ch, line, col } => ParseError::UnexpectedChar { ch: *ch, line: *line, col: *col },
            ParseError::UnexpectedToken { found, line, col } => ParseError::UnexpectedToken {
                found: found.clone(),
                line: *line,
                col: *col,
            },
            ParseError::AmbiguousGrammar => ParseError::AmbiguousGrammar,
            ParseError::IncompleteParse => ParseError::IncompleteParse,
        }
    }
}

} // verus!
