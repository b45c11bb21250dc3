//! The items most programs need: `use alteraparser::prelude::*;`.
//!
//! The sequence combinator is not among them, as its name is also a macro
//! that the verifier's prelude brings in: import it as
//! `alteraparser::grammar::seq`.
pub use crate::ast::{Ast, AstStrWriter};
pub use crate::error::ParseError;
pub use crate::grammar::{choice, many, one_or_more, opt, tok, Grammar};
pub use crate::lexer::Lexer;
pub use crate::lexer_grammar::LexerGrammar;
pub use crate::parser::{Parser, TextParser};
pub use crate::token::{Token, TokenStream, TokenStreamFromList};
