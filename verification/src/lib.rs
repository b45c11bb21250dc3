//! Alteraparser: a lexer, a breadth-first grammar parser that detects
//! ambiguity, an AST with an XML-like writer, and a code generator for
//! grammar definitions.
//!
//! Pipeline: text -> [`lexer::Lexer`] -> tokens -> [`parser::Parser`] -> [`ast::Ast`].

pub mod ast;
pub mod error;
pub mod token;
pub mod grammar;
pub mod graph;
pub mod walks;
pub mod search;
pub mod shortcut;
pub mod parser;
pub mod nesting;
pub mod lexer_grammar;
pub mod lexer;
pub mod meta;
pub mod prelude;
