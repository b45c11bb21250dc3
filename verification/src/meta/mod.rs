//! The grammar definition language: its lexer and grammar, a code
//! generator that turns a definition into Rust code building the grammar,
//! and a macro expander for definition ASTs.
pub mod lexer_grammar;
pub mod grammar;
pub mod codegen;
pub mod macros;
