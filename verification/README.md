# alteraparser

A grammar toolkit: a regex-driven lexer, a breadth-first parser over a
syntax graph that keeps every possible walk in parallel (and so reports
unexpected tokens, ambiguous grammars and incomplete input), an AST with an
XML-like writer, and a code generator that turns a grammar definition into
Rust code that builds the grammar.

The library in `src/` is written in Verus, and Verus proves the contracts
of its functions, with these exceptions:

- Two small wrappers around `fancy_regex` (compiling a pattern and finding
  a match) are trusted: their contracts are taken as given.
- The definition language's grammar has to pass the bounded-walk check
  before the code generator parses with it. The generator runs this check
  at run time and returns an error if it fails; that the check passes is
  not proved.
- Closures registered as transformers or token-type derivations promise
  only what the closure itself ensures.

Rule bodies are expanded once, when a rule is added, and compiled into one
graph that every node handed out shares. A position in that graph is a
stack of entered rule references and a local node, so each occurrence of a
rule reference still has nodes of its own.

## Layout

- `src/ast.rs` – AST nodes, attributes, and the XML-like writer.
- `src/token.rs` – tokens and the `TokenStream` trait.
- `src/lexer_grammar.rs`, `src/lexer.rs` – tokenization rules (compiled by
  `fancy_regex`) and the lexer.
- `src/grammar.rs` – grammar elements, combinators and the grammar registry.
- `src/graph.rs` – compilation of a grammar into a syntax graph, positions
  with a stack of entered rule references, and the searches over it.
- `src/walks.rs` – a check that token-free walks are bounded, with its proof.
- `src/search.rs` – the token-free search to a node that satisfies a
  predicate: it keeps the positions it visited, so it ends on every graph.
- `src/shortcut.rs` – why the search may stop at a bounded depth: a deeper
  token-free walk that comes back up can be shortened.
- `src/parser.rs` – the walk search, AST construction, `Parser` and
  `TextParser`.
- `src/nesting.rs` – the proof that every walk the parser accepts builds an
  AST.
- `src/prelude.rs` – the items most programs import. The sequence
  combinator `seq` is not re-exported there (the name is also a macro of the
  verifier's prelude); generated code that uses it needs
  `use alteraparser::grammar::seq;`.
- `src/meta/` – the grammar definition language: its lexer grammar, its
  grammar with transformers, macro expansion, and code generation.
- `app/` – the command-line generator (`alteraparsgen`): reads a definition
  file and writes or prints the generated code.
- `tests/` – tests of the library.
