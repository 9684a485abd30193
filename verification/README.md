# tree_sitter_render

Renders the tables of an incremental parser as Rust source code.

- `src/render_rust/` renders: `input.rs` says what a parser is rendered from and what follows from
  it, `generator.rs` and `init.rs` work that out, and the other files render one section each.
  `export.rs` puts the sections together in `render_rust_code`.
- `src/render_rust/*_laws.rs` state what holds of every rendered parser.
- `src/runtime.rs` has the types that rendered parsers are made of.
- `src/nfa.rs`, `src/rules.rs`, `src/tables.rs` and `src/grammars.rs` have the character sets,
  symbols, tables and grammars that are rendered; `src/text.rs` and `src/order.rs` have the texts
  and the orders that the rest is stated with.
- `app/` gives the run-time types their function pointers.

Everything in `src/` is verified: the contract of `render_rust_code` gives the rendered text for
every parser that can be rendered, and says which parsers cannot be.
