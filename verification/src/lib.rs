//! Renders the tables of an incremental parser as Rust source code, and holds what such rendered
//! parsers use at run time.
pub mod build_tables;
pub mod grammars;
pub mod nfa;
pub mod nfa_laws;
pub mod node_types;
pub mod order;
pub mod order_laws;
pub mod render;
pub mod render_rust;
pub mod rule_laws;
pub mod rules;
pub mod runtime;
pub mod tables;
pub mod text;
pub mod text_laws;
