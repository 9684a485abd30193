//! Renders a parser as Rust source code.
pub mod action_laws;
pub mod actions;
pub mod alias_laws;
pub mod alias_map;
pub mod arm_laws;
pub mod arrangement_laws;
pub mod condition_laws;
pub mod conditions;
pub mod declaration_laws;
pub mod entries;
pub mod entry_laws;
pub mod export;
pub mod export_laws;
pub mod field_laws;
pub mod fields;
pub mod generator;
pub mod init;
pub mod input;
pub mod lexer;
pub mod lexer_laws;
pub mod list_laws;
pub mod literal_laws;
pub mod name_laws;
pub mod names;
pub mod parse_table;
pub mod parser_laws;
pub mod section_laws;
pub mod small_table;
pub mod state_laws;
pub mod states;
pub mod subtype_laws;
pub mod supertype_laws;
pub mod supertypes;
pub mod symbol_laws;
pub mod symbols;
pub mod table_laws;

pub use export::render_rust_code;
