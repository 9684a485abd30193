//! The tables from which a parser is rendered.
use vstd::prelude::*;

use crate::nfa::CharacterSet;
use crate::rules::Symbol;
use crate::tables::{LexTable, ParseTable};

verus! {

/// A set of characters with at least this many ranges is large.
pub const LARGE_CHARACTER_RANGE_COUNT: usize = 8;

/// The tables of a parser and its lexers.
pub struct Tables {
    pub parse_table: ParseTable,
    pub main_lex_table: LexTable,
    pub keyword_lex_table: LexTable,
    pub large_character_sets: Vec<(Option<Symbol>, CharacterSet)>,
}

} // verus!
