//! The types that rendered parsers are made of, and the membership test that their
//! lex functions call.
use vstd::prelude::*;

verus! {

/// The number of a grammar symbol in a rendered parser.
pub type Symbol = u16;

/// The number of a parse or lex state.
pub type StateId = u16;

/// The number of a field.
pub type FieldId = u16;

/// The symbol that stands for the end of the input.
pub const BUILTIN_SYM_END: Symbol = 0;

/// The symbol that stands for a syntax error.
pub const BUILTIN_SYM_ERROR: Symbol = 65535;

/// The size of the buffer into which an external scanner writes its state.
pub const SERIALIZATION_BUFFER_SIZE: usize = 1024;

/// How a symbol shows up in a syntax tree.
#[derive(Debug, Clone, Copy, PartialEq, Eq, Structural)]
pub struct SymbolMetadata {
    pub visible: bool,
    pub named: bool,
    pub supertype: bool,
}

/// One field of one child of a production.
#[derive(Debug, Clone, Copy, PartialEq, Eq, Structural)]
pub struct FieldMapEntry {
    pub field_id: FieldId,
    pub child_index: u8,
    pub inherited: bool,
}

/// A slice of a flat table.
#[derive(Debug, Clone, Copy, PartialEq, Eq, Structural)]
pub struct MapSlice {
    pub index: u16,
    pub length: u16,
}

/// The characters from `start` to `end`, both of them in the range.
#[derive(Debug, Clone, Copy, PartialEq, Eq, Structural)]
pub struct CharacterRange {
    pub start: i32,
    pub end: i32,
}

/// How a parse state has its tokens recognized.
#[derive(Debug, Clone, Copy, PartialEq, Eq, Structural)]
pub struct LexMode {
    pub lex_state: StateId,
    pub external_lex_state: StateId,
    pub reserved_word_set_id: u16,
}

/// The kinds of parse actions, in the order of their numbers in the parse action table.
#[derive(Debug, Clone, Copy, PartialEq, Eq, Structural)]
pub enum ParseActionType {
    Shift,
    Reduce,
    Accept,
    Recover,
}

/// A move to another parse state.
#[derive(Debug, Clone, Copy)]
pub struct ShiftAction {
    pub state: StateId,
    pub extra: bool,
    pub repetition: bool,
}

/// The completion of a production.
#[derive(Debug, Clone, Copy)]
pub struct ReduceAction {
    pub child_count: u8,
    pub symbol: Symbol,
    pub dynamic_precedence: i16,
    pub production_id: u16,
}

/// What a parser does in a state on a token.
#[derive(Debug, Clone, Copy)]
pub enum ParseAction {
    Shift(ShiftAction),
    Reduce(ReduceAction),
    Accept,
    Recover,
}

/// The head of a list of parse actions.
#[derive(Debug, Clone, Copy)]
pub struct ParseActionEntry {
    pub count: u8,
    pub reusable: bool,
}

/// The version of a grammar.
#[derive(Debug, Clone, Copy, PartialEq, Eq, Structural)]
pub struct LanguageMetadata {
    pub major_version: u8,
    pub minor_version: u8,
    pub patch_version: u8,
}

/// The interface that generated lex functions use to interact with the lexer.
pub trait Lexer {
    fn lookahead(&self) -> i32;

    fn result_symbol(&self) -> Symbol;

    fn set_result_symbol(&mut self, symbol: Symbol);

    fn advance(&mut self, skip: bool);

    fn mark_end(&mut self);

    fn get_column(&self) -> u32;

    fn is_at_included_range_start(&self) -> bool;

    fn eof(&self) -> bool;
}

/// The functions of a grammar's own tokenizer, with the tables that they work on.
///
/// The type parameters are the types of the five functions.
#[derive(Debug, Clone, Copy)]
pub struct ExternalScanner<Create, Destroy, Scan, Serialize, Deserialize> {
    /// Flattened validity of the external tokens: a row for each external lex state.
    pub states: &'static [bool],
    pub symbol_map: &'static [Symbol],
    pub create: Create,
    pub destroy: Destroy,
    pub scan: Scan,
    pub serialize: Serialize,
    pub deserialize: Deserialize,
}

/// The main language definition struct.
///
/// Generated parsers produce a language that contains all parse tables, lex functions, and
/// metadata needed to drive parsing. The type parameters are the type of a lex function and
/// the type by which the external scanner is reached.
pub struct Language<LexFn, Scanner> {
    pub abi_version: u32,
    pub symbol_count: u32,
    pub alias_count: u32,
    pub token_count: u32,
    pub external_token_count: u32,
    pub state_count: u32,
    pub large_state_count: u32,
    pub production_id_count: u32,
    pub field_count: u32,
    pub max_alias_sequence_length: u16,
    pub max_reserved_word_set_size: u16,
    pub supertype_count: u32,
    /// Flattened parse table: a row of action indices for each large state.
    pub parse_table: &'static [u16],
    /// Compact representation for states with few entries.
    pub small_parse_table: &'static [u16],
    /// Maps the number of a small state to an index into `small_parse_table`.
    pub small_parse_table_map: &'static [u32],
    /// Heads of action lists, each followed by its actions, encoded for compact storage.
    pub parse_actions: &'static [u32],
    pub symbol_names: &'static [&'static str],
    pub field_names: &'static [Option<&'static str>],
    pub field_map_slices: &'static [MapSlice],
    pub field_map_entries: &'static [FieldMapEntry],
    pub symbol_metadata: &'static [SymbolMetadata],
    pub public_symbol_map: &'static [Symbol],
    pub alias_map: &'static [u16],
    /// Flattened alias sequences: a row for each production.
    pub alias_sequences: &'static [Symbol],
    pub lex_modes: &'static [LexMode],
    pub lex_fn: LexFn,
    pub keyword_lex_fn: Option<LexFn>,
    pub keyword_capture_token: Symbol,
    pub external_scanner: Option<Scanner>,
    pub primary_state_ids: &'static [StateId],
    pub name: &'static str,
    pub reserved_words: &'static [Symbol],
    pub supertype_symbols: &'static [Symbol],
    pub supertype_map_slices: &'static [MapSlice],
    pub supertype_map_entries: &'static [Symbol],
    pub metadata: Option<LanguageMetadata>,
}

/// `c` lies in one of the ranges.
pub open spec fn in_ranges(ranges: Seq<CharacterRange>, c: int) -> bool {
    exists|i: int| 0 <= i < ranges.len() && in_range(#[trigger] ranges[i], c)
}

/// `c` lies in the range.
pub open spec fn in_range(range: CharacterRange, c: int) -> bool {
    range.start <= c <= range.end
}

/// The ranges are sorted, by where they start and by where they end.
pub open spec fn ranges_sorted(ranges: Seq<CharacterRange>) -> bool {
    forall|i: int, j: int|
        0 <= i <= j < ranges.len() ==> (#[trigger] ranges[i]).start <= (#[trigger] ranges[j]).start
            && ranges[i].end <= ranges[j].end
}

/// What is left to search after a probe in the middle of `size` ranges from `index` on.
pub open spec fn search_from(ranges: Seq<CharacterRange>, c: int, index: int, size: nat) -> bool
    decreases size,
{
    if size <= 1 {
        0 <= index < ranges.len() && in_range(ranges[index], c)
    } else {
        let mid = index + size / 2;
        in_range(ranges[mid], c) || search_from(
            ranges,
            c,
            if c > ranges[mid].end { mid } else { index },
            (size - size / 2) as nat,
        )
    }
}

/// Binary search over a sorted slice of `CharacterRange` to check membership.
#[must_use]
pub fn set_contains(ranges: &[CharacterRange], lookahead: i32) -> (r: bool)
    ensures
        ranges_sorted(ranges@) ==> r == in_ranges(ranges@, lookahead as int),
        r ==> in_ranges(ranges@, lookahead as int),
        r == search_from(ranges@, lookahead as int, 0, ranges@.len()),
        (forall|i: int, j: int|
            0 <= i <= j < ranges@.len() ==> (#[trigger] ranges@[i]).start <= (
            #[trigger] ranges@[j]).start && ranges@[i].end <= ranges@[j].end) ==> (r
            <==> exists|i: int|
            0 <= i < ranges@.len() && (#[trigger] ranges@[i]).start <= lookahead
                <= ranges@[i].end),
{
    let mut index: usize = 0;
    let len: usize = ranges.len();
    let mut size: usize = len;
    while size > 1
        invariant
            len == ranges@.len(),
            index + size <= len,
            ranges@.len() > 0 ==> size > 0,
            search_from(ranges@, lookahead as int, 0, ranges@.len()) == search_from(
                ranges@,
                lookahead as int,
                index as int,
                size as nat,
            ),
            ranges_sorted(ranges@) ==> forall|i: int|
                0 <= i < ranges@.len() && in_range(#[trigger] ranges@[i], lookahead as int)
                    ==> index <= i < index + size,
        decreases size,
    {
        let half_size: usize = size / 2;
        let mid_index: usize = index + half_size;
        let range: CharacterRange = ranges[mid_index];
        if lookahead >= range.start && lookahead <= range.end {
            assert(in_range(ranges@[mid_index as int], lookahead as int));
            return true;
        } else if lookahead > range.end {
            index = mid_index;
        }
        size -= half_size;
    }
    if index < len {
        let range: CharacterRange = ranges[index];
        let found: bool = lookahead >= range.start && lookahead <= range.end;
        assert(found == in_range(ranges@[index as int], lookahead as int));
        found
    } else {
        false
    }
}

} // verus!
