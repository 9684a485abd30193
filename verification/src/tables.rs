//! Parse tables and lex tables.
use vstd::prelude::*;

use crate::nfa::CharacterSet;
use crate::order::{is_ascending, text_order};
use crate::rules::{Alias, Symbol, TokenSet};

verus! {

/// What a parser does in a state on a token.
#[derive(Clone, Copy, Debug, PartialEq, Eq, Structural)]
pub enum ParseAction {
    Accept,
    Shift { state: usize, is_repetition: bool },
    ShiftExtra,
    Recover,
    Reduce { symbol: Symbol, child_count: usize, dynamic_precedence: i32, production_id: usize },
}

/// Where a parser goes after the completion of a non-terminal.
#[derive(Clone, Copy, Debug, PartialEq, Eq, Structural)]
pub enum GotoAction {
    Goto(usize),
    ShiftExtra,
}

/// The actions of a state on one token.
#[derive(Debug, PartialEq, Eq)]
pub struct ParseTableEntry {
    pub actions: Vec<ParseAction>,
    pub reusable: bool,
}

/// What a list of actions says.
pub struct EntryView {
    pub actions: Seq<ParseAction>,
    pub reusable: bool,
}

impl View for ParseTableEntry {
    type V = EntryView;

    open spec fn view(&self) -> EntryView {
        EntryView { actions: self.actions@, reusable: self.reusable }
    }
}

impl ParseTableEntry {
    /// The two entries say the same.
    pub fn equals(&self, other: &ParseTableEntry) -> (r: bool)
        ensures
            r == (self@ == other@),
    {
        if self.reusable != other.reusable || self.actions.len() != other.actions.len() {
            return false;
        }
        let mut i: usize = 0;
        while i < self.actions.len()
            invariant
                i <= self.actions@.len(),
                self.actions@.len() == other.actions@.len(),
                forall|j: int| 0 <= j < i ==> self.actions@[j] == other.actions@[j],
            decreases self.actions@.len() - i,
        {
            if self.actions[i] != other.actions[i] {
                assert(self@.actions[i as int] != other@.actions[i as int]);
                return false;
            }
            i += 1;
        }
        assert(self.actions@ =~= other.actions@);
        true
    }
}

/// A state of a parser.
///
/// The entries are in the order in which they were made.
pub struct ParseState {
    pub terminal_entries: Vec<(Symbol, ParseTableEntry)>,
    pub nonterminal_entries: Vec<(Symbol, GotoAction)>,
    pub reserved_words: TokenSet,
    pub lex_state_id: usize,
    pub external_lex_state_id: usize,
    pub core_id: usize,
}

impl ParseState {
    /// No symbol has two entries of one kind.
    pub open spec fn wf(&self) -> bool {
        &&& forall|i: int, j: int|
            0 <= i < j < self.terminal_entries@.len() ==> (#[trigger] self.terminal_entries@[i]).0
                != (#[trigger] self.terminal_entries@[j]).0
        &&& forall|i: int, j: int|
            0 <= i < j < self.nonterminal_entries@.len() ==> (
            #[trigger] self.nonterminal_entries@[i]).0 != (
            #[trigger] self.nonterminal_entries@[j]).0
    }

    /// The state is at the end of a non-terminal extra.
    pub open spec fn at_end_of_extra(&self) -> bool {
        exists|i: int|
            0 <= i < self.terminal_entries@.len() && (#[trigger] self.terminal_entries@[i]).0
                == Symbol::end_of_nonterminal_extra()
    }

    /// The state is at the end of a non-terminal extra.
    pub fn is_end_of_non_terminal_extra(&self) -> (r: bool)
        ensures
            r == self.at_end_of_extra(),
    {
        let mut i: usize = 0;
        while i < self.terminal_entries.len()
            invariant
                i <= self.terminal_entries@.len(),
                forall|j: int|
                    0 <= j < i ==> (#[trigger] self.terminal_entries@[j]).0
                        != Symbol::end_of_nonterminal_extra(),
            decreases self.terminal_entries@.len() - i,
        {
            if self.terminal_entries[i].0 == Symbol::end_of_nonterminal_extra() {
                return true;
            }
            i += 1;
        }
        false
    }
}

/// Where a field of a production is found.
#[derive(Clone, Copy, Debug, PartialEq, Eq, Structural)]
pub struct FieldLocation {
    pub index: usize,
    pub inherited: bool,
}

/// The aliases and fields of a production.
pub struct ProductionInfo {
    pub alias_sequence: Vec<Option<Alias>>,
    pub field_map: Vec<(String, Vec<FieldLocation>)>,
}

impl ProductionInfo {
    /// The names of the fields.
    pub open spec fn names(&self) -> Seq<Seq<char>> {
        self.field_map@.map_values(|field: (String, Vec<FieldLocation>)| field.0@)
    }

    /// The fields are in ascending order of their names, so that no name occurs twice.
    pub open spec fn wf(&self) -> bool {
        is_ascending(self.names(), text_order())
    }
}

/// The tables of a parser.
pub struct ParseTable {
    pub states: Vec<ParseState>,
    pub symbols: Vec<Symbol>,
    pub production_infos: Vec<ProductionInfo>,
    pub max_aliased_production_length: usize,
    pub external_lex_states: Vec<TokenSet>,
}

/// A step to another lex state.
#[derive(Clone, Copy, Debug, PartialEq, Eq, Structural)]
pub struct AdvanceAction {
    pub state: usize,
    pub in_main_token: bool,
}

/// A state of a lexer.
pub struct LexState {
    pub accept_action: Option<Symbol>,
    pub eof_action: Option<AdvanceAction>,
    pub advance_actions: Vec<(CharacterSet, AdvanceAction)>,
}

/// The states of a lexer.
pub struct LexTable {
    pub states: Vec<LexState>,
}

impl LexState {
    /// The sets of characters are well formed.
    pub open spec fn wf(&self) -> bool {
        forall|i: int|
            0 <= i < self.advance_actions@.len() ==> (#[trigger] self.advance_actions@[i]).0.wf()
    }
}

impl LexTable {
    /// The states are well formed.
    pub open spec fn wf(&self) -> bool {
        forall|i: int| 0 <= i < self.states@.len() ==> (#[trigger] self.states@[i]).wf()
    }
}

} // verus!
