//! What symbols, aliases, entries and states are told by.
use vstd::prelude::*;

use crate::rules::{Alias, Symbol, SymbolMap, SymbolType, TokenSet};
use crate::tables::{ParseState, ParseTableEntry};

verus! {

/// Symbols are told by their kinds, and the two ends are the first of their kinds.
pub proof fn symbols_are_told_by_kind(symbol: Symbol)
    ensures
        symbol.is_terminal() <==> symbol.kind == SymbolType::Terminal,
        symbol.is_non_terminal() <==> symbol.kind == SymbolType::NonTerminal,
        symbol.is_external() <==> symbol.kind == SymbolType::External,
        symbol.is_eof() <==> symbol.kind == SymbolType::End,
        symbol == Symbol::end() <==> symbol.kind == SymbolType::End && symbol.index == 0,
        symbol == Symbol::end_of_nonterminal_extra() <==> symbol.kind
            == SymbolType::EndOfNonTerminalExtra && symbol.index == 0,
{
}

/// Two aliases say the same if they have the same text and are both named or both anonymous, two
/// entries if they have the same actions and can both be reused or not, and two sets of tokens if
/// they have the same tokens.
pub proof fn views_tell_parts_apart(
    a: Alias,
    b: Alias,
    x: ParseTableEntry,
    y: ParseTableEntry,
    s: TokenSet,
    t: TokenSet,
)
    ensures
        a@ == b@ <==> a.value@ == b.value@ && a.is_named == b.is_named,
        x@ == y@ <==> x.actions@ == y.actions@ && x.reusable == y.reusable,
        s@ == t@ <==> s.tokens@ == t.tokens@,
{
}

/// A map has the symbols of its entries, each with the value that its entry has.
pub proof fn maps_have_their_entries<V: View>(map: SymbolMap<V>, symbol: Symbol, i: int)
    requires
        map.wf(),
    ensures
        map@.contains_key(symbol) <==> exists|k: int|
            0 <= k < map.entries@.len() && (#[trigger] map.entries@[k]).0 == symbol,
        0 <= i < map.entries@.len() ==> map@[map.entries@[i].0] == map.entries@[i].1@,
{
    if map@.contains_key(symbol) {
        let k = map.keys().index_of(symbol);
        assert(map.keys()[k] == symbol);
        assert(map.entries@[k].0 == symbol);
    }
    if exists|k: int| 0 <= k < map.entries@.len() && (#[trigger] map.entries@[k]).0 == symbol {
        let k = choose|k: int|
            0 <= k < map.entries@.len() && (#[trigger] map.entries@[k]).0 == symbol;
        map.lemma_entry(k);
    }
    if 0 <= i < map.entries@.len() {
        map.lemma_entry(i);
    }
}

/// A state is at the end of a non-terminal extra if it has an entry for that end.
pub proof fn ends_of_extras_have_entries(state: ParseState, t: int)
    ensures
        0 <= t < state.terminal_entries@.len() && state.terminal_entries@[t].0.kind
            == SymbolType::EndOfNonTerminalExtra && state.terminal_entries@[t].0.index == 0
            ==> state.at_end_of_extra(),
        state.at_end_of_extra() ==> exists|u: int|
            0 <= u < state.terminal_entries@.len() && (
            #[trigger] state.terminal_entries@[u]).0.kind == SymbolType::EndOfNonTerminalExtra,
{
    if 0 <= t < state.terminal_entries@.len() && state.terminal_entries@[t].0.kind
        == SymbolType::EndOfNonTerminalExtra && state.terminal_entries@[t].0.index == 0 {
        assert(state.terminal_entries@[t].0 == Symbol::end_of_nonterminal_extra());
    }
}

} // verus!
