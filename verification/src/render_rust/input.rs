//! What a parser is rendered from, and the names and numbers that follow from it.
use vstd::prelude::*;

use crate::grammars::{LexicalGrammar, SyntaxGrammar, VariableType};
use crate::nfa::CharacterSet;
use crate::node_types::ChildType;
use crate::order::{ascending, first_index, text_order};
use crate::render_rust::names::{sanitized_identifier, uppercase};
use crate::rules::{alias_order, symbol_less, AliasMap, AliasView, Symbol, SymbolMap, SymbolType};
use crate::tables::{LexTable, ParseAction, ParseState, ParseTable, ProductionInfo};
use crate::text::decimal;

verus! {

/// Parse states with more entries than this are stored in full.
pub const SMALL_STATE_THRESHOLD: usize = 64;

/// The first version of the binary interface with reserved words.
pub const ABI_VERSION_WITH_RESERVED_WORDS: usize = 15;

/// The version of a grammar.
pub struct Metadata {
    pub major: u8,
    pub minor: u8,
    pub patch: u8,
}

/// What a parser is rendered from.
pub struct ParserInput {
    pub parse_table: ParseTable,
    pub main_lex_table: LexTable,
    pub keyword_lex_table: LexTable,
    pub large_character_sets: Vec<(Option<Symbol>, CharacterSet)>,
    pub syntax_grammar: SyntaxGrammar,
    pub lexical_grammar: LexicalGrammar,
    pub default_aliases: AliasMap,
    pub abi_version: usize,
    pub metadata: Option<Metadata>,
    pub supertype_symbol_map: SymbolMap<Vec<ChildType>>,
}

/// What the identifiers of symbols of a kind begin with.
pub open spec fn identifier_prefix(kind: VariableType) -> Seq<char> {
    match kind {
        VariableType::Auxiliary => "AUX_SYM_"@,
        VariableType::Anonymous => "ANON_SYM_"@,
        VariableType::Hidden | VariableType::Named => "SYM_"@,
    }
}

/// `base` with the number `k` behind it; 0 stands for no number.
pub open spec fn suffixed(base: Seq<char>, k: nat) -> Seq<char> {
    if k == 0 {
        base
    } else {
        base + "_"@ + decimal(k)
    }
}

/// `k` is the least number with which `base` is not in use.
pub open spec fn is_free_suffix(base: Seq<char>, used: Set<Seq<char>>, k: nat) -> bool {
    &&& !used.contains(suffixed(base, k))
    &&& forall|j: nat| j < k ==> used.contains(#[trigger] suffixed(base, j))
}

/// `base`, with the least number behind it that makes it differ from all that are in use.
pub open spec fn free_identifier(base: Seq<char>, used: Set<Seq<char>>) -> Seq<char> {
    suffixed(base, choose|k: nat| is_free_suffix(base, used, k))
}

impl ParserInput {
    /// The symbols of the parser.
    pub open spec fn symbols(&self) -> Seq<Symbol> {
        self.parse_table.symbols@
    }

    /// The productions of the parser.
    pub open spec fn infos(&self) -> Seq<ProductionInfo> {
        self.parse_table.production_infos@
    }

    /// The states of the parser.
    pub open spec fn states(&self) -> Seq<ParseState> {
        self.parse_table.states@
    }

    /// The symbol is the end, or one that the grammar has a name for.
    pub open spec fn is_known(&self, symbol: Symbol) -> bool {
        match symbol.kind {
            SymbolType::End => symbol.index == 0,
            SymbolType::NonTerminal => symbol.index < self.syntax_grammar.variables@.len(),
            SymbolType::Terminal => symbol.index < self.lexical_grammar.variables@.len(),
            SymbolType::External => symbol.index < self.syntax_grammar.external_tokens@.len(),
            SymbolType::EndOfNonTerminalExtra => false,
        }
    }

    /// The symbol has an identifier.
    pub open spec fn has_identifier(&self, symbol: Symbol) -> bool {
        self.symbols().contains(symbol) || symbol == Symbol::end_of_nonterminal_extra()
    }

    /// The name and the kind of a symbol.
    pub open spec fn symbol_metadata(&self, symbol: Symbol) -> (Seq<char>, VariableType) {
        let index = symbol.index as int;
        match symbol.kind {
            SymbolType::NonTerminal => (
                self.syntax_grammar.variables@[index].name@,
                self.syntax_grammar.variables@[index].kind,
            ),
            SymbolType::Terminal => (
                self.lexical_grammar.variables@[index].name@,
                self.lexical_grammar.variables@[index].kind,
            ),
            SymbolType::External => (
                self.syntax_grammar.external_tokens@[index].name@,
                self.syntax_grammar.external_tokens@[index].kind,
            ),
            _ => ("end"@, VariableType::Hidden),
        }
    }

    /// The default alias of a symbol.
    pub open spec fn default_alias(&self, symbol: Symbol) -> Option<AliasView> {
        if self.default_aliases@.contains_key(symbol) {
            Some(self.default_aliases@[symbol])
        } else {
            None
        }
    }

    /// The symbol that an external token is reported as.
    pub open spec fn scanner_symbol(&self, i: int) -> Symbol {
        match self.syntax_grammar.external_tokens@[i].corresponding_internal_token {
            Some(token) => token,
            None => Symbol { kind: SymbolType::External, index: i as usize },
        }
    }

    /// The lexer accepts only symbols that have identifiers.
    pub open spec fn accepts_identified(&self, table: LexTable) -> bool {
        forall|i: int|
            0 <= i < table.states@.len() && (#[trigger] table.states@[i]).accept_action is Some
                ==> self.has_identifier(table.states@[i].accept_action->0)
    }

    /// The entry reduces only to symbols that have identifiers.
    pub open spec fn reduces_identified(&self, actions: Seq<ParseAction>) -> bool {
        forall|i: int|
            0 <= i < actions.len() ==> (#[trigger] actions[i] matches ParseAction::Reduce {
                symbol,
                ..
            } ==> self.has_identifier(symbol))
    }

    /// The parts are well formed and fit together.
    pub open spec fn is_consistent(&self) -> bool {
        &&& self.symbols().contains(Symbol::end())
        &&& forall|i: int|
            0 <= i < self.symbols().len() ==> self.is_known(#[trigger] self.symbols()[i])
        &&& self.default_aliases.wf()
        &&& self.supertype_symbol_map.wf()
        &&& forall|i: int| 0 <= i < self.infos().len() ==> (#[trigger] self.infos()[i]).wf()
        &&& forall|i: int| 0 <= i < self.states().len() ==> (#[trigger] self.states()[i]).wf()
        &&& forall|i: int, j: int|
            #![trigger self.states()[i].terminal_entries@[j]]
            0 <= i < self.states().len() && 0 <= j < self.states()[i].terminal_entries@.len()
                ==> self.reduces_identified(self.states()[i].terminal_entries@[j].1.actions@)
        &&& self.abi_version >= ABI_VERSION_WITH_RESERVED_WORDS ==> forall|i: int, j: int|
            #![trigger self.states()[i].reserved_words@[j]]
            0 <= i < self.states().len() && 0 <= j < self.states()[i].reserved_words@.len()
                ==> self.has_identifier(self.states()[i].reserved_words@[j])
        &&& self.main_lex_table.wf()
        &&& self.accepts_identified(self.main_lex_table)
        &&& self.syntax_grammar.word_token matches Some(word) ==> {
            &&& self.has_identifier(word)
            &&& self.keyword_lex_table.wf()
            &&& self.accepts_identified(self.keyword_lex_table)
        }
        &&& forall|i: int|
            0 <= i < self.large_character_sets@.len() ==> {
                &&& (#[trigger] self.large_character_sets@[i]).1.wf()
                &&& self.large_character_sets@[i].0 matches Some(symbol) ==> self.has_identifier(
                    symbol,
                )
            }
        &&& forall|i: int|
            0 <= i < self.syntax_grammar.external_tokens@.len() ==> self.has_identifier(
                #[trigger] self.scanner_symbol(i),
            )
    }

    /// The parser can be rendered: its parts fit together, and the places that its parse actions
    /// take can be counted by a machine.
    pub open spec fn is_valid(&self) -> bool {
        self.is_consistent() && self.entry_slots() <= usize::MAX
    }

    /// The identifier of a symbol before it is told apart from those of other symbols.
    pub open spec fn base_identifier(&self, symbol: Symbol) -> Seq<char> {
        let (name, kind) = self.symbol_metadata(symbol);
        identifier_prefix(kind) + uppercase(sanitized_identifier(name))
    }

    /// The identifier that a symbol gets when those in `used` are taken.
    pub open spec fn new_identifier(&self, symbol: Symbol, used: Set<Seq<char>>) -> Seq<char> {
        if symbol == Symbol::end() {
            "ts_builtin_sym_end"@
        } else {
            free_identifier(self.base_identifier(symbol), used)
        }
    }

    /// The identifiers of the first `n` symbols.
    pub open spec fn identifiers(&self, n: nat) -> Seq<Seq<char>>
        decreases n,
    {
        if n == 0 {
            Seq::empty()
        } else {
            let before = self.identifiers((n - 1) as nat);
            before.push(self.new_identifier(self.symbols()[n - 1], before.to_set()))
        }
    }

    /// The identifiers of the first `n` symbols, by symbol.
    pub open spec fn symbol_ids_upto(&self, n: nat) -> Map<Symbol, Seq<char>>
        decreases n,
    {
        if n == 0 {
            Map::empty()
        } else {
            self.symbol_ids_upto((n - 1) as nat).insert(
                self.symbols()[n - 1],
                self.identifiers(n).last(),
            )
        }
    }

    /// The identifiers of all symbols.
    pub open spec fn symbol_ids(&self) -> Map<Symbol, Seq<char>> {
        let ids = self.symbol_ids_upto(self.symbols().len());
        ids.insert(Symbol::end_of_nonterminal_extra(), ids[Symbol::end()])
    }

    /// The identifier of a symbol.
    pub open spec fn id(&self, symbol: Symbol) -> Seq<char> {
        self.symbol_ids()[symbol]
    }

    /// The symbol has no default alias, and the name and kind that an alias gives.
    pub open spec fn is_plainly(&self, alias: AliasView) -> spec_fn(Symbol) -> bool {
        |symbol: Symbol|
            self.default_alias(symbol) is None && self.symbol_metadata(symbol) == (
                alias.value,
                alias.kind(),
            )
    }

    /// The symbol has the given default alias.
    pub open spec fn is_by_default(&self, alias: AliasView) -> spec_fn(Symbol) -> bool {
        |symbol: Symbol| self.default_alias(symbol) == Some(alias)
    }

    /// The symbol has the given name and kind.
    pub open spec fn has_metadata(&self, metadata: (Seq<char>, VariableType)) -> spec_fn(
        Symbol,
    ) -> bool {
        |symbol: Symbol| self.symbol_metadata(symbol) == metadata
    }

    /// `symbol` is the least of the parser's symbols that `pred` holds of.
    pub open spec fn is_least_symbol(&self, pred: spec_fn(Symbol) -> bool, symbol: Symbol) -> bool {
        &&& self.symbols().contains(symbol)
        &&& pred(symbol)
        &&& forall|other: Symbol|
            #[trigger] self.symbols().contains(other) && pred(other) ==> !symbol_less(other, symbol)
    }

    /// The symbol that is shown for a symbol, when the earlier ones are shown as `earlier` says.
    ///
    /// A symbol with a default alias is shown as the first symbol that is plainly what the
    /// alias makes it, or else as the least one with the same default alias. A terminal is
    /// shown as the first symbol with its name and kind, unless that one is shown as it.
    pub open spec fn shown_as(&self, symbol: Symbol, earlier: Map<Symbol, Symbol>) -> Symbol {
        match self.default_alias(symbol) {
            Some(alias) => {
                if self.symbols().any(self.is_plainly(alias)) {
                    self.symbols()[first_index(self.symbols(), self.is_plainly(alias))]
                } else {
                    choose|s: Symbol| self.is_least_symbol(self.is_by_default(alias), s)
                }
            },
            None => {
                if symbol.is_terminal() {
                    let twin = self.symbols()[first_index(
                        self.symbols(),
                        self.has_metadata(self.symbol_metadata(symbol)),
                    )];
                    if earlier.contains_key(twin) && earlier[twin] == symbol {
                        symbol
                    } else {
                        twin
                    }
                } else {
                    symbol
                }
            },
        }
    }

    /// What the first `n` symbols are shown as.
    pub open spec fn symbol_map_upto(&self, n: nat) -> Map<Symbol, Symbol>
        decreases n,
    {
        if n == 0 {
            Map::empty()
        } else {
            let before = self.symbol_map_upto((n - 1) as nat);
            let symbol = self.symbols()[n - 1];
            before.insert(symbol, self.shown_as(symbol, before))
        }
    }

    /// What each symbol is shown as.
    pub open spec fn symbol_map(&self) -> Map<Symbol, Symbol> {
        self.symbol_map_upto(self.symbols().len())
    }

    /// The symbol is shown as the alias says, without being aliased in a production.
    pub open spec fn is_aliased_as(&self, alias: AliasView) -> spec_fn(Symbol) -> bool {
        |symbol: Symbol|
            match self.default_alias(symbol) {
                Some(default) => default == alias,
                None => self.symbol_metadata(symbol) == (alias.value, alias.kind()),
            }
    }

    /// The symbols that are shown as the alias says.
    pub open spec fn symbols_with_alias(&self, alias: AliasView) -> Seq<Symbol> {
        self.symbols().filter(self.is_aliased_as(alias))
    }

    /// The alias is the one at place `j` of production `i`.
    pub open spec fn has_alias_at(&self, i: int, j: int, alias: AliasView) -> bool {
        &&& 0 <= i < self.infos().len()
        &&& 0 <= j < self.infos()[i].alias_sequence@.len()
        &&& self.infos()[i].alias_sequence@[j] matches Some(other) && other@ == alias
    }

    /// The aliases of the productions.
    pub open spec fn aliases(&self) -> Set<AliasView> {
        Set::new(|alias: AliasView| exists|i: int, j: int| self.has_alias_at(i, j, alias))
    }

    /// The identifier of an alias: that of the first symbol which is shown so, or a new one.
    pub open spec fn alias_id(&self, alias: AliasView) -> Seq<char> {
        if self.symbols_with_alias(alias).len() > 0 {
            self.id(self.symbol_map()[self.symbols_with_alias(alias)[0]])
        } else if alias.is_named {
            "ALIAS_SYM_"@ + uppercase(sanitized_identifier(alias.value))
        } else {
            "ANON_ALIAS_SYM_"@ + uppercase(sanitized_identifier(alias.value))
        }
    }

    /// The aliases that no symbol is shown as.
    pub open spec fn unique_aliases(&self) -> Seq<AliasView> {
        ascending(
            Set::new(
                |alias: AliasView|
                    self.aliases().contains(alias) && self.symbols_with_alias(alias).len() == 0,
            ),
            alias_order(),
        )
    }

    /// The identifiers of the symbols, and of the aliases that no symbol is shown as.
    pub open spec fn shown_ids(&self) -> Seq<Seq<char>> {
        self.symbols().map_values(|symbol: Symbol| self.id(symbol))
            + self.unique_aliases().map_values(|alias: AliasView| self.alias_id(alias))
    }

    /// Production `i` has the field.
    pub open spec fn has_field_at(&self, i: int, j: int, name: Seq<char>) -> bool {
        &&& 0 <= i < self.infos().len()
        &&& 0 <= j < self.infos()[i].field_map@.len()
        &&& self.infos()[i].field_map@[j].0@ == name
    }

    /// The names of the fields.
    pub open spec fn field_names(&self) -> Seq<Seq<char>> {
        ascending(
            Set::new(|name: Seq<char>| exists|i: int, j: int| self.has_field_at(i, j, name)),
            text_order(),
        )
    }

    /// The number of sets before place `n` that belong to the same symbol.
    pub open spec fn earlier_large_sets(&self, symbol: Option<Symbol>, n: nat) -> nat
        decreases n,
    {
        if n == 0 {
            0
        } else {
            self.earlier_large_sets(symbol, (n - 1) as nat) + (if self.large_character_sets@[n
                - 1].0 == symbol {
                1nat
            } else {
                0nat
            })
        }
    }

    /// The identifier of a large set of characters.
    pub open spec fn large_set_id(&self, i: int) -> Seq<char> {
        let symbol = self.large_character_sets@[i].0;
        let number = decimal(self.earlier_large_sets(symbol, i as nat) + 1);
        match symbol {
            Some(symbol) => uppercase(self.id(symbol)) + "_CHARACTER_SET_"@ + number,
            None => "EXTRAS_CHARACTER_SET_"@ + number,
        }
    }

    /// The sets of reserved words of the first `n` states, each once, after the empty one.
    pub open spec fn reserved_word_sets_upto(&self, n: nat) -> Seq<Seq<Symbol>>
        decreases n,
    {
        if n == 0 {
            seq![Seq::<Symbol>::empty()]
        } else {
            let before = self.reserved_word_sets_upto((n - 1) as nat);
            let set = self.states()[n - 1].reserved_words@;
            if before.contains(set) {
                before
            } else {
                before.push(set)
            }
        }
    }

    /// The sets of reserved words.
    pub open spec fn reserved_word_sets(&self) -> Seq<Seq<Symbol>> {
        self.reserved_word_sets_upto(self.states().len())
    }

    /// The place of a state's set of reserved words among the sets.
    pub open spec fn reserved_word_set_id(&self, i: int) -> int {
        first_index(
            self.reserved_word_sets(),
            |set: Seq<Symbol>| set == self.states()[i].reserved_words@,
        )
    }

    /// A supertype with the given identifier.
    pub open spec fn is_supertype_with_id(&self, id: Seq<char>, symbol: Symbol) -> bool {
        &&& self.abi_version >= ABI_VERSION_WITH_RESERVED_WORDS
        &&& self.supertype_symbol_map@.contains_key(symbol)
        &&& self.symbol_ids().contains_key(symbol)
        &&& self.id(symbol) == id
    }

    /// The identifiers of the supertypes.
    pub open spec fn supertype_ids(&self) -> Seq<Seq<char>> {
        ascending(
            Set::new(|id: Seq<char>| exists|s: Symbol| self.is_supertype_with_id(id, s)),
            text_order(),
        )
    }

    /// The supertype with the given identifier: the least, should there be two.
    pub open spec fn supertype(&self, id: Seq<char>) -> Symbol {
        choose|s: Symbol|
            self.is_supertype_with_id(id, s) && forall|other: Symbol|
                #[trigger] self.is_supertype_with_id(id, other) ==> !symbol_less(other, s)
    }

    /// The identifier is one of a subtype.
    pub open spec fn is_id_of_subtype(&self, subtype: ChildType, id: Seq<char>) -> bool {
        match subtype {
            ChildType::Normal(symbol) => self.symbol_ids().contains_key(symbol) && self.id(symbol)
                == id,
            ChildType::Aliased(alias) => {
                if self.aliases().contains(alias@) {
                    self.alias_id(alias@) == id
                } else {
                    exists|k: int|
                        0 <= k < self.symbols_with_alias(alias@).len() && self.id(
                            #[trigger] self.symbols_with_alias(alias@)[k],
                        ) == id
                }
            },
        }
    }

    /// The identifiers of the subtypes of the supertype with the given identifier.
    pub open spec fn subtype_ids(&self, id: Seq<char>) -> Seq<Seq<char>> {
        let subtypes = self.supertype_symbol_map@[self.supertype(id)];
        ascending(
            Set::new(
                |subtype_id: Seq<char>|
                    exists|k: int|
                        0 <= k < subtypes.len() && self.is_id_of_subtype(
                            #[trigger] subtypes[k],
                            subtype_id,
                        ),
            ),
            text_order(),
        )
    }

    /// A state with more entries than this is stored in full.
    pub open spec fn small_state_threshold(&self) -> nat {
        if self.symbols().len() / 2 < SMALL_STATE_THRESHOLD {
            self.symbols().len() / 2
        } else {
            SMALL_STATE_THRESHOLD as nat
        }
    }

    /// State `i` is to be stored in full, if all states before it are.
    pub open spec fn is_large_state(&self, i: int) -> bool {
        i <= 1 || self.states()[i].terminal_entries@.len()
            + self.states()[i].nonterminal_entries@.len() > self.small_state_threshold()
    }

    /// The first `n` states are to be stored in full, and no more than these.
    pub open spec fn is_large_state_count(&self, n: int) -> bool {
        &&& 0 <= n <= self.states().len()
        &&& forall|i: int| 0 <= i < n ==> #[trigger] self.is_large_state(i)
        &&& n < self.states().len() ==> !self.is_large_state(n)
    }

    /// The number of states that are stored in full.
    pub open spec fn large_state_count(&self) -> int {
        choose|n: int| self.is_large_state_count(n)
    }

    /// The numbers of the symbols, after the first `n` of them have got theirs.
    ///
    /// The end has number 0, and the others are numbered as they come.
    pub open spec fn symbol_numbers_upto(&self, n: nat) -> Map<Symbol, nat>
        decreases n,
    {
        if n == 0 {
            Map::empty().insert(Symbol::end(), 0)
        } else {
            let before = self.symbol_numbers_upto((n - 1) as nat);
            let symbol = self.symbols()[n - 1];
            if symbol == Symbol::end() {
                before
            } else {
                before.insert(symbol, self.next_symbol_number((n - 1) as nat))
            }
        }
    }

    /// The number of the first symbol from place `n` on that is not the end.
    pub open spec fn next_symbol_number(&self, n: nat) -> nat
        decreases n,
    {
        if n == 0 {
            1
        } else {
            self.next_symbol_number((n - 1) as nat) + (if self.symbols()[n - 1] == Symbol::end() {
                0nat
            } else {
                1nat
            })
        }
    }

    /// The numbers of all symbols.
    pub open spec fn symbol_numbers(&self) -> Map<Symbol, nat> {
        self.symbol_numbers_upto(self.symbols().len())
    }

    /// The number by which the tables know a symbol: its own, or else that of the end, as which
    /// the end of a non-terminal extra is known.
    pub open spec fn table_number(&self, symbol: Symbol) -> nat {
        if self.symbol_numbers().contains_key(symbol) {
            self.symbol_numbers()[symbol]
        } else {
            0
        }
    }
}

} // verus!
