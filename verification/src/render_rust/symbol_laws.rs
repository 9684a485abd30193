//! What a rendered parser says of each of its symbols.
use vstd::prelude::*;

use crate::grammars::VariableType;
use crate::order::{is_first, lemma_first_index};
use crate::render_rust::init::lemma_free_suffix;
use crate::render_rust::input::{suffixed, ParserInput};
use crate::render_rust::names::{sanitized_identifier, sanitized_string, uppercase};
use crate::render_rust::parser_laws::some_first;
use crate::rules::{symbol_less, AliasView, Symbol, SymbolType};
use crate::text::{decimal, truth};
use crate::text_laws::{has_array, has_block, lemma_array, lemma_block_contains};

verus! {

/// The identifier that a name and a kind give.
pub open spec fn made_identifier(name: Seq<char>, kind: VariableType) -> Seq<char> {
    let word = uppercase(sanitized_identifier(name));
    match kind {
        VariableType::Auxiliary => "AUX_SYM_"@ + word,
        VariableType::Anonymous => "ANON_SYM_"@ + word,
        VariableType::Named => "SYM_"@ + word,
        VariableType::Hidden => "SYM_"@ + word,
    }
}

/// An identifier with a number behind it, where 0 stands for none.
pub open spec fn numbered(base: Seq<char>, k: nat) -> Seq<char> {
    if k == 0 {
        base
    } else {
        base + "_"@ + decimal(k)
    }
}

impl ParserInput {
    /// The name and the kind of a symbol are those that the grammar gives to the variable or the
    /// external token at its index.
    pub proof fn names_are_the_grammars(&self, index: usize)
        ensures
            self.symbol_metadata(Symbol { kind: SymbolType::NonTerminal, index }) == (
                self.syntax_grammar.variables@[index as int].name@,
                self.syntax_grammar.variables@[index as int].kind,
            ),
            self.symbol_metadata(Symbol { kind: SymbolType::Terminal, index }) == (
                self.lexical_grammar.variables@[index as int].name@,
                self.lexical_grammar.variables@[index as int].kind,
            ),
            self.symbol_metadata(Symbol { kind: SymbolType::External, index }) == (
                self.syntax_grammar.external_tokens@[index as int].name@,
                self.syntax_grammar.external_tokens@[index as int].kind,
            ),
            self.symbol_metadata(Symbol { kind: SymbolType::End, index: 0 }) == (
                "end"@,
                VariableType::Hidden,
            ),
    {
    }

    /// A symbol has the default alias that the map of default aliases gives it.
    pub proof fn default_aliases_are_given(&self, k: int)
        requires
            self.default_aliases.wf(),
            0 <= k < self.default_aliases.entries@.len(),
        ensures
            self.default_alias(self.default_aliases.entries@[k].0) == Some(
                AliasView {
                    value: self.default_aliases.entries@[k].1.value@,
                    is_named: self.default_aliases.entries@[k].1.is_named,
                },
            ),
    {
        self.default_aliases.lemma_entry(k);
    }

    /// A symbol without an entry among the default aliases has none.
    pub proof fn other_symbols_have_no_default_alias(&self, symbol: Symbol)
        requires
            forall|k: int|
                0 <= k < self.default_aliases.entries@.len() ==> (
                #[trigger] self.default_aliases.entries@[k]).0 != symbol,
        ensures
            self.default_alias(symbol) is None,
    {
        let keys = self.default_aliases.keys();
        if self.default_aliases@.contains_key(symbol) {
            let k = keys.index_of(symbol);
            assert(keys[k] == symbol);
            assert(self.default_aliases.entries@[k].0 == symbol);
        }
    }

    /// The rows of the names of symbols and aliases.
    pub open spec fn symbol_name_rows(&self) -> Seq<Seq<char>> {
        self.symbols().map_values(
            |symbol: Symbol| ParserInput::name_row(self.id(symbol), self.shown_name(symbol)),
        ) + self.unique_aliases().map_values(
            |alias: AliasView| ParserInput::name_row(self.alias_id(alias), alias.value),
        )
    }

    /// Each symbol has a row with its name, which is that of its default alias if it has one; the
    /// aliases that no symbol is shown as have theirs behind.
    pub proof fn symbol_names_are_listed(&self, name: Seq<char>, i: int, k: int)
        requires
            0 <= i < self.parse_table.symbols@.len(),
        ensures
            ({
                let symbols = self.parse_table.symbols@;
                let aliases = self.unique_aliases();
                let rows = self.symbol_name_rows();
                &&& has_array(
                    self.parser_lines(name),
                    "static TS_SYMBOL_NAMES: [&str; "@ + decimal(symbols.len() + aliases.len())
                        + "] = ["@,
                    rows,
                )
                &&& rows.len() == symbols.len() + aliases.len()
                &&& rows[i] == "/* "@ + self.id(symbols[i]) + " */ \""@ + sanitized_string(
                    match self.default_alias(symbols[i]) {
                        Some(alias) => alias.value,
                        None => self.symbol_metadata(symbols[i]).0,
                    },
                ) + "\","@
                &&& 0 <= k < aliases.len() ==> rows[symbols.len() + k] == "/* "@ + self.alias_id(
                    aliases[k],
                ) + " */ \""@ + sanitized_string(aliases[k].value) + "\","@
            }),
    {
        self.sections_are_rendered(name);
        lemma_array(
            self.parser_lines(name),
            "static TS_SYMBOL_NAMES: [&str; "@ + decimal(self.shown_count()) + "] = ["@,
            self.symbol_name_rows(),
        );
    }

    /// The rows of what symbols and aliases are shown as.
    pub open spec fn symbol_map_rows(&self) -> Seq<Seq<char>> {
        self.symbols().map_values(
            |symbol: Symbol|
                ParserInput::map_row(self.id(symbol), self.id(self.symbol_map()[symbol])),
        ) + self.unique_aliases().map_values(
            |alias: AliasView| ParserInput::map_row(self.alias_id(alias), self.alias_id(alias)),
        )
    }

    /// Each symbol has a row that says as which symbol it is shown; an alias is shown as itself.
    pub proof fn public_symbols_are_listed(&self, name: Seq<char>, i: int, k: int)
        requires
            0 <= i < self.parse_table.symbols@.len(),
        ensures
            ({
                let symbols = self.parse_table.symbols@;
                let aliases = self.unique_aliases();
                let rows = self.symbol_map_rows();
                &&& has_array(
                    self.parser_lines(name),
                    "static TS_SYMBOL_MAP: [Symbol; "@ + decimal(symbols.len() + aliases.len())
                        + "] = ["@,
                    rows,
                )
                &&& rows.len() == symbols.len() + aliases.len()
                &&& rows[i] == "/* "@ + self.id(symbols[i]) + " */ "@ + self.id(
                    self.symbol_map()[symbols[i]],
                ) + ","@
                &&& 0 <= k < aliases.len() ==> rows[symbols.len() + k] == "/* "@ + self.alias_id(
                    aliases[k],
                ) + " */ "@ + self.alias_id(aliases[k]) + ","@
            }),
    {
        self.sections_are_rendered(name);
        lemma_array(
            self.parser_lines(name),
            "static TS_SYMBOL_MAP: [Symbol; "@ + decimal(self.shown_count()) + "] = ["@,
            self.symbol_map_rows(),
        );
    }

    /// The rows of what is known of symbols and aliases.
    pub open spec fn symbol_metadata_rows(&self) -> Seq<Seq<char>> {
        self.symbols().map_values(
            |symbol: Symbol| ParserInput::metadata_row(self.id(symbol), self.symbol_traits(symbol)),
        ) + self.unique_aliases().map_values(
            |alias: AliasView|
                ParserInput::metadata_row(self.alias_id(alias), (true, alias.is_named, false)),
        )
    }

    /// Each symbol has a row that says what is known of it. A symbol with a default alias is
    /// visible, and named if the alias is. Of the others, named and anonymous ones are visible,
    /// and named and hidden ones are named. A hidden symbol without a default alias is a supertype
    /// if and only if it is at some place of the grammar's supertypes, and no other is one.
    pub proof fn symbol_metadata_is_listed(&self, name: Seq<char>, i: int, k: int)
        requires
            0 <= i < self.parse_table.symbols@.len(),
        ensures
            ({
                let symbols = self.parse_table.symbols@;
                let aliases = self.unique_aliases();
                let supertypes = self.syntax_grammar.supertype_symbols@;
                let symbol = symbols[i];
                let default_alias = self.default_alias(symbol);
                let kind = self.symbol_metadata(symbol).1;
                let rows = self.symbol_metadata_rows();
                &&& has_array(
                    self.parser_lines(name),
                    "static TS_SYMBOL_METADATA: [SymbolMetadata; "@ + decimal(
                        symbols.len() + aliases.len(),
                    ) + "] = ["@,
                    rows,
                )
                &&& rows.len() == symbols.len() + aliases.len()
                &&& rows[i] == "/* "@ + self.id(symbol) + " */ SymbolMetadata { visible: "@ + truth(
                    default_alias is Some || kind == VariableType::Named || kind
                        == VariableType::Anonymous,
                ) + ", named: "@ + truth(
                    if default_alias is Some {
                        default_alias->0.is_named
                    } else {
                        kind == VariableType::Named || kind == VariableType::Hidden
                    },
                ) + ", supertype: "@ + truth(
                    default_alias is None && kind == VariableType::Hidden && exists|m: int|
                        0 <= m < supertypes.len() && #[trigger] supertypes[m] == symbol,
                ) + " },"@
                &&& 0 <= k < aliases.len() ==> rows[symbols.len() + k] == "/* "@ + self.alias_id(
                    aliases[k],
                ) + " */ SymbolMetadata { visible: "@ + truth(true) + ", named: "@ + truth(
                    aliases[k].is_named,
                ) + ", supertype: "@ + truth(false) + " },"@
            }),
    {
        self.sections_are_rendered(name);
        lemma_array(
            self.parser_lines(name),
            "static TS_SYMBOL_METADATA: [SymbolMetadata; "@ + decimal(self.shown_count())
                + "] = ["@,
            self.symbol_metadata_rows(),
        );
        let supertypes = self.syntax_grammar.supertype_symbols@;
        let symbol = self.symbols()[i];
        assert(supertypes.contains(symbol) == exists|m: int|
            0 <= m < supertypes.len() && #[trigger] supertypes[m] == symbol);
    }

    /// Every symbol but the end is declared as a constant with its number.
    pub proof fn symbols_are_declared(&self, name: Seq<char>, i: int)
        requires
            self.symbols().no_duplicates(),
            0 <= i < self.parse_table.symbols@.len(),
            self.parse_table.symbols@[i] != (Symbol { kind: SymbolType::End, index: 0 }),
        ensures
            self.parser_lines(name).contains(
                "const "@ + self.id(self.parse_table.symbols@[i]) + ": Symbol = "@ + decimal(
                    self.symbol_numbers()[self.parse_table.symbols@[i]],
                ) + ";"@,
            ),
    {
        self.sections_are_rendered(name);
        self.symbol_constant_is_declared(i);
        self.lemma_declared(self.parser_lines(name), i);
    }

    proof fn lemma_declared(&self, all: Seq<Seq<char>>, i: int)
        requires
            has_block(all, self.symbol_constant_lines()),
            self.symbol_constant_lines().contains(
                ParserInput::symbol_constant(
                    self.id(self.symbols()[i]),
                    self.symbol_numbers()[self.symbols()[i]],
                ),
            ),
        ensures
            all.contains(
                "const "@ + self.id(self.symbols()[i]) + ": Symbol = "@ + decimal(
                    self.symbol_numbers()[self.symbols()[i]],
                ) + ";"@,
            ),
    {
        lemma_block_contains(
            all,
            self.symbol_constant_lines(),
            ParserInput::symbol_constant(
                self.id(self.symbols()[i]),
                self.symbol_numbers()[self.symbols()[i]],
            ),
        );
    }

    /// The end has number 0, and every other symbol the number of symbols other than the end up to
    /// it: its place, or one more where the end does not come before it.
    pub proof fn symbols_are_numbered(&self, i: int)
        requires
            self.symbols().no_duplicates(),
            0 <= i < self.parse_table.symbols@.len(),
        ensures
            ({
                let symbols = self.parse_table.symbols@;
                let end = Symbol { kind: SymbolType::End, index: 0 };
                &&& self.symbol_numbers().contains_key(symbols[i])
                &&& symbols[i] == end ==> self.symbol_numbers()[symbols[i]] == 0
                &&& symbols[i] != end ==> self.symbol_numbers()[symbols[i]] == if exists|j: int|
                    0 <= j < i && #[trigger] symbols[j] == end {
                    i
                } else {
                    i + 1
                }
            }),
    {
        self.lemma_end(self.symbols().len());
        self.lemma_number(self.symbols().len(), i);
    }

    proof fn lemma_number(&self, n: nat, i: int)
        requires
            self.symbols().no_duplicates(),
            0 <= i < n <= self.symbols().len(),
        ensures
            ({
                let symbols = self.parse_table.symbols@;
                let end = Symbol { kind: SymbolType::End, index: 0 };
                symbols[i] != end ==> {
                    &&& self.symbol_numbers_upto(n).contains_key(symbols[i])
                    &&& self.symbol_numbers_upto(n)[symbols[i]] == if exists|j: int|
                        0 <= j < i && #[trigger] symbols[j] == end {
                        i
                    } else {
                        i + 1
                    }
                }
            }),
        decreases n,
    {
        if i < n - 1 {
            self.lemma_number((n - 1) as nat, i);
            assert(self.symbols()[i] != self.symbols()[n - 1]);
        } else {
            self.lemma_next_number((n - 1) as nat);
        }
    }

    /// The number that follows those of all symbols is the number of symbols.
    pub proof fn lemma_symbol_count(&self)
        requires
            self.is_consistent(),
            self.symbols().no_duplicates(),
        ensures
            self.next_symbol_number(self.symbols().len()) == self.symbols().len(),
    {
        self.lemma_next_number(self.symbols().len());
        let j = self.symbols().index_of(Symbol::end());
        assert(self.parse_table.symbols@[j] == (Symbol { kind: SymbolType::End, index: 0 }));
    }

    proof fn lemma_next_number(&self, n: nat)
        requires
            self.symbols().no_duplicates(),
            n <= self.symbols().len(),
        ensures
            self.next_symbol_number(n) == if exists|j: int|
                0 <= j < n && #[trigger] self.parse_table.symbols@[j] == (Symbol {
                    kind: SymbolType::End,
                    index: 0,
                }) {
                n as int
            } else {
                n as int + 1
            },
        decreases n,
    {
        let symbols = self.parse_table.symbols@;
        let end = Symbol { kind: SymbolType::End, index: 0 };
        if n > 0 {
            self.lemma_next_number((n - 1) as nat);
            if symbols[n - 1] == end {
                assert forall|j: int| 0 <= j < n - 1 implies #[trigger] symbols[j] != end by {
                    assert(symbols[j] != symbols[n - 1]);
                }
                assert(symbols[n - 1] == end);
            } else if exists|j: int| 0 <= j < n && #[trigger] symbols[j] == end {
                let j = choose|j: int| 0 <= j < n && #[trigger] symbols[j] == end;
                assert(j < n - 1);
            }
        }
    }

    /// The identifier of a symbol other than the end is made of the prefix of its kind and its name
    /// in upper case. Where earlier symbols have that identifier, it has a number behind it, the
    /// least with which no earlier symbol has it.
    pub proof fn identifiers_are_made_of_names(&self, i: int)
        requires
            self.is_consistent(),
            self.symbols().no_duplicates(),
            0 <= i < self.parse_table.symbols@.len(),
            self.parse_table.symbols@[i] != (Symbol { kind: SymbolType::End, index: 0 }),
        ensures
            ({
                let symbols = self.parse_table.symbols@;
                let (name, kind) = self.symbol_metadata(symbols[i]);
                exists|k: nat| #[trigger]
                    self.is_numbered_identifier(i, made_identifier(name, kind), k)
            }),
    {
        let symbols = self.symbols();
        let n = symbols.len();
        let before = self.identifiers(i as nat);
        let base = self.base_identifier(symbols[i]);
        self.lemma_id(n, i);
        self.lemma_identifiers_begin((i + 1) as nat, n);
        self.lemma_identifiers_begin(i as nat, n);
        let k = lemma_free_suffix(base, before);
        assert(self.identifiers((i + 1) as nat)[i] == self.id(symbols[i]));
        assert forall|j: nat| j < k implies #[trigger] self.has_earlier_identifier(
            i,
            numbered(base, j),
        ) by {
            let taken = suffixed(base, j);
            assert(before.to_set().contains(taken));
            let m = before.index_of(taken);
            assert(before[m] == taken);
            self.lemma_id(n, m);
            assert(self.id(self.parse_table.symbols@[m]) == taken);
        }
        let (name, kind) = self.symbol_metadata(symbols[i]);
        assert(base == made_identifier(name, kind));
        assert(self.is_numbered_identifier(i, made_identifier(name, kind), k));
    }

    /// A symbol before place `i` has the identifier.
    pub open spec fn has_earlier_identifier(&self, i: int, id: Seq<char>) -> bool {
        exists|m: int| 0 <= m < i && self.id(#[trigger] self.parse_table.symbols@[m]) == id
    }

    /// The symbol at place `i` has the identifier with the number `k` behind it, where 0 stands for
    /// none, and earlier symbols have it with all lesser numbers.
    pub open spec fn is_numbered_identifier(&self, i: int, base: Seq<char>, k: nat) -> bool {
        &&& self.id(self.parse_table.symbols@[i]) == numbered(base, k)
        &&& forall|j: nat| j < k ==> #[trigger] self.has_earlier_identifier(i, numbered(base, j))
    }

    /// As what a symbol is shown. With a default alias, it is shown as the first symbol without one
    /// that has the alias's name and kind, or if there is none, as the least symbol with the same
    /// default alias.
    pub proof fn aliased_symbols_are_shown(&self, i: int, j: int)
        requires
            self.symbols().no_duplicates(),
            0 <= i < self.parse_table.symbols@.len(),
            0 <= j < self.parse_table.symbols@.len(),
            self.default_alias(self.parse_table.symbols@[i]) is Some,
        ensures
            ({
                let symbols = self.parse_table.symbols@;
                let shown = self.symbol_map()[symbols[i]];
                let alias = self.default_alias(symbols[i])->0;
                let kind = if alias.is_named {
                    VariableType::Named
                } else {
                    VariableType::Anonymous
                };
                &&& symbols.contains(shown)
                &&& self.default_alias(symbols[j]) is None && self.symbol_metadata(symbols[j]) == (
                    alias.value,
                    kind,
                ) ==> {
                    &&& self.default_alias(shown) is None
                    &&& self.symbol_metadata(shown) == (alias.value, kind)
                    &&& symbols.index_of(shown) <= j
                }
                &&& self.default_alias(shown) is None ==> self.symbol_metadata(shown) == (
                    alias.value,
                    kind,
                )
                &&& self.default_alias(shown) is Some ==> {
                    &&& self.default_alias(shown) == Some(alias)
                    &&& self.default_alias(symbols[j]) == Some(alias) ==> !symbol_less(
                        symbols[j],
                        shown,
                    )
                }
            }),
    {
        let symbols = self.symbols();
        let symbol = symbols[i];
        let alias = self.default_alias(symbol)->0;
        let earlier = self.symbol_map_upto(i as nat);
        self.lemma_shown_as(self.symbols().len(), i);
        let shown = self.shown_as(symbol, earlier);
        let plain = self.is_plainly(alias);
        if symbols.any(plain) {
            let m = choose|m: int| 0 <= m < symbols.len() && plain(#[trigger] symbols[m]);
            let k = some_first(symbols, plain, m);
            lemma_first_index(symbols, plain, k);
            assert(shown == symbols[k]);
            assert(plain(symbols[k]));
            assert(symbols.index_of(shown) == k);
            if plain(symbols[j]) && j < k {
                assert(!plain(symbols[j]));
            }
        } else {
            let pred = self.is_by_default(alias);
            assert(pred(symbol));
            assert(symbols.contains(symbol));
            let least = self.some_least_symbol(pred, symbol);
            assert(self.is_least_symbol(pred, least));
            assert(self.is_least_symbol(pred, shown));
            assert(pred(shown));
            assert(symbols.contains(symbols[j]));
            assert(!plain(symbols[j]));
            if self.default_alias(symbols[j]) == Some(alias) {
                assert(pred(symbols[j]));
            }
        }
    }

    /// A symbol without a default alias that is no terminal is shown as itself. A terminal is shown
    /// as the first symbol with its name and kind, unless that is an earlier one which is shown as
    /// the terminal.
    pub proof fn plain_symbols_are_shown(&self, i: int, j: int)
        requires
            self.symbols().no_duplicates(),
            0 <= i < self.parse_table.symbols@.len(),
            0 <= j < self.parse_table.symbols@.len(),
            self.default_alias(self.parse_table.symbols@[i]) is None,
        ensures
            ({
                let symbols = self.parse_table.symbols@;
                let shown = self.symbol_map()[symbols[i]];
                let is_twin = self.symbol_metadata(symbols[j]) == self.symbol_metadata(symbols[i]);
                let is_first_twin = is_twin && forall|m: int|
                    0 <= m < j ==> self.symbol_metadata(#[trigger] symbols[m])
                        != self.symbol_metadata(symbols[i]);
                &&& symbols[i].kind != SymbolType::Terminal ==> shown == symbols[i]
                &&& symbols[i].kind == SymbolType::Terminal && is_first_twin ==> {
                    if j < i && self.symbol_map()[symbols[j]] == symbols[i] {
                        shown == symbols[i]
                    } else {
                        shown == symbols[j]
                    }
                }
            }),
    {
        let symbols = self.symbols();
        let symbol = symbols[i];
        let earlier = self.symbol_map_upto(i as nat);
        self.lemma_shown_as(self.symbols().len(), i);
        if symbol.is_terminal() {
            let pred = self.has_metadata(self.symbol_metadata(symbol));
            if self.symbol_metadata(symbols[j]) == self.symbol_metadata(symbol) && forall|m: int|
                0 <= m < j ==> self.symbol_metadata(#[trigger] symbols[m])
                    != self.symbol_metadata(symbol) {
                assert forall|m: int| 0 <= m < j implies !pred(#[trigger] symbols[m]) by {}
                assert(is_first(symbols, pred, j));
                lemma_first_index(symbols, pred, j);
                self.lemma_map_keys(i as nat, j);
                if j < i {
                    self.lemma_map_kept(i as nat, self.symbols().len(), j);
                }
            }
        }
    }

    /// What a symbol is shown as is settled in its turn.
    proof fn lemma_shown_as(&self, n: nat, i: int)
        requires
            self.symbols().no_duplicates(),
            0 <= i < n <= self.symbols().len(),
        ensures
            self.symbol_map_upto(n).contains_key(self.symbols()[i]),
            self.symbol_map_upto(n)[self.symbols()[i]] == self.shown_as(
                self.symbols()[i],
                self.symbol_map_upto(i as nat),
            ),
        decreases n,
    {
        if i < n - 1 {
            self.lemma_shown_as((n - 1) as nat, i);
            assert(self.symbols()[i] != self.symbols()[n - 1]);
        }
    }

    proof fn lemma_map_kept(&self, n: nat, m: nat, j: int)
        requires
            self.symbols().no_duplicates(),
            0 <= j < n <= m <= self.symbols().len(),
        ensures
            self.symbol_map_upto(n)[self.symbols()[j]] == self.symbol_map_upto(
                m,
            )[self.symbols()[j]],
    {
        self.lemma_shown_as(n, j);
        self.lemma_shown_as(m, j);
    }

    /// The first `n` symbols are the ones that are mapped.
    proof fn lemma_map_keys(&self, n: nat, j: int)
        requires
            self.symbols().no_duplicates(),
            n <= self.symbols().len(),
            0 <= j < self.symbols().len(),
        ensures
            self.symbol_map_upto(n).contains_key(self.symbols()[j]) == (j < n),
        decreases n,
    {
        if n > 0 {
            self.lemma_map_keys((n - 1) as nat, j);
            if j != n - 1 {
                assert(self.symbols()[j] != self.symbols()[n - 1]);
            }
        }
    }
}

} // verus!
