//! The head of a rendered parser, and what it says of symbols and aliases.
use vstd::prelude::*;

use crate::grammars::VariableType;
use crate::render_rust::generator::RustGenerator;
use crate::render_rust::init::alias_views;
use crate::render_rust::input::ParserInput;
use crate::render_rust::names::{sanitize_string, sanitized_string};
use crate::rules::{Alias, AliasView, Symbol};
use crate::text::{
    array_lines, concat3, concat5, concat7, count_text, decimal, truth, truth_text, TextList,
};

verus! {

/// The length of the longest of the lists.
pub open spec fn longest(lists: Seq<Seq<Symbol>>) -> nat
    decreases lists.len(),
{
    if lists.len() == 0 {
        0
    } else {
        let before = longest(lists.drop_last());
        if before < lists.last().len() {
            lists.last().len()
        } else {
            before
        }
    }
}

/// The lines at the head of a rendered parser.
pub open spec fn header_lines() -> Seq<Seq<char>> {
    seq![
        "// Automatically generated by tree-sitter — do not edit."@,
        ""@,
        "#![allow("@,
        "    clippy::all,"@,
        "    non_upper_case_globals,"@,
        "    unused,"@,
        "    non_snake_case,"@,
        "    dead_code"@,
        ")]"@,
        ""@,
    ]
}

/// The lines that import what a rendered parser uses.
pub open spec fn import_lines() -> Seq<Seq<char>> {
    seq![
        "use tree_sitter_runtime::{self, CharacterRange, ExternalScanner, FieldMapEntry, Language, LanguageMetadata, LexMode, Lexer, MapSlice, SymbolMetadata, set_contains};"@,
        "use tree_sitter_runtime::{Symbol, StateId, FieldId};"@,
        "use tree_sitter_runtime::BUILTIN_SYM_END as ts_builtin_sym_end;"@,
        ""@,
    ]
}

/// The declaration of a constant.
pub open spec fn constant_line(head: Seq<char>, value: nat) -> Seq<char> {
    head + decimal(value) + ";"@
}

impl ParserInput {
    /// The symbol is a token: a terminal, the end, or an external token that stands for itself.
    pub open spec fn is_token(&self) -> spec_fn(Symbol) -> bool {
        |symbol: Symbol|
            {
                ||| symbol.is_terminal()
                ||| symbol.is_eof()
                ||| symbol.is_external()
                    && self.syntax_grammar.external_tokens@[symbol.index as int].corresponding_internal_token
                    is None
            }
    }

    /// The number of tokens.
    pub open spec fn token_count(&self) -> nat {
        self.symbols().filter(self.is_token()).len()
    }

    /// The number of symbols and of aliases that no symbol is shown as.
    pub open spec fn shown_count(&self) -> nat {
        self.symbols().len() + self.unique_aliases().len()
    }

    /// The size of the greatest set of reserved words.
    pub open spec fn max_reserved_words(&self) -> nat {
        longest(self.reserved_word_sets())
    }

    /// The lines that say how much there is of everything.
    pub open spec fn stats_lines(&self) -> Seq<Seq<char>> {
        seq![
            constant_line("const LANGUAGE_VERSION: u32 = "@, self.abi_version as nat),
            constant_line("const STATE_COUNT: usize = "@, self.states().len()),
            constant_line("const LARGE_STATE_COUNT: usize = "@, self.large_state_count() as nat),
            constant_line("const SYMBOL_COUNT: usize = "@, self.symbols().len()),
            constant_line("const ALIAS_COUNT: usize = "@, self.unique_aliases().len()),
            constant_line("const TOKEN_COUNT: usize = "@, self.token_count()),
            constant_line(
                "const EXTERNAL_TOKEN_COUNT: usize = "@,
                self.syntax_grammar.external_tokens@.len(),
            ),
            constant_line("const FIELD_COUNT: usize = "@, self.field_names().len()),
            constant_line(
                "const MAX_ALIAS_SEQUENCE_LENGTH: usize = "@,
                self.parse_table.max_aliased_production_length as nat,
            ),
            constant_line(
                "const MAX_RESERVED_WORD_SET_SIZE: usize = "@,
                self.max_reserved_words(),
            ),
            constant_line("const PRODUCTION_ID_COUNT: usize = "@, self.infos().len()),
            constant_line("const SUPERTYPE_COUNT: usize = "@, self.supertype_ids().len()),
            ""@,
        ]
    }

    /// The constant of a symbol or an alias.
    pub open spec fn symbol_constant(id: Seq<char>, number: nat) -> Seq<char> {
        "const "@ + id + ": Symbol = "@ + decimal(number) + ";"@
    }

    /// The constants of the first `n` symbols, but for the end.
    pub open spec fn symbol_constants(&self, n: nat) -> Seq<Seq<char>>
        decreases n,
    {
        if n == 0 {
            Seq::empty()
        } else {
            let before = self.symbol_constants((n - 1) as nat);
            let symbol = self.symbols()[n - 1];
            if symbol == Symbol::end() {
                before
            } else {
                before.push(
                    ParserInput::symbol_constant(
                        self.id(symbol),
                        self.next_symbol_number((n - 1) as nat),
                    ),
                )
            }
        }
    }

    /// The constants of the symbols and aliases.
    pub open spec fn symbol_constant_lines(&self) -> Seq<Seq<char>> {
        self.symbol_constants(self.symbols().len()) + Seq::new(
            self.unique_aliases().len(),
            |k: int|
                ParserInput::symbol_constant(
                    self.alias_id(self.unique_aliases()[k]),
                    self.next_symbol_number(self.symbols().len()) + k as nat,
                ),
        ) + seq![""@]
    }

    /// An array with a row for each symbol, and for each alias that no symbol is shown as.
    pub open spec fn shown_lines(
        &self,
        head: Seq<char>,
        symbol_row: spec_fn(Symbol) -> Seq<char>,
        alias_row: spec_fn(AliasView) -> Seq<char>,
    ) -> Seq<Seq<char>> {
        array_lines(
            head + decimal(self.shown_count()) + "] = ["@,
            self.symbols().map_values(symbol_row) + self.unique_aliases().map_values(alias_row),
        )
    }

    /// The name by which a symbol is shown.
    pub open spec fn shown_name(&self, symbol: Symbol) -> Seq<char> {
        match self.default_alias(symbol) {
            Some(alias) => alias.value,
            None => self.symbol_metadata(symbol).0,
        }
    }

    /// The row with the name of a symbol or an alias.
    pub open spec fn name_row(id: Seq<char>, name: Seq<char>) -> Seq<char> {
        "/* "@ + id + " */ \""@ + sanitized_string(name) + "\","@
    }

    /// The names of the symbols and aliases.
    pub open spec fn symbol_name_lines(&self) -> Seq<Seq<char>> {
        self.shown_lines(
            "static TS_SYMBOL_NAMES: [&str; "@,
            |symbol: Symbol| ParserInput::name_row(self.id(symbol), self.shown_name(symbol)),
            |alias: AliasView| ParserInput::name_row(self.alias_id(alias), alias.value),
        )
    }

    /// The row that says as what a symbol or an alias is shown.
    pub open spec fn map_row(id: Seq<char>, public_id: Seq<char>) -> Seq<char> {
        "/* "@ + id + " */ "@ + public_id + ","@
    }

    /// What the symbols and aliases are shown as.
    pub open spec fn symbol_map_lines(&self) -> Seq<Seq<char>> {
        self.shown_lines(
            "static TS_SYMBOL_MAP: [Symbol; "@,
            |symbol: Symbol|
                ParserInput::map_row(self.id(symbol), self.id(self.symbol_map()[symbol])),
            |alias: AliasView| ParserInput::map_row(self.alias_id(alias), self.alias_id(alias)),
        )
    }

    /// A symbol is visible, is named, and is a supertype.
    pub open spec fn symbol_traits(&self, symbol: Symbol) -> (bool, bool, bool) {
        match self.default_alias(symbol) {
            Some(alias) => (true, alias.is_named, false),
            None => match self.symbol_metadata(symbol).1 {
                VariableType::Named => (true, true, false),
                VariableType::Anonymous => (true, false, false),
                VariableType::Hidden => (
                    false,
                    true,
                    self.syntax_grammar.supertype_symbols@.contains(symbol),
                ),
                VariableType::Auxiliary => (false, false, false),
            },
        }
    }

    /// The row that says what is known of a symbol or an alias.
    pub open spec fn metadata_row(id: Seq<char>, traits: (bool, bool, bool)) -> Seq<char> {
        "/* "@ + id + " */ SymbolMetadata { visible: "@ + truth(traits.0) + ", named: "@ + truth(
            traits.1,
        ) + ", supertype: "@ + truth(traits.2) + " },"@
    }

    /// What is known of the symbols and aliases.
    pub open spec fn symbol_metadata_lines(&self) -> Seq<Seq<char>> {
        self.shown_lines(
            "static TS_SYMBOL_METADATA: [SymbolMetadata; "@,
            |symbol: Symbol| ParserInput::metadata_row(self.id(symbol), self.symbol_traits(symbol)),
            |alias: AliasView|
                ParserInput::metadata_row(self.alias_id(alias), (true, alias.is_named, false)),
        )
    }
}

/// Adds the head of a rendered parser.
pub fn add_header(out: &mut TextList)
    ensures
        final(out)@ == old(out)@ + header_lines(),
{
    out.push("// Automatically generated by tree-sitter — do not edit.".to_owned());
    out.push("".to_owned());
    out.push("#![allow(".to_owned());
    out.push("    clippy::all,".to_owned());
    out.push("    non_upper_case_globals,".to_owned());
    out.push("    unused,".to_owned());
    out.push("    non_snake_case,".to_owned());
    out.push("    dead_code".to_owned());
    out.push(")]".to_owned());
    out.push("".to_owned());
    assert(out@ =~= old(out)@ + header_lines());
}

/// Adds the imports of a rendered parser.
pub fn add_imports(out: &mut TextList)
    ensures
        final(out)@ == old(out)@ + import_lines(),
{
    out.push(
        "use tree_sitter_runtime::{self, CharacterRange, ExternalScanner, FieldMapEntry, Language, LanguageMetadata, LexMode, Lexer, MapSlice, SymbolMetadata, set_contains};".to_owned(),
    );
    out.push("use tree_sitter_runtime::{Symbol, StateId, FieldId};".to_owned());
    out.push("use tree_sitter_runtime::BUILTIN_SYM_END as ts_builtin_sym_end;".to_owned());
    out.push("".to_owned());
    assert(out@ =~= old(out)@ + import_lines());
}

/// Adds the declaration of a constant.
fn add_constant(head: &str, value: usize, out: &mut TextList)
    ensures
        final(out)@ == old(out)@.push(constant_line(head@, value as nat)),
{
    out.push(concat3(head, count_text(value).as_str(), ";"));
}

impl RustGenerator {
    /// The number of tokens.
    fn count_tokens(&self) -> (n: usize)
        requires
            self.wf(),
        ensures
            n == self.input.token_count(),
    {
        let ghost symbols = self.input.symbols();
        let ghost pred = self.input.is_token();
        let mut n: usize = 0;
        let mut i: usize = 0;
        assert(symbols.take(0).filter(pred).len() == 0) by {
            reveal(Seq::filter);
        }
        while i < self.input.parse_table.symbols.len()
            invariant
                self.wf(),
                symbols == self.input.symbols(),
                pred == self.input.is_token(),
                i <= symbols.len(),
                n <= i,
                n == symbols.take(i as int).filter(pred).len(),
            decreases symbols.len() - i,
        {
            let symbol: Symbol = self.input.parse_table.symbols[i];
            assert(self.input.is_known(self.input.symbols()[i as int]));
            let is_token: bool = symbol.is_terminal() || symbol.is_eof() || (symbol.is_external()
                && self.input.syntax_grammar.external_tokens[symbol.index].corresponding_internal_token.is_none());
            proof {
                reveal(Seq::filter);
                assert(symbols.take(i + 1).drop_last() =~= symbols.take(i as int));
                assert(is_token == pred(symbol));
            }
            if is_token {
                n += 1;
            }
            i += 1;
        }
        assert(symbols.take(i as int) =~= symbols);
        n
    }

    /// The size of the greatest set of reserved words.
    pub fn max_reserved_words(&self) -> (n: usize)
        requires
            self.wf(),
        ensures
            n == self.input.max_reserved_words(),
    {
        let ghost sets = self.input.reserved_word_sets();
        let mut n: usize = 0;
        let mut i: usize = 0;
        assert(sets.take(0) =~= Seq::<Seq<Symbol>>::empty());
        while i < self.reserved_word_sets.len()
            invariant
                self.wf(),
                sets == self.input.reserved_word_sets(),
                i <= self.reserved_word_sets@.len(),
                n == longest(sets.take(i as int)),
            decreases self.reserved_word_sets@.len() - i,
        {
            let len: usize = self.reserved_word_sets[i].len();
            assert(sets[i as int] == self.reserved_word_sets@[i as int]@);
            assert(sets.take(i + 1).drop_last() =~= sets.take(i as int));
            if n < len {
                n = len;
            }
            i += 1;
        }
        assert(sets.take(i as int) =~= sets);
        n
    }

    /// Adds how much there is of everything.
    pub fn add_stats(&self, out: &mut TextList)
        requires
            self.wf(),
        ensures
            final(out)@ == old(out)@ + self.input.stats_lines(),
    {
        proof {
            assert(self.unique_aliases@.len() == alias_views(self.unique_aliases@).len());
            assert(self.supertypes@.len() == self.input.supertype_ids().len());
        }
        let token_count: usize = self.count_tokens();
        let max_reserved_words: usize = self.max_reserved_words();
        add_constant("const LANGUAGE_VERSION: u32 = ", self.input.abi_version, out);
        add_constant("const STATE_COUNT: usize = ", self.input.parse_table.states.len(), out);
        add_constant("const LARGE_STATE_COUNT: usize = ", self.large_state_count, out);
        add_constant("const SYMBOL_COUNT: usize = ", self.input.parse_table.symbols.len(), out);
        add_constant("const ALIAS_COUNT: usize = ", self.unique_aliases.len(), out);
        add_constant("const TOKEN_COUNT: usize = ", token_count, out);
        add_constant(
            "const EXTERNAL_TOKEN_COUNT: usize = ",
            self.input.syntax_grammar.external_tokens.len(),
            out,
        );
        add_constant("const FIELD_COUNT: usize = ", self.field_names.len(), out);
        add_constant(
            "const MAX_ALIAS_SEQUENCE_LENGTH: usize = ",
            self.input.parse_table.max_aliased_production_length,
            out,
        );
        add_constant("const MAX_RESERVED_WORD_SET_SIZE: usize = ", max_reserved_words, out);
        add_constant(
            "const PRODUCTION_ID_COUNT: usize = ",
            self.input.parse_table.production_infos.len(),
            out,
        );
        add_constant("const SUPERTYPE_COUNT: usize = ", self.supertypes.len(), out);
        out.push("".to_owned());
        assert(out@ =~= old(out)@ + self.input.stats_lines());
    }

    /// Adds the constants of the symbols and aliases.
    #[verifier::rlimit(40)]
    pub fn add_symbol_constants(&self, out: &mut TextList)
        requires
            self.wf(),
        ensures
            final(out)@ == old(out)@ + self.input.symbol_constant_lines(),
    {
        let ghost start = out@;
        let ghost input = self.input;
        let ghost symbols = input.symbols();
        let mut number: usize = 1;
        let mut i: usize = 0;
        assert(out@ =~= start + input.symbol_constants(0));
        while i < self.input.parse_table.symbols.len()
            invariant
                self.wf(),
                input == self.input,
                symbols == input.symbols(),
                i <= symbols.len(),
                number == input.next_symbol_number(i as nat),
                out@ == start + input.symbol_constants(i as nat),
            decreases symbols.len() - i,
        {
            let symbol: Symbol = self.input.parse_table.symbols[i];
            if symbol != Symbol::end() {
                proof {
                    input.lemma_next_symbol_number(i as nat);
                    input.lemma_next_symbol_number((i + 1) as nat);
                    self.lemma_last_number((i + 1) as nat);
                    assert(symbols.contains(symbols[i as int]));
                }
                out.push(
                    concat5(
                        "const ",
                        self.symbol_id(symbol),
                        ": Symbol = ",
                        count_text(number).as_str(),
                        ";",
                    ),
                );
                number += 1;
            }
            i += 1;
            assert(out@ =~= start + input.symbol_constants(i as nat));
        }
        let ghost first = number;
        let ghost middle = out@;
        let ghost alias_lines = Seq::new(
            input.unique_aliases().len(),
            |k: int|
                ParserInput::symbol_constant(
                    input.alias_id(input.unique_aliases()[k]),
                    input.next_symbol_number(symbols.len()) + k as nat,
                ),
        );
        proof {
            assert(self.unique_aliases@.len() == alias_views(self.unique_aliases@).len());
            self.lemma_last_number(symbols.len());
        }
        let shown_count: usize = self.shown_ids.len();
        let mut k: usize = 0;
        assert(out@ =~= middle + alias_lines.take(0));
        while k < self.unique_aliases.len()
            invariant
                self.wf(),
                input == self.input,
                symbols == input.symbols(),
                self.unique_aliases@.len() == input.unique_aliases().len(),
                first == input.next_symbol_number(symbols.len()),
                first <= symbols.len(),
                shown_count == symbols.len() + self.unique_aliases@.len(),
                k <= self.unique_aliases@.len(),
                number == first + k,
                alias_lines == Seq::new(
                    input.unique_aliases().len(),
                    |k: int|
                        ParserInput::symbol_constant(
                            input.alias_id(input.unique_aliases()[k]),
                            input.next_symbol_number(symbols.len()) + k as nat,
                        ),
                ),
                out@ == middle + alias_lines.take(k as int),
            decreases self.unique_aliases@.len() - k,
        {
            let alias: &Alias = &self.unique_aliases[k];
            assert(alias_views(self.unique_aliases@)[k as int] == alias@);
            assert(input.aliases().contains(self.unique_aliases@[k as int]@));
            let row: String = concat5(
                "const ",
                self.alias_id(alias),
                ": Symbol = ",
                count_text(number).as_str(),
                ";",
            );
            assert(row@ == alias_lines[k as int]);
            out.push(row);
            number += 1;
            k += 1;
            assert(out@ =~= middle + alias_lines.take(k as int));
        }
        assert(alias_lines.take(k as int) =~= alias_lines);
        out.push("".to_owned());
        assert(out@ =~= start + input.symbol_constant_lines());
    }

    /// The numbers of symbols do not exceed their count.
    proof fn lemma_last_number(&self, n: nat)
        requires
            self.wf(),
            n <= self.input.symbols().len(),
        ensures
            self.input.next_symbol_number(n) <= self.input.symbols().len(),
        decreases self.input.symbols().len() - n,
    {
        let symbols = self.input.symbols();
        if n == symbols.len() {
            self.input.lemma_next_symbol_number(n);
            assert(symbols.take(n as int) =~= symbols);
        } else {
            self.lemma_last_number(n + 1);
        }
    }

    /// Adds an array with the given rows for the symbols and aliases.
    fn add_shown_array(&self, head: &str, rows: &TextList, out: &mut TextList)
        requires
            self.wf(),
            rows@.len() == self.input.shown_count(),
        ensures
            final(out)@ == old(out)@ + array_lines(
                head@ + decimal(self.input.shown_count()) + "] = ["@,
                rows@,
            ),
    {
        out.add_array(concat3(head, count_text(rows.len()).as_str(), "] = ["), rows);
    }

    /// The name by which a symbol is shown.
    fn shown_name(&self, symbol: Symbol) -> (r: &str)
        requires
            self.wf(),
            self.input.is_known(symbol),
        ensures
            r@ == self.input.shown_name(symbol),
    {
        match self.input.default_aliases.get(symbol) {
            Some(alias) => alias.value.as_str(),
            None => self.input.metadata_for_symbol(symbol).0,
        }
    }

    /// Adds the names of the symbols and aliases.
    #[verifier::rlimit(40)]
    pub fn add_symbol_names_list(&self, out: &mut TextList)
        requires
            self.wf(),
        ensures
            final(out)@ == old(out)@ + self.input.symbol_name_lines(),
    {
        let ghost input = self.input;
        let ghost symbol_row = |symbol: Symbol|
            ParserInput::name_row(input.id(symbol), input.shown_name(symbol));
        let ghost alias_row = |alias: AliasView|
            ParserInput::name_row(input.alias_id(alias), alias.value);
        let ghost symbol_rows = input.symbols().map_values(symbol_row);
        let ghost alias_rows = input.unique_aliases().map_values(alias_row);
        let mut rows: TextList = TextList::new();
        let mut i: usize = 0;
        assert(rows@ =~= symbol_rows.take(0));
        while i < self.input.parse_table.symbols.len()
            invariant
                self.wf(),
                input == self.input,
                symbol_row == (|symbol: Symbol|
                    ParserInput::name_row(input.id(symbol), input.shown_name(symbol))),
                symbol_rows == input.symbols().map_values(symbol_row),
                i <= input.symbols().len(),
                rows@ == symbol_rows.take(i as int),
            decreases input.symbols().len() - i,
        {
            let symbol: Symbol = self.input.parse_table.symbols[i];
            assert(input.is_known(input.symbols()[i as int]));
            assert(input.symbols().contains(input.symbols()[i as int]));
            let name: String = sanitize_string(self.shown_name(symbol));
            let row: String = concat5(
                "/* ",
                self.symbol_id(symbol),
                " */ \"",
                name.as_str(),
                "\",",
            );
            assert(row@ == symbol_rows[i as int]);
            rows.push(row);
            i += 1;
            assert(rows@ =~= symbol_rows.take(i as int));
        }
        assert(symbol_rows.take(i as int) =~= symbol_rows);
        assert(self.unique_aliases@.len() == alias_views(self.unique_aliases@).len());
        let mut k: usize = 0;
        assert(rows@ =~= symbol_rows + alias_rows.take(0));
        while k < self.unique_aliases.len()
            invariant
                self.wf(),
                input == self.input,
                self.unique_aliases@.len() == input.unique_aliases().len(),
                alias_row == (|alias: AliasView|
                    ParserInput::name_row(input.alias_id(alias), alias.value)),
                alias_rows == input.unique_aliases().map_values(alias_row),
                k <= self.unique_aliases@.len(),
                rows@ == symbol_rows + alias_rows.take(k as int),
            decreases self.unique_aliases@.len() - k,
        {
            let alias: &Alias = &self.unique_aliases[k];
            assert(alias_views(self.unique_aliases@)[k as int] == alias@);
            assert(input.aliases().contains(self.unique_aliases@[k as int]@));
            let name: String = sanitize_string(alias.value.as_str());
            let row: String = concat5("/* ", self.alias_id(alias), " */ \"", name.as_str(), "\",");
            assert(row@ == alias_rows[k as int]);
            rows.push(row);
            k += 1;
            assert(rows@ =~= symbol_rows + alias_rows.take(k as int));
        }
        assert(alias_rows.take(k as int) =~= alias_rows);
        self.add_shown_array("static TS_SYMBOL_NAMES: [&str; ", &rows, out);
    }

    /// Adds what the symbols and aliases are shown as.
    #[verifier::rlimit(40)]
    pub fn add_unique_symbol_map(&self, out: &mut TextList)
        requires
            self.wf(),
        ensures
            final(out)@ == old(out)@ + self.input.symbol_map_lines(),
    {
        let ghost input = self.input;
        let ghost symbol_row = |symbol: Symbol|
            ParserInput::map_row(input.id(symbol), input.id(input.symbol_map()[symbol]));
        let ghost alias_row = |alias: AliasView|
            ParserInput::map_row(input.alias_id(alias), input.alias_id(alias));
        let ghost symbol_rows = input.symbols().map_values(symbol_row);
        let ghost alias_rows = input.unique_aliases().map_values(alias_row);
        let mut rows: TextList = TextList::new();
        let mut i: usize = 0;
        assert(rows@ =~= symbol_rows.take(0));
        while i < self.input.parse_table.symbols.len()
            invariant
                self.wf(),
                input == self.input,
                symbol_row == (|symbol: Symbol|
                    ParserInput::map_row(input.id(symbol), input.id(input.symbol_map()[symbol]))),
                symbol_rows == input.symbols().map_values(symbol_row),
                i <= input.symbols().len(),
                rows@ == symbol_rows.take(i as int),
            decreases input.symbols().len() - i,
        {
            let symbol: Symbol = self.input.parse_table.symbols[i];
            assert(input.symbols().contains(input.symbols()[i as int]));
            let row: String = concat5(
                "/* ",
                self.symbol_id(symbol),
                " */ ",
                self.public_symbol_id(symbol),
                ",",
            );
            assert(row@ == symbol_rows[i as int]);
            rows.push(row);
            i += 1;
            assert(rows@ =~= symbol_rows.take(i as int));
        }
        assert(symbol_rows.take(i as int) =~= symbol_rows);
        assert(self.unique_aliases@.len() == alias_views(self.unique_aliases@).len());
        let mut k: usize = 0;
        assert(rows@ =~= symbol_rows + alias_rows.take(0));
        while k < self.unique_aliases.len()
            invariant
                self.wf(),
                input == self.input,
                self.unique_aliases@.len() == input.unique_aliases().len(),
                alias_row == (|alias: AliasView|
                    ParserInput::map_row(input.alias_id(alias), input.alias_id(alias))),
                alias_rows == input.unique_aliases().map_values(alias_row),
                k <= self.unique_aliases@.len(),
                rows@ == symbol_rows + alias_rows.take(k as int),
            decreases self.unique_aliases@.len() - k,
        {
            let alias: &Alias = &self.unique_aliases[k];
            assert(alias_views(self.unique_aliases@)[k as int] == alias@);
            assert(input.aliases().contains(self.unique_aliases@[k as int]@));
            let id: &str = self.alias_id(alias);
            let row: String = concat5("/* ", id, " */ ", id, ",");
            assert(row@ == alias_rows[k as int]);
            rows.push(row);
            k += 1;
            assert(rows@ =~= symbol_rows + alias_rows.take(k as int));
        }
        assert(alias_rows.take(k as int) =~= alias_rows);
        self.add_shown_array("static TS_SYMBOL_MAP: [Symbol; ", &rows, out);
    }

    /// The symbol is one of the grammar's supertypes.
    fn is_supertype(&self, symbol: Symbol) -> (r: bool)
        ensures
            r == self.input.syntax_grammar.supertype_symbols@.contains(symbol),
    {
        let supertypes = &self.input.syntax_grammar.supertype_symbols;
        let mut i: usize = 0;
        while i < supertypes.len()
            invariant
                supertypes@ == self.input.syntax_grammar.supertype_symbols@,
                i <= supertypes@.len(),
                forall|j: int| 0 <= j < i ==> #[trigger] supertypes@[j] != symbol,
            decreases supertypes@.len() - i,
        {
            if supertypes[i] == symbol {
                assert(supertypes@[i as int] == symbol);
                return true;
            }
            i += 1;
        }
        false
    }

    /// A symbol is visible, is named, and is a supertype.
    fn symbol_traits(&self, symbol: Symbol) -> (r: (bool, bool, bool))
        requires
            self.wf(),
            self.input.is_known(symbol),
        ensures
            r == self.input.symbol_traits(symbol),
    {
        match self.input.default_aliases.get(symbol) {
            Some(alias) => (true, alias.is_named, false),
            None => match self.input.metadata_for_symbol(symbol).1 {
                VariableType::Named => (true, true, false),
                VariableType::Anonymous => (true, false, false),
                VariableType::Hidden => (false, true, self.is_supertype(symbol)),
                VariableType::Auxiliary => (false, false, false),
            },
        }
    }

    /// The row that says what is known of a symbol or an alias.
    fn metadata_row(id: &str, traits: (bool, bool, bool)) -> (r: String)
        ensures
            r@ == ParserInput::metadata_row(id@, traits),
    {
        let mut r: String = concat7(
            "/* ",
            id,
            " */ SymbolMetadata { visible: ",
            truth_text(traits.0),
            ", named: ",
            truth_text(traits.1),
            ", supertype: ",
        );
        r.append(truth_text(traits.2));
        r.append(" },");
        r
    }

    /// Adds what is known of the symbols and aliases.
    #[verifier::rlimit(40)]
    pub fn add_symbol_metadata_list(&self, out: &mut TextList)
        requires
            self.wf(),
        ensures
            final(out)@ == old(out)@ + self.input.symbol_metadata_lines(),
    {
        let ghost input = self.input;
        let ghost symbol_row = |symbol: Symbol|
            ParserInput::metadata_row(input.id(symbol), input.symbol_traits(symbol));
        let ghost alias_row = |alias: AliasView|
            ParserInput::metadata_row(input.alias_id(alias), (true, alias.is_named, false));
        let ghost symbol_rows = input.symbols().map_values(symbol_row);
        let ghost alias_rows = input.unique_aliases().map_values(alias_row);
        let mut rows: TextList = TextList::new();
        let mut i: usize = 0;
        assert(rows@ =~= symbol_rows.take(0));
        while i < self.input.parse_table.symbols.len()
            invariant
                self.wf(),
                input == self.input,
                symbol_row == (|symbol: Symbol|
                    ParserInput::metadata_row(input.id(symbol), input.symbol_traits(symbol))),
                symbol_rows == input.symbols().map_values(symbol_row),
                i <= input.symbols().len(),
                rows@ == symbol_rows.take(i as int),
            decreases input.symbols().len() - i,
        {
            let symbol: Symbol = self.input.parse_table.symbols[i];
            assert(input.is_known(input.symbols()[i as int]));
            assert(input.symbols().contains(input.symbols()[i as int]));
            let row: String = Self::metadata_row(
                self.symbol_id(symbol),
                self.symbol_traits(symbol),
            );
            assert(row@ == symbol_rows[i as int]);
            rows.push(row);
            i += 1;
            assert(rows@ =~= symbol_rows.take(i as int));
        }
        assert(symbol_rows.take(i as int) =~= symbol_rows);
        assert(self.unique_aliases@.len() == alias_views(self.unique_aliases@).len());
        let mut k: usize = 0;
        assert(rows@ =~= symbol_rows + alias_rows.take(0));
        while k < self.unique_aliases.len()
            invariant
                self.wf(),
                input == self.input,
                self.unique_aliases@.len() == input.unique_aliases().len(),
                alias_row == (|alias: AliasView|
                    ParserInput::metadata_row(input.alias_id(alias), (true, alias.is_named, false))),
                alias_rows == input.unique_aliases().map_values(alias_row),
                k <= self.unique_aliases@.len(),
                rows@ == symbol_rows + alias_rows.take(k as int),
            decreases self.unique_aliases@.len() - k,
        {
            let alias: &Alias = &self.unique_aliases[k];
            assert(alias_views(self.unique_aliases@)[k as int] == alias@);
            assert(input.aliases().contains(self.unique_aliases@[k as int]@));
            let row: String = Self::metadata_row(
                self.alias_id(alias),
                (true, alias.is_named, false),
            );
            assert(row@ == alias_rows[k as int]);
            rows.push(row);
            k += 1;
            assert(rows@ =~= symbol_rows + alias_rows.take(k as int));
        }
        assert(alias_rows.take(k as int) =~= alias_rows);
        self.add_shown_array("static TS_SYMBOL_METADATA: [SymbolMetadata; ", &rows, out);
    }
}

} // verus!
