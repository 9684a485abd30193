//! That rendered parsers declare or import the symbols that they speak of.
use vstd::prelude::*;

use crate::render_rust::input::ParserInput;
use crate::render_rust::names::{sanitized_identifier, uppercase};
use crate::render_rust::symbols::{header_lines, import_lines};
use crate::rules::{AliasView, Symbol};
use crate::runtime::BUILTIN_SYM_END;

verus! {

/// The line that imports the end.
pub open spec fn end_import() -> Seq<char> {
    "use tree_sitter_runtime::BUILTIN_SYM_END as ts_builtin_sym_end;"@
}

impl ParserInput {
    /// The identifier of a symbol is imported as the end's, or declared with the given number.
    pub open spec fn is_declared(&self, name: Seq<char>, id: Seq<char>, number: nat) -> bool {
        if id == "ts_builtin_sym_end"@ {
            number == BUILTIN_SYM_END && self.parser_lines(name).contains(end_import())
        } else {
            self.parser_lines(name).contains(ParserInput::symbol_constant(id, number))
        }
    }

    /// The end is imported under its identifier, with its number. The end of a non-terminal extra
    /// has the identifier of the end.
    pub proof fn end_is_imported(&self, name: Seq<char>)
        requires
            self.is_consistent(),
        ensures
            self.id(Symbol::end()) == "ts_builtin_sym_end"@,
            self.id(Symbol::end_of_nonterminal_extra()) == "ts_builtin_sym_end"@,
            self.symbol_numbers().contains_key(Symbol::end()),
            self.symbol_numbers()[Symbol::end()] == BUILTIN_SYM_END,
            self.parser_lines(name).contains(end_import()),
    {
        let all = self.parser_lines(name);
        let place = header_lines().len() + 2;
        assert(import_lines()[2] == end_import());
        assert(self.lines_before_lexers()[place as int] == end_import());
        assert(all[place as int] == end_import());
        let n = self.symbols().len();
        self.lemma_end(n);
        self.lemma_symbol_ids();
        self.lemma_end_id(n);
    }

    /// The end has its identifier as soon as it has any.
    proof fn lemma_end_id(&self, n: nat)
        requires
            n <= self.symbols().len(),
            self.symbol_ids_upto(n).contains_key(Symbol::end()),
        ensures
            self.symbol_ids_upto(n)[Symbol::end()] == "ts_builtin_sym_end"@,
        decreases n,
    {
        if self.symbols()[n - 1] != Symbol::end() {
            self.lemma_end_id((n - 1) as nat);
        }
    }

    /// The end has its number throughout.
    pub proof fn lemma_end(&self, n: nat)
        ensures
            self.symbol_numbers_upto(n).contains_key(Symbol::end()),
            self.symbol_numbers_upto(n)[Symbol::end()] == 0,
        decreases n,
    {
        if n > 0 {
            self.lemma_end((n - 1) as nat);
        }
    }

    /// Every symbol with an identifier is declared or imported, with the number by which the
    /// tables know it.
    pub proof fn symbol_is_declared(&self, name: Seq<char>, symbol: Symbol)
        requires
            self.is_consistent(),
            self.symbols().no_duplicates(),
            self.has_identifier(symbol),
        ensures
            self.is_declared(name, self.id(symbol), self.table_number(symbol)),
    {
        self.end_is_imported(name);
        if symbol == Symbol::end() {
        } else if symbol == Symbol::end_of_nonterminal_extra() {
            self.lemma_unnumbered(self.symbols().len(), symbol);
        } else {
            let i = self.symbols().index_of(symbol);
            let constant = ParserInput::symbol_constant(
                self.id(symbol),
                self.symbol_numbers()[symbol],
            );
            self.symbol_constant_is_declared(i);
            self.lemma_constant(name, self.symbol_constant_lines().index_of(constant));
            let j = self.symbols().index_of(Symbol::end());
            self.identifiers_differ(i, j);
        }
    }

    /// The constants of symbols and aliases are in the rendered parser.
    proof fn lemma_constant(&self, name: Seq<char>, k: int)
        requires
            0 <= k < self.symbol_constant_lines().len(),
        ensures
            self.parser_lines(name).contains(self.symbol_constant_lines()[k]),
    {
        let constant = self.symbol_constant_lines()[k];
        let place = header_lines().len() + import_lines().len() + self.stats_lines().len() + k;
        assert(self.lines_before_lexers()[place] == constant);
        assert(self.parser_lines(name)[place] == constant);
    }

    /// A symbol that is neither the end nor one of the parser has no number.
    pub proof fn lemma_unnumbered(&self, n: nat, symbol: Symbol)
        requires
            self.is_consistent(),
            n <= self.symbols().len(),
            symbol == Symbol::end_of_nonterminal_extra(),
        ensures
            !self.symbol_numbers_upto(n).contains_key(symbol),
        decreases n,
    {
        if n > 0 {
            self.lemma_unnumbered((n - 1) as nat, symbol);
            assert(self.is_known(self.symbols()[n - 1]));
        }
    }

    /// What a symbol is shown as is a symbol of the parser, and so declared or imported.
    pub proof fn shown_symbol_is_declared(&self, name: Seq<char>, symbol: Symbol)
        requires
            self.is_consistent(),
            self.symbols().no_duplicates(),
            self.symbols().contains(symbol),
        ensures
            self.symbols().contains(self.symbol_map()[symbol]),
            self.is_declared(
                name,
                self.id(self.symbol_map()[symbol]),
                self.table_number(self.symbol_map()[symbol]),
            ),
    {
        self.lemma_shown(self.symbols().len(), self.symbols().index_of(symbol));
        self.symbol_is_declared(name, self.symbol_map()[symbol]);
    }

    proof fn lemma_shown(&self, n: nat, i: int)
        requires
            self.is_consistent(),
            0 <= i < n <= self.symbols().len(),
        ensures
            self.symbols().contains(self.symbol_map_upto(n)[self.symbols()[i]]),
        decreases n,
    {
        let symbol = self.symbols()[n - 1];
        let before = self.symbol_map_upto((n - 1) as nat);
        if i < n - 1 {
            self.lemma_shown((n - 1) as nat, i);
        }
        if self.default_alias(symbol) is Some {
            self.aliased_symbol_keeps_its_name(symbol, before);
        } else if symbol.is_terminal() {
            self.token_keeps_its_name(symbol, before);
        }
    }

    /// The identifier of every alias of a production is declared or imported.
    pub proof fn alias_is_declared(&self, name: Seq<char>, alias: AliasView)
        requires
            self.is_consistent(),
            self.symbols().no_duplicates(),
            self.aliases().contains(alias),
        ensures
            exists|number: nat| #[trigger] self.is_declared(name, self.alias_id(alias), number),
    {
        if self.symbols_with_alias(alias).len() > 0 {
            let symbol = self.symbols_with_alias(alias)[0];
            self.symbols().lemma_filter_contains_rev(self.is_aliased_as(alias), symbol);
            self.shown_symbol_is_declared(name, symbol);
        } else {
            self.unique_aliases_are_sorted(alias);
            let k = self.unique_aliases().index_of(alias);
            let number = self.next_symbol_number(self.symbols().len()) + k as nat;
            let constant = ParserInput::symbol_constant(self.alias_id(alias), number);
            let within = self.symbol_constants(self.symbols().len()).len() + k;
            assert(self.symbol_constant_lines()[within] == constant);
            self.lemma_constant(name, within);
            lemma_alias_prefix(uppercase(sanitized_identifier(alias.value)));
            assert(self.is_declared(name, self.alias_id(alias), number));
        }
    }
}

/// No alias has the identifier of the end.
proof fn lemma_alias_prefix(word: Seq<char>)
    ensures
        "ALIAS_SYM_"@ + word != "ts_builtin_sym_end"@,
        "ANON_ALIAS_SYM_"@ + word != "ts_builtin_sym_end"@,
{
    reveal_strlit("ALIAS_SYM_");
    reveal_strlit("ANON_ALIAS_SYM_");
    reveal_strlit("ts_builtin_sym_end");
    assert(("ALIAS_SYM_"@ + word)[0] != "ts_builtin_sym_end"@[0]);
    assert(("ANON_ALIAS_SYM_"@ + word)[0] != "ts_builtin_sym_end"@[0]);
}

} // verus!
