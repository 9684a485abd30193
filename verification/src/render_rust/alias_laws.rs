//! What a rendered parser says of aliases.
use vstd::prelude::*;

use crate::grammars::{Production, ProductionStep, VariableType};
use crate::order::{is_ascending, text_order};
use crate::render_rust::input::ParserInput;
use crate::render_rust::names::{sanitized_identifier, uppercase};
use crate::rules::{AliasView, Symbol, SymbolType};
use crate::text::{decimal, indent, line};
use crate::text_laws::{has_array, has_block, lemma_array, lemma_block_contains, lemma_peel};

verus! {

/// The lines for a non-terminal that is shown in several ways: its identifier, how many ways there
/// are, the identifier as which it is shown without an alias, and those of its aliases.
pub open spec fn alias_group(
    id: Seq<char>,
    public_id: Seq<char>,
    ids: Seq<Seq<char>>,
) -> Seq<Seq<char>> {
    seq![
        "    "@ + (id + ", "@ + decimal(ids.len() + 1) + ","@),
        "        "@ + (public_id + ","@),
    ] + Seq::new(ids.len(), |k: int| "        "@ + (ids[k] + ","@))
}

impl ParserInput {
    /// Some production has the alias at some place of its alias sequence.
    pub open spec fn is_in_production(&self, alias: AliasView) -> bool {
        exists|i: int, j: int|
            #![trigger self.parse_table.production_infos@[i].alias_sequence@[j]]
            0 <= i < self.parse_table.production_infos@.len() && 0 <= j
                < self.parse_table.production_infos@[i].alias_sequence@.len()
                && self.parse_table.production_infos@[i].alias_sequence@[j] is Some
                && self.parse_table.production_infos@[i].alias_sequence@[j]->0.value@ == alias.value
                && self.parse_table.production_infos@[i].alias_sequence@[j]->0.is_named
                == alias.is_named
    }

    /// The aliases are those that stand at any place of the alias sequence of any production.
    pub proof fn aliases_are_those_of_productions(&self, alias: AliasView)
        ensures
            self.aliases().contains(alias) == self.is_in_production(alias),
    {
        if self.aliases().contains(alias) {
            let (i, j) = choose|i: int, j: int| self.has_alias_at(i, j, alias);
            assert(self.parse_table.production_infos@[i].alias_sequence@[j] is Some);
        }
        if self.is_in_production(alias) {
            let (i, j) = choose|i: int, j: int|
                #![trigger self.parse_table.production_infos@[i].alias_sequence@[j]]
                0 <= i < self.parse_table.production_infos@.len() && 0 <= j
                    < self.parse_table.production_infos@[i].alias_sequence@.len()
                    && self.parse_table.production_infos@[i].alias_sequence@[j] is Some
                    && self.parse_table.production_infos@[i].alias_sequence@[j]->0.value@
                    == alias.value && self.parse_table.production_infos@[i].alias_sequence@[
                    j]->0.is_named == alias.is_named;
            assert(self.has_alias_at(i, j, alias));
        }
    }

    /// A symbol of the parser is shown as the alias says without being aliased in a production: by
    /// default, or by its own name and kind.
    pub open spec fn shows(&self, i: int, alias: AliasView) -> bool {
        let symbol = self.parse_table.symbols@[i];
        &&& 0 <= i < self.parse_table.symbols@.len()
        &&& match self.default_alias(symbol) {
            Some(other) => other == alias,
            None => self.symbol_metadata(symbol).0 == alias.value && self.symbol_metadata(symbol).1
                == if alias.is_named {
                VariableType::Named
            } else {
                VariableType::Anonymous
            },
        }
    }

    /// An alias as which symbols are shown anyway has the identifier as which the first of them is
    /// shown.
    pub proof fn known_aliases_have_identifiers_of_symbols(&self, alias: AliasView, i: int)
        requires
            self.shows(i, alias),
            forall|j: int| 0 <= j < i ==> !#[trigger] self.shows(j, alias),
        ensures
            self.alias_id(alias) == self.id(self.symbol_map()[self.parse_table.symbols@[i]]),
            !self.unique_aliases().contains(alias),
    {
        self.lemma_first_shown(alias, i);
        self.unique_aliases_are_sorted(alias);
    }

    proof fn lemma_first_shown(&self, alias: AliasView, i: int)
        requires
            self.shows(i, alias),
            forall|j: int| 0 <= j < i ==> !#[trigger] self.shows(j, alias),
        ensures
            self.symbols_with_alias(alias).len() > 0,
            self.symbols_with_alias(alias)[0] == self.parse_table.symbols@[i],
    {
        let pred = self.is_aliased_as(alias);
        assert forall|j: int| 0 <= j < self.symbols().len() implies pred(self.symbols()[j])
            == #[trigger] self.shows(j, alias) by {}
        assert(pred(self.symbols()[i]));
        assert forall|j: int| 0 <= j < i implies !pred(#[trigger] self.symbols()[j]) by {
            assert(!self.shows(j, alias));
        }
        lemma_first_of_filter(self.symbols(), pred, i);
    }

    /// An alias as which no symbol is shown has an identifier of its own, made of its name.
    pub proof fn new_aliases_have_identifiers_of_their_own(&self, alias: AliasView)
        requires
            forall|j: int|
                0 <= j < self.parse_table.symbols@.len() ==> !#[trigger] self.shows(j, alias),
        ensures
            self.alias_id(alias) == (if alias.is_named {
                "ALIAS_SYM_"@
            } else {
                "ANON_ALIAS_SYM_"@
            }) + uppercase(sanitized_identifier(alias.value)),
            self.unique_aliases().contains(alias) == self.is_in_production(alias),
    {
        let pred = self.is_aliased_as(alias);
        assert forall|j: int| 0 <= j < self.symbols().len() implies !pred(
            #[trigger] self.symbols()[j],
        ) by {
            assert(!self.shows(j, alias));
        }
        lemma_none_of_filter(self.symbols(), pred);
        self.unique_aliases_are_sorted(alias);
        self.aliases_are_those_of_productions(alias);
    }

    /// The `k`th of the aliases as which no symbol is shown is declared with the number that is `k`
    /// more than that of symbols.
    pub proof fn new_aliases_are_numbered(&self, name: Seq<char>, k: int)
        requires
            self.is_consistent(),
            self.symbols().no_duplicates(),
            0 <= k < self.unique_aliases().len(),
        ensures
            self.parser_lines(name).contains(
                "const "@ + self.alias_id(self.unique_aliases()[k]) + ": Symbol = "@ + decimal(
                    self.parse_table.symbols@.len() + k as nat,
                ) + ";"@,
            ),
    {
        let n = self.symbols().len();
        self.sections_are_rendered(name);
        self.lemma_symbol_count();
        let constant = ParserInput::symbol_constant(
            self.alias_id(self.unique_aliases()[k]),
            n + k as nat,
        );
        assert(self.symbol_constant_lines()[self.symbol_constants(n).len() + k] == constant);
        lemma_block_contains(
            self.parser_lines(name),
            self.symbol_constant_lines(),
            constant,
        );
    }

    /// Step `s` of production `p` of variable `v` aliases the non-terminal: it has the alias, which
    /// is one of a production and not the default one, and the non-terminal is one of the parser.
    pub open spec fn aliases_at(
        &self,
        v: int,
        p: int,
        s: int,
        symbol: Symbol,
        alias: AliasView,
    ) -> bool {
        let variables = self.syntax_grammar.variables@;
        let step = variables[v].productions@[p].steps@[s];
        &&& 0 <= v < variables.len()
        &&& 0 <= p < variables[v].productions@.len()
        &&& 0 <= s < variables[v].productions@[p].steps@.len()
        &&& step.symbol == symbol
        &&& symbol.kind == SymbolType::NonTerminal
        &&& self.parse_table.symbols@.contains(symbol)
        &&& step.alias is Some
        &&& step.alias->0.value@ == alias.value
        &&& step.alias->0.is_named == alias.is_named
        &&& self.is_in_production(alias)
        &&& self.default_alias(symbol) != Some(alias)
    }

    /// A non-terminal is aliased wherever a step of the grammar aliases it: at any place of any
    /// production of any variable.
    pub proof fn every_step_aliases(
        &self,
        v: int,
        p: int,
        s: int,
        symbol: Symbol,
        alias: AliasView,
    )
        requires
            self.is_consistent(),
            self.aliases_at(v, p, s, symbol, alias),
        ensures
            self.aliased_steps().contains((symbol, self.alias_id(alias))),
    {
        let variables = self.syntax_grammar.variables@;
        let productions = variables[v].productions@;
        let steps = productions[p].steps@;
        let pair = (symbol, self.alias_id(alias));
        self.aliases_are_those_of_productions(alias);
        self.lemma_symbol_ids();
        assert(steps[s].alias->0@ == alias);
        assert(self.step_alias(steps[s]) == Some(pair));
        self.lemma_in_steps(steps, steps.len(), s, pair);
        self.lemma_in_productions(productions, productions.len(), p, pair);
        self.lemma_in_variables(variables.len(), v, pair);
    }

    proof fn lemma_in_steps(
        &self,
        steps: Seq<ProductionStep>,
        n: nat,
        s: int,
        pair: (Symbol, Seq<char>),
    )
        requires
            0 <= s < n <= steps.len(),
            self.step_alias(steps[s]) == Some(pair),
        ensures
            self.step_aliases(steps, n).contains(pair),
        decreases n,
    {
        let before = self.step_aliases(steps, (n - 1) as nat);
        let after = self.step_aliases(steps, n);
        if s < n - 1 {
            self.lemma_in_steps(steps, (n - 1) as nat, s, pair);
            assert(after[before.index_of(pair)] == pair);
        } else {
            assert(after[before.len() as int] == pair);
        }
    }

    proof fn lemma_in_productions(
        &self,
        productions: Seq<Production>,
        n: nat,
        p: int,
        pair: (Symbol, Seq<char>),
    )
        requires
            0 <= p < n <= productions.len(),
            self.step_aliases(productions[p].steps@, productions[p].steps@.len()).contains(pair),
        ensures
            self.production_aliases(productions, n).contains(pair),
        decreases n,
    {
        let before = self.production_aliases(productions, (n - 1) as nat);
        let after = self.production_aliases(productions, n);
        if p < n - 1 {
            self.lemma_in_productions(productions, (n - 1) as nat, p, pair);
            assert(after[before.index_of(pair)] == pair);
        } else {
            let added = self.step_aliases(productions[p].steps@, productions[p].steps@.len());
            assert(after[before.len() + added.index_of(pair)] == pair);
        }
    }

    proof fn lemma_in_variables(&self, n: nat, v: int, pair: (Symbol, Seq<char>))
        requires
            0 <= v < n <= self.syntax_grammar.variables@.len(),
            self.production_aliases(
                self.syntax_grammar.variables@[v].productions@,
                self.syntax_grammar.variables@[v].productions@.len(),
            ).contains(pair),
        ensures
            self.variable_aliases(n).contains(pair),
        decreases n,
    {
        let before = self.variable_aliases((n - 1) as nat);
        let after = self.variable_aliases(n);
        if v < n - 1 {
            self.lemma_in_variables((n - 1) as nat, v, pair);
            assert(after[before.index_of(pair)] == pair);
        } else {
            let productions = self.syntax_grammar.variables@[v].productions@;
            let added = self.production_aliases(productions, productions.len());
            assert(after[before.len() + added.index_of(pair)] == pair);
        }
    }

    /// Whatever non-terminal is aliased, some step of the grammar aliases it.
    pub proof fn aliases_come_from_steps(&self, symbol: Symbol, id: Seq<char>)
        requires
            self.is_consistent(),
            self.aliased_steps().contains((symbol, id)),
        ensures
            exists|v: int, p: int, s: int, alias: AliasView|
                self.aliases_at(v, p, s, symbol, alias) && #[trigger] self.is_step_alias(
                    v,
                    p,
                    s,
                    alias,
                    id,
                ),
    {
        let pair = (symbol, id);
        let v = self.lemma_from_variables(self.syntax_grammar.variables@.len(), pair);
        let productions = self.syntax_grammar.variables@[v].productions@;
        let p = self.lemma_from_productions(productions, productions.len(), pair);
        let steps = productions[p].steps@;
        let s = self.lemma_from_steps(steps, steps.len(), pair);
        let alias = steps[s].alias->0@;
        self.lemma_symbol_ids();
        self.aliases_are_those_of_productions(alias);
        assert(self.aliases_at(v, p, s, symbol, alias));
        assert(self.is_step_alias(v, p, s, alias, id));
    }

    /// The step has the alias, which has the identifier.
    pub open spec fn is_step_alias(
        &self,
        v: int,
        p: int,
        s: int,
        alias: AliasView,
        id: Seq<char>,
    ) -> bool {
        let step = self.syntax_grammar.variables@[v].productions@[p].steps@[s];
        &&& step.alias is Some
        &&& step.alias->0.value@ == alias.value
        &&& step.alias->0.is_named == alias.is_named
        &&& self.alias_id(alias) == id
    }

    proof fn lemma_from_steps(
        &self,
        steps: Seq<ProductionStep>,
        n: nat,
        pair: (Symbol, Seq<char>),
    ) -> (s: int)
        requires
            n <= steps.len(),
            self.step_aliases(steps, n).contains(pair),
        ensures
            0 <= s < n,
            self.step_alias(steps[s]) == Some(pair),
        decreases n,
    {
        let before = self.step_aliases(steps, (n - 1) as nat);
        if n > 0 && before.contains(pair) {
            self.lemma_from_steps(steps, (n - 1) as nat, pair)
        } else {
            let k = self.step_aliases(steps, n).index_of(pair);
            if k < before.len() {
                assert(before[k] == pair);
            }
            n - 1
        }
    }

    proof fn lemma_from_productions(
        &self,
        productions: Seq<Production>,
        n: nat,
        pair: (Symbol, Seq<char>),
    ) -> (p: int)
        requires
            n <= productions.len(),
            self.production_aliases(productions, n).contains(pair),
        ensures
            0 <= p < n,
            self.step_aliases(productions[p].steps@, productions[p].steps@.len()).contains(pair),
        decreases n,
    {
        let before = self.production_aliases(productions, (n - 1) as nat);
        if n > 0 && before.contains(pair) {
            self.lemma_from_productions(productions, (n - 1) as nat, pair)
        } else {
            let k = self.production_aliases(productions, n).index_of(pair);
            if k < before.len() {
                assert(before[k] == pair);
            }
            let added = self.step_aliases(
                productions[n - 1].steps@,
                productions[n - 1].steps@.len(),
            );
            assert(added[k - before.len()] == pair);
            n - 1
        }
    }

    proof fn lemma_from_variables(&self, n: nat, pair: (Symbol, Seq<char>)) -> (v: int)
        requires
            n <= self.syntax_grammar.variables@.len(),
            self.variable_aliases(n).contains(pair),
        ensures
            0 <= v < n,
            self.production_aliases(
                self.syntax_grammar.variables@[v].productions@,
                self.syntax_grammar.variables@[v].productions@.len(),
            ).contains(pair),
        decreases n,
    {
        let before = self.variable_aliases((n - 1) as nat);
        if n > 0 && before.contains(pair) {
            self.lemma_from_variables((n - 1) as nat, pair)
        } else {
            let k = self.variable_aliases(n).index_of(pair);
            if k < before.len() {
                assert(before[k] == pair);
            }
            let productions = self.syntax_grammar.variables@[n - 1].productions@;
            let added = self.production_aliases(productions, productions.len());
            assert(added[k - before.len()] == pair);
            n - 1
        }
    }

    /// The rendered parser has a group for each aliased non-terminal: its identifier with the number
    /// of ways in which it is shown, the identifier as which it is shown without an alias, and the
    /// identifiers of all aliases that steps give it, in ascending order.
    pub proof fn alias_groups_are_listed(&self, name: Seq<char>, symbol: Symbol, id: Seq<char>)
        requires
            self.aliased_steps().contains((symbol, id)),
        ensures
            ({
                let ids = self.alias_ids_of(symbol);
                &&& ids.contains(id)
                &&& is_ascending(ids, text_order())
                &&& forall|other: Seq<char>| #[trigger]
                    ids.contains(other) ==> self.aliased_steps().contains((symbol, other))
                &&& has_block(
                    self.parser_lines(name),
                    alias_group(self.id(symbol), self.id(self.symbol_map()[symbol]), ids),
                )
            }),
    {
        let ids = self.alias_ids_of(symbol);
        let symbols = self.aliased_symbols();
        self.alias_map_is_sorted(symbol, id);
        assert forall|other: Seq<char>| #[trigger] ids.contains(other) implies
            self.aliased_steps().contains((symbol, other)) by {
            self.alias_map_is_sorted(symbol, other);
        }
        let i = symbols.index_of(symbol);
        let all = self.parser_lines(name);
        self.lemma_alias_block(name);
        self.lemma_alias_group(all, symbols.len(), i);
        self.lemma_group_lines(symbol);
    }

    proof fn lemma_group_lines(&self, symbol: Symbol)
        ensures
            self.aliased_symbol_lines(symbol) == alias_group(
                self.id(symbol),
                self.id(self.symbol_map()[symbol]),
                self.alias_ids_of(symbol),
            ),
    {
        let ids = self.alias_ids_of(symbol);
        let lines = self.aliased_symbol_lines(symbol);
        let group = alias_group(self.id(symbol), self.id(self.symbol_map()[symbol]), ids);
        let values = self.aliased_symbol_values(symbol);
        lemma_deep_indent();
        assert(values.len() == ids.len() + 3);
        assert(lines.len() == ids.len() + 2);
        assert(values[0] == self.id(symbol));
        assert(values[1] == decimal(ids.len() + 1));
        assert(lines[0] == group[0]);
        assert forall|x: int| 1 <= x < lines.len() implies #[trigger] lines[x] == group[x] by {
            assert(lines[x] == line(2, values[x + 1] + ","@));
            if x == 1 {
                assert(values[2] == self.id(self.symbol_map()[symbol]));
            } else {
                assert(values[x + 1] == ids[x - 2]);
                assert(group[x] == "        "@ + (ids[x - 2] + ","@));
            }
        }
        assert(lines =~= group);
    }

    proof fn lemma_alias_block(&self, name: Seq<char>)
        ensures
            has_block(
                self.parser_lines(name),
                self.aliased_symbols_lines(self.aliased_symbols().len()),
            ),
    {
        let all = self.parser_lines(name);
        let n = self.aliased_symbols().len();
        let head = seq![
            "static TS_NON_TERMINAL_ALIAS_MAP: [u16; "@ + decimal(1 + self.alias_map_len(n))
                + "] = ["@,
        ];
        self.sections_are_rendered(name);
        lemma_peel(
            all,
            head + self.aliased_symbols_lines(n),
            seq![line(1, "0,"@), "];"@, ""@],
        );
        lemma_peel(all, head, self.aliased_symbols_lines(n));
    }

    proof fn lemma_alias_group(&self, all: Seq<Seq<char>>, n: nat, i: int)
        requires
            0 <= i < n,
            has_block(all, self.aliased_symbols_lines(n)),
        ensures
            has_block(all, self.aliased_symbol_lines(self.aliased_symbols()[i])),
        decreases n,
    {
        lemma_peel(
            all,
            self.aliased_symbols_lines((n - 1) as nat),
            self.aliased_symbol_lines(self.aliased_symbols()[n - 1]),
        );
        if i < n - 1 {
            self.lemma_alias_group(all, (n - 1) as nat, i);
        }
    }

    /// The array of the aliases of non-terminals is declared with as many values as its groups have
    /// and one more, begins with the groups, and ends with a zero.
    pub proof fn alias_map_is_ended(&self, name: Seq<char>)
        ensures
            ({
                let n = self.aliased_symbols().len();
                has_block(
                    self.parser_lines(name),
                    seq![
                        "static TS_NON_TERMINAL_ALIAS_MAP: [u16; "@ + decimal(
                            self.alias_map_values(n).len() + 1,
                        ) + "] = ["@,
                    ] + self.aliased_symbols_lines(n) + seq!["    "@ + "0,"@, "];"@, ""@],
                )
            }),
    {
        let n = self.aliased_symbols().len();
        self.sections_are_rendered(name);
        self.alias_map_is_counted(n, 0);
        lemma_deep_indent();
        assert(self.non_terminal_alias_lines() =~= seq![
            "static TS_NON_TERMINAL_ALIAS_MAP: [u16; "@ + decimal(
                self.alias_map_values(n).len() + 1,
            ) + "] = ["@,
        ] + self.aliased_symbols_lines(n) + seq!["    "@ + "0,"@, "];"@, ""@]);
    }

    /// Each place of a production has a row with the identifier of the alias at that place, or a
    /// zero where there is none.
    pub proof fn alias_sequences_are_listed(&self, name: Seq<char>, i: int, j: int)
        requires
            0 <= i < self.parse_table.production_infos@.len(),
            0 <= j < self.parse_table.max_aliased_production_length,
        ensures
            ({
                let width = self.parse_table.max_aliased_production_length as nat;
                let count = self.parse_table.production_infos@.len();
                let sequence = self.parse_table.production_infos@[i].alias_sequence@;
                let rows = self.alias_rows(count);
                let comment = "/* ["@ + decimal(i as nat) + "]["@ + decimal(j as nat) + "] */ "@;
                &&& has_array(
                    self.parser_lines(name),
                    "static TS_ALIAS_SEQUENCES: [Symbol; "@ + decimal(count * width) + "] = ["@,
                    rows,
                )
                &&& rows.len() == count * width
                &&& i * width + j < rows.len()
                &&& j < sequence.len() && sequence[j] is Some ==> rows[i * width + j] == comment
                    + self.alias_id(
                    AliasView {
                        value: sequence[j]->0.value@,
                        is_named: sequence[j]->0.is_named,
                    },
                ) + ","@
                &&& j >= sequence.len() || sequence[j] is None ==> rows[i * width + j] == comment
                    + "0"@ + ","@
            }),
    {
        let width = self.parse_table.max_aliased_production_length as nat;
        let count = self.parse_table.production_infos@.len();
        self.further_sections_are_rendered(name);
        self.alias_sequences_are_flat(count, i, j);
        assert(count * width > 0) by (nonlinear_arith)
            requires
                count > 0,
                width > 0,
        ;
        lemma_array(
            self.parser_lines(name),
            "static TS_ALIAS_SEQUENCES: [Symbol; "@ + decimal(count * width) + "] = ["@,
            self.alias_rows(count),
        );
    }
}

/// The white space of the first two levels.
proof fn lemma_deep_indent()
    ensures
        indent(1) == "    "@,
        indent(2) == "        "@,
{
    reveal_with_fuel(indent, 3);
    reveal_strlit("    ");
    reveal_strlit("        ");
    assert(indent(1) =~= "    "@);
    assert(indent(2) =~= "        "@);
}

/// What a filter keeps first is the first element that it keeps.
proof fn lemma_first_of_filter<T>(q: Seq<T>, pred: spec_fn(T) -> bool, i: int)
    requires
        0 <= i < q.len(),
        pred(q[i]),
        forall|j: int| 0 <= j < i ==> !pred(#[trigger] q[j]),
    ensures
        q.filter(pred).len() > 0,
        q.filter(pred)[0] == q[i],
    decreases q.len(),
{
    reveal(Seq::filter);
    let shorter = q.drop_last();
    if i < shorter.len() {
        lemma_first_of_filter(shorter, pred, i);
    } else {
        lemma_none_of_filter(shorter, pred);
    }
}

/// A filter keeps nothing of what it does not hold of.
proof fn lemma_none_of_filter<T>(q: Seq<T>, pred: spec_fn(T) -> bool)
    requires
        forall|j: int| 0 <= j < q.len() ==> !pred(#[trigger] q[j]),
    ensures
        q.filter(pred).len() == 0,
    decreases q.len(),
{
    reveal(Seq::filter);
    if q.len() > 0 {
        lemma_none_of_filter(q.drop_last(), pred);
    }
}

} // verus!
