//! What holds of every rendered parser.
use vstd::prelude::*;

use crate::order::{ascending, is_first, lemma_ascending_exists, lemma_first_index};
use crate::render_rust::action_laws::lemma_values_of_concat;
use crate::render_rust::actions::{values_of, ValueRow};
use crate::render_rust::fields::{
    field_entry_row, field_entry_rows, field_map_offset, flat_field_map, FieldMap,
};
use crate::render_rust::init::free_identifier_is_unused;
use crate::render_rust::input::{identifier_prefix, ParserInput};
use crate::render_rust::names::uppercase;
use crate::rules::{lemma_symbol_order, symbol_less, symbol_order, Symbol};
use crate::tables::{FieldLocation, ParseState};
use crate::text::{decimal, lemma_decimal_injective, line};

verus! {

impl ParserInput {
    /// Different symbols have different identifiers.
    pub proof fn identifiers_differ(&self, i: int, j: int)
        requires
            self.is_consistent(),
            self.symbols().no_duplicates(),
            0 <= i < self.symbols().len(),
            0 <= j < self.symbols().len(),
            i != j,
        ensures
            self.id(self.symbols()[i]) != self.id(self.symbols()[j]),
    {
        let n = self.symbols().len();
        self.lemma_identifiers(n);
        self.lemma_id(n, i);
        self.lemma_id(n, j);
        assert(self.is_known(self.symbols()[i]));
        assert(self.is_known(self.symbols()[j]));
    }

    /// Only the end has an identifier that begins with a small letter, and all are different.
    proof fn lemma_identifiers(&self, n: nat)
        requires
            self.symbols().no_duplicates(),
            n <= self.symbols().len(),
        ensures
            self.identifiers(n).len() == n,
            self.identifiers(n).no_duplicates(),
            forall|k: int|
                0 <= k < n && self.symbols()[k] != Symbol::end() ==> {
                    &&& (#[trigger] self.identifiers(n)[k]).len() > 0
                    &&& self.identifiers(n)[k][0] != 't'
                },
        decreases n,
    {
        if n > 0 {
            self.lemma_identifiers((n - 1) as nat);
            let before = self.identifiers((n - 1) as nat);
            let after = self.identifiers(n);
            let symbol = self.symbols()[n - 1];
            if symbol == Symbol::end() {
                reveal_strlit("ts_builtin_sym_end");
                assert forall|k: int| 0 <= k < n - 1 implies before[k] != after[n - 1] by {
                    assert(self.symbols()[k] != self.symbols()[n - 1]);
                    assert(before[k][0] != 't');
                }
            } else {
                let base = self.base_identifier(symbol);
                let kind = self.symbol_metadata(symbol).1;
                free_identifier_is_unused(base, before);
                reveal_strlit("AUX_SYM_");
                reveal_strlit("ANON_SYM_");
                reveal_strlit("SYM_");
                assert(base[0] == identifier_prefix(kind)[0]);
                assert(after[n - 1][0] == base[0]);
                assert forall|k: int| 0 <= k < n - 1 implies before[k] != after[n - 1] by {
                    assert(before.contains(before[k]));
                }
            }
            assert forall|a: int, b: int|
                0 <= a < after.len() && 0 <= b < after.len() && a != b implies after[a]
                != after[b] by {
                if a < n - 1 && b < n - 1 {
                    assert(before[a] != before[b]);
                } else if a < n - 1 {
                    assert(before[a] != after[n - 1]);
                } else {
                    assert(before[b] != after[n - 1]);
                }
            }
            assert forall|k: int| 0 <= k < n && self.symbols()[k] != Symbol::end() implies {
                &&& (#[trigger] after[k]).len() > 0
                &&& after[k][0] != 't'
            } by {
                if k < n - 1 {
                    assert(after[k] == before[k]);
                }
            }
        }
    }

    /// The identifier of a symbol is the one that it got in its turn.
    pub proof fn lemma_id(&self, n: nat, i: int)
        requires
            self.is_consistent(),
            self.symbols().no_duplicates(),
            0 <= i < n <= self.symbols().len(),
        ensures
            self.symbol_ids_upto(n)[self.symbols()[i]] == self.identifiers(
                self.symbols().len(),
            )[i],
            n == self.symbols().len() ==> self.id(self.symbols()[i]) == self.identifiers(n)[i],
        decreases n,
    {
        self.lemma_identifiers_begin(n, self.symbols().len());
        self.lemma_identifiers(n);
        if i < n - 1 {
            self.lemma_id((n - 1) as nat, i);
            assert(self.symbols()[i] != self.symbols()[n - 1]);
        }
        assert(self.is_known(self.symbols()[i]));
    }

    /// Later symbols do not change the identifiers of earlier ones.
    pub proof fn lemma_identifiers_begin(&self, n: nat, m: nat)
        requires
            n <= m,
        ensures
            self.identifiers(n).len() == n,
            self.identifiers(m).len() == m,
            forall|k: int| 0 <= k < n ==> #[trigger] self.identifiers(n)[k] == self.identifiers(m)[k],
        decreases m,
    {
        if m > 0 {
            if n < m {
                self.lemma_identifiers_begin(n, (m - 1) as nat);
            } else {
                self.lemma_identifiers_begin((n - 1) as nat, (m - 1) as nat);
            }
        }
    }

    /// Where the end comes first and no symbol twice, the number of a symbol or an alias is its
    /// place in the lists of symbols and aliases.
    pub proof fn numbers_are_places(&self, i: int)
        requires
            self.symbols().no_duplicates(),
            self.symbols().len() > 0,
            self.symbols()[0] == Symbol::end(),
            0 <= i < self.symbols().len(),
        ensures
            self.symbol_numbers().contains_key(self.symbols()[i]),
            self.symbol_numbers()[self.symbols()[i]] == i,
            self.next_symbol_number(self.symbols().len()) == self.symbols().len(),
    {
        self.lemma_numbers_are_places(self.symbols().len(), i);
    }

    proof fn lemma_numbers_are_places(&self, n: nat, i: int)
        requires
            self.symbols().no_duplicates(),
            self.symbols()[0] == Symbol::end(),
            1 <= n <= self.symbols().len(),
        ensures
            self.next_symbol_number(n) == n,
            0 <= i < n ==> {
                &&& self.symbol_numbers_upto(n).contains_key(self.symbols()[i])
                &&& self.symbol_numbers_upto(n)[self.symbols()[i]] == i
            },
        decreases n,
    {
        if n == 1 {
            reveal_with_fuel(ParserInput::next_symbol_number, 2);
            reveal_with_fuel(ParserInput::symbol_numbers_upto, 2);
        } else {
            self.lemma_numbers_are_places((n - 1) as nat, i);
            assert(self.symbols()[n - 1] != self.symbols()[0]);
            if 0 <= i < n - 1 {
                assert(self.symbols()[n - 1] != self.symbols()[i]);
            }
        }
    }

    /// The constant of a symbol other than the end says its number.
    pub proof fn symbol_constant_is_declared(&self, i: int)
        requires
            self.symbols().no_duplicates(),
            0 <= i < self.symbols().len(),
            self.symbols()[i] != Symbol::end(),
        ensures
            self.symbol_numbers().contains_key(self.symbols()[i]),
            self.symbol_constant_lines().contains(
                ParserInput::symbol_constant(
                    self.id(self.symbols()[i]),
                    self.symbol_numbers()[self.symbols()[i]],
                ),
            ),
    {
        let n = self.symbols().len();
        let constant = ParserInput::symbol_constant(
            self.id(self.symbols()[i]),
            self.symbol_numbers()[self.symbols()[i]],
        );
        self.lemma_symbol_constant(n, i);
        let k = self.symbol_constants(n).index_of(constant);
        assert(self.symbol_constant_lines()[k] == constant);
    }

    proof fn lemma_symbol_constant(&self, n: nat, i: int)
        requires
            self.symbols().no_duplicates(),
            0 <= i < n <= self.symbols().len(),
            self.symbols()[i] != Symbol::end(),
        ensures
            self.symbol_numbers_upto(n).contains_key(self.symbols()[i]),
            self.symbol_constants(n).contains(
                ParserInput::symbol_constant(
                    self.id(self.symbols()[i]),
                    self.symbol_numbers_upto(n)[self.symbols()[i]],
                ),
            ),
        decreases n,
    {
        let before = self.symbol_constants((n - 1) as nat);
        let after = self.symbol_constants(n);
        let constant = ParserInput::symbol_constant(
            self.id(self.symbols()[i]),
            self.symbol_numbers_upto(n)[self.symbols()[i]],
        );
        if i < n - 1 {
            self.lemma_symbol_constant((n - 1) as nat, i);
            assert(self.symbols()[i] != self.symbols()[n - 1]);
            assert(after[before.index_of(constant)] == constant);
        } else {
            assert(after[before.len() as int] == constant);
        }
    }

    /// A symbol with a default alias is shown as a symbol with the same shown name.
    pub proof fn aliased_symbol_keeps_its_name(&self, symbol: Symbol, earlier: Map<Symbol, Symbol>)
        requires
            self.symbols().contains(symbol),
            self.default_alias(symbol) is Some,
        ensures
            self.symbols().contains(self.shown_as(symbol, earlier)),
            self.shown_name(self.shown_as(symbol, earlier)) == self.shown_name(symbol),
    {
        let alias = self.default_alias(symbol)->0;
        let plain = self.is_plainly(alias);
        let symbols = self.symbols();
        if symbols.any(plain) {
            let i = choose|i: int| 0 <= i < symbols.len() && plain(#[trigger] symbols[i]);
            let k = some_first(symbols, plain, i);
            lemma_first_index(symbols, plain, k);
            assert(plain(symbols[k]));
        } else {
            let pred = self.is_by_default(alias);
            assert(pred(symbol));
            let least = self.some_least_symbol(pred, symbol);
            assert(self.is_least_symbol(pred, least));
            assert(pred(self.shown_as(symbol, earlier)));
        }
    }

    /// A token without a default alias is shown as a symbol with the same name and kind.
    pub proof fn token_keeps_its_name(&self, symbol: Symbol, earlier: Map<Symbol, Symbol>)
        requires
            self.symbols().contains(symbol),
            self.default_alias(symbol) is None,
            symbol.is_terminal(),
        ensures
            self.symbols().contains(self.shown_as(symbol, earlier)),
            self.symbol_metadata(self.shown_as(symbol, earlier)) == self.symbol_metadata(symbol),
    {
        let pred = self.has_metadata(self.symbol_metadata(symbol));
        let symbols = self.symbols();
        let i = symbols.index_of(symbol);
        assert(pred(symbols[i]));
        let k = some_first(symbols, pred, i);
        lemma_first_index(symbols, pred, k);
        assert(pred(symbols[k]));
        assert(symbols.contains(symbols[k]));
    }

    /// Of the symbols that meet a condition, there is a least one.
    pub proof fn some_least_symbol(&self, pred: spec_fn(Symbol) -> bool, symbol: Symbol) -> (least:
        Symbol)
        requires
            self.symbols().contains(symbol),
            pred(symbol),
        ensures
            self.is_least_symbol(pred, least),
    {
        broadcast use vstd::seq_lib::seq_to_set_is_finite;

        let symbols = self.symbols();
        let all = Set::new(|s: Symbol| symbols.contains(s) && pred(s));
        assert forall|s: Symbol| all.contains(s) implies symbols.to_set().contains(s) by {}
        vstd::set_lib::lemma_set_subset_finite(symbols.to_set(), all);
        lemma_symbol_order();
        let lt = symbol_order();
        lemma_ascending_exists(all, lt);
        let q = ascending(all, lt);
        assert(q.to_set().contains(symbol));
        assert(q.to_set().contains(q[0]));
        assert forall|other: Symbol| #[trigger] symbols.contains(other) && pred(
            other,
        ) implies !symbol_less(other, q[0]) by {
            assert(q.to_set().contains(other));
            let k = q.index_of(other);
            if k > 0 {
                assert(lt(q[0], q[k]));
            }
        }
        q[0]
    }

    /// The large sets of one symbol, and those of the extras, have different identifiers.
    pub proof fn large_set_ids_differ(&self, i: int, j: int)
        requires
            0 <= i < j < self.large_character_sets@.len(),
            self.large_character_sets@[i].0 == self.large_character_sets@[j].0,
        ensures
            self.large_set_id(i) != self.large_set_id(j),
    {
        let symbol = self.large_character_sets@[i].0;
        let a = self.earlier_large_sets(symbol, i as nat) + 1;
        let b = self.earlier_large_sets(symbol, j as nat) + 1;
        self.lemma_earlier_large_sets(i as nat, j as nat);
        let head = match symbol {
            Some(symbol) => uppercase(self.id(symbol)) + "_CHARACTER_SET_"@,
            None => "EXTRAS_CHARACTER_SET_"@,
        };
        assert((head + decimal(a)).skip(head.len() as int) =~= decimal(a));
        assert((head + decimal(b)).skip(head.len() as int) =~= decimal(b));
        if decimal(a) == decimal(b) {
            lemma_decimal_injective(a, b);
        }
    }

    proof fn lemma_earlier_large_sets(&self, i: nat, j: nat)
        requires
            i < j <= self.large_character_sets@.len(),
        ensures
            self.earlier_large_sets(self.large_character_sets@[i as int].0, i)
                < self.earlier_large_sets(self.large_character_sets@[i as int].0, j),
        decreases j,
    {
        if i < j - 1 {
            self.lemma_earlier_large_sets(i, (j - 1) as nat);
        }
    }

    /// The first state of a state's core is not behind it, has the same core, and is the first
    /// state of its own core.
    pub proof fn primary_state_is_first(&self, i: int)
        requires
            0 <= i < self.states().len(),
        ensures
            0 <= self.primary_state(i) <= i,
            self.states()[self.primary_state(i)].core_id == self.states()[i].core_id,
            self.primary_state(self.primary_state(i)) == self.primary_state(i),
    {
        let pred = |state: ParseState| state.core_id == self.states()[i].core_id;
        let k = some_first(self.states(), pred, i);
        lemma_first_index(self.states(), pred, k);
        let again = |state: ParseState| state.core_id == self.states()[k].core_id;
        assert(is_first(self.states(), again, k)) by {
            assert forall|j: int| 0 <= j < k implies !again(#[trigger] self.states()[j]) by {
                assert(!pred(self.states()[j]));
            }
        }
        lemma_first_index(self.states(), again, k);
    }

    /// The number of a state's set of reserved words is that of its set.
    pub proof fn reserved_word_set_is_found(&self, i: int)
        requires
            0 <= i < self.states().len(),
        ensures
            0 <= self.reserved_word_set_id(i) < self.reserved_word_sets().len(),
            self.reserved_word_sets()[self.reserved_word_set_id(i)]
                == self.states()[i].reserved_words@,
    {
        let sets = self.reserved_word_sets();
        let pred = |set: Seq<Symbol>| set == self.states()[i].reserved_words@;
        self.lemma_reserved_word_set(self.states().len(), i);
        let place = sets.index_of(self.states()[i].reserved_words@);
        let k = some_first(sets, pred, place);
        lemma_first_index(sets, pred, k);
    }

    proof fn lemma_reserved_word_set(&self, n: nat, i: int)
        requires
            0 <= i < n,
        ensures
            self.reserved_word_sets_upto(n).contains(self.states()[i].reserved_words@),
        decreases n,
    {
        let set = self.states()[i].reserved_words@;
        let before = self.reserved_word_sets_upto((n - 1) as nat);
        let after = self.reserved_word_sets_upto(n);
        if i < n - 1 {
            self.lemma_reserved_word_set((n - 1) as nat, i);
            assert(after[before.index_of(set)] == set);
        } else if !before.contains(set) {
            assert(after[before.len() as int] == set);
        }
    }

    /// The first two states are stored in full, and the states that are stored in full come
    /// before all others.
    pub proof fn large_states_come_first(&self)
        ensures
            0 <= self.large_state_count() <= self.states().len(),
            self.states().len() >= 2 ==> self.large_state_count() >= 2,
            self.states().len() < 2 ==> self.large_state_count() == self.states().len(),
            forall|i: int|
                2 <= i < self.large_state_count() ==> self.states()[i].terminal_entries@.len()
                    + (#[trigger] self.states()[i]).nonterminal_entries@.len()
                    > self.small_state_threshold(),
    {
        let n = self.some_large_state_count(0);
        assert(self.is_large_state_count(n));
        let count = self.large_state_count();
        assert(self.is_large_state_count(count));
        if count < self.states().len() {
            assert(!self.is_large_state(count));
        }
        assert forall|i: int| 2 <= i < count implies self.states()[i].terminal_entries@.len() + (
        #[trigger] self.states()[i]).nonterminal_entries@.len()
            > self.small_state_threshold() by {
            assert(self.is_large_state(i));
        }
    }

    pub proof fn some_large_state_count(&self, m: int) -> (n: int)
        requires
            0 <= m <= self.states().len(),
            forall|i: int| 0 <= i < m ==> #[trigger] self.is_large_state(i),
        ensures
            self.is_large_state_count(n),
        decreases self.states().len() - m,
    {
        if m < self.states().len() && self.is_large_state(m) {
            self.some_large_state_count(m + 1)
        } else {
            m
        }
    }

    /// The rows of state `i` in the parse table, with their values.
    pub open spec fn table_value_rows(&self, i: int) -> Seq<ValueRow> {
        seq![
            ValueRow { comment: "// State "@ + decimal(i as nat), values: Seq::<u32>::empty() },
        ] + Seq::new(
            self.symbols().len(),
            |j: int|
                ValueRow {
                    comment: "/* ["@ + decimal(i as nat) + "]["@ + decimal(j as nat) + "] */ "@,
                    values: seq![self.table_value(i, j) as u32],
                },
        )
    }

    /// The rows of the first `n` states in the parse table, with their values.
    pub open spec fn table_value_rows_upto(&self, n: nat) -> Seq<ValueRow>
        decreases n,
    {
        if n == 0 {
            Seq::empty()
        } else {
            self.table_value_rows_upto((n - 1) as nat) + self.table_value_rows(n - 1)
        }
    }

    /// The lines of the parse table list the values of its rows.
    pub proof fn table_lists_values(&self, n: nat)
        ensures
            self.table_lines_upto(n) == self.table_value_rows_upto(n).map_values(
                |row: ValueRow| row.text(),
            ),
        decreases n,
    {
        let text = |row: ValueRow| row.text();
        if n == 0 {
            assert(self.table_lines_upto(n) =~= self.table_value_rows_upto(n).map_values(text));
        } else {
            let rows = self.table_value_rows(n - 1);
            let lines = self.table_row_lines(n - 1);
            self.table_lists_values((n - 1) as nat);
            assert forall|x: int| 0 <= x < rows.len() implies #[trigger] rows[x].text()
                == lines[x] by {
                if x == 0 {
                    assert(rows[0].text() =~= lines[0]);
                } else {
                    let value = self.table_value(n - 1, x - 1);
                    assert(rows[x].values =~= seq![value as u32]);
                    assert(rows[x].text() =~= lines[x]);
                }
            }
            assert(self.table_lines_upto(n) =~= self.table_value_rows_upto(n).map_values(text));
        }
    }

    /// The values of the parse table are flattened: the value of state `i` for the symbol with
    /// number `j` is found by these two numbers. There are as many values as declared.
    pub proof fn table_is_flat(&self, n: nat, i: int, j: int)
        requires
            0 <= i < n,
            0 <= j < self.symbols().len(),
        ensures
            ({
                let values = values_of(self.table_value_rows_upto(n));
                let width = self.symbols().len();
                &&& values.len() == n * width
                &&& i * width + j < values.len()
                &&& values[i * width + j] == self.table_value(i, j)
            }),
    {
        let flat = |m: nat| values_of(self.table_value_rows_upto(m));
        let block = |m: int|
            Seq::new(self.symbols().len(), |j: int| self.table_value(m, j) as u32);
        assert forall|m: nat| 0 < m <= n implies #[trigger] is_next(flat, block, m) by {
            lemma_values_of_concat(
                self.table_value_rows_upto((m - 1) as nat),
                self.table_value_rows(m - 1),
            );
            self.lemma_row_values(m - 1, self.symbols().len());
            assert(self.table_value_rows(m - 1).take(self.symbols().len() as int + 1)
                =~= self.table_value_rows(m - 1));
        }
        lemma_flat(flat, block, self.symbols().len(), n, i, j);
    }

    /// The values of the first `n` rows of a state behind the row that names it.
    proof fn lemma_row_values(&self, i: int, n: nat)
        requires
            n <= self.symbols().len(),
        ensures
            values_of(self.table_value_rows(i).take(n as int + 1)) == Seq::new(
                n,
                |j: int| self.table_value(i, j) as u32,
            ),
        decreases n,
    {
        let rows = self.table_value_rows(i).take(n as int + 1);
        let shorter = self.table_value_rows(i).take(n as int);
        assert(rows.drop_last() =~= shorter);
        if n == 0 {
            assert(values_of(shorter) =~= Seq::<u32>::empty());
            assert(rows.last().values =~= Seq::<u32>::empty());
            assert(values_of(rows) =~= Seq::new(n, |j: int| self.table_value(i, j) as u32));
        } else {
            self.lemma_row_values(i, (n - 1) as nat);
            assert(rows.last() == self.table_value_rows(i)[n as int]);
            assert(rows.last().values =~= seq![self.table_value(i, n - 1) as u32]);
            assert(values_of(rows) =~= Seq::new(n, |j: int| self.table_value(i, j) as u32));
        }
    }

    /// The rows of aliases are flattened, and as many as declared.
    pub proof fn alias_sequences_are_flat(&self, n: nat, i: int, j: int)
        requires
            0 <= i < n,
            0 <= j < self.parse_table.max_aliased_production_length,
        ensures
            self.alias_rows(n).len() == n * self.parse_table.max_aliased_production_length,
            i * self.parse_table.max_aliased_production_length + j < self.alias_rows(n).len(),
            self.alias_rows(n)[i * self.parse_table.max_aliased_production_length + j]
                == self.alias_row(i, j),
    {
        let width = self.parse_table.max_aliased_production_length as nat;
        let flat = |m: nat| self.alias_rows(m);
        let block = |m: int| Seq::new(width, |j: int| self.alias_row(m, j));
        assert forall|m: nat| 0 < m <= n implies #[trigger] is_next(flat, block, m) by {}
        lemma_flat(flat, block, width, n, i, j);
    }

    /// The rows of reserved words are flattened, and as many as declared.
    pub proof fn reserved_words_are_flat(&self, n: nat, i: int, k: int)
        requires
            0 <= i < n,
            0 <= k < self.max_reserved_words(),
        ensures
            self.reserved_word_rows(n).len() == n * self.max_reserved_words(),
            i * self.max_reserved_words() + k < self.reserved_word_rows(n).len(),
            self.reserved_word_rows(n)[i * self.max_reserved_words() + k]
                == self.reserved_word_set_rows(i)[k],
    {
        let flat = |m: nat| self.reserved_word_rows(m);
        let block = |m: int| self.reserved_word_set_rows(m);
        assert forall|m: nat| 0 < m <= n implies #[trigger] is_next(flat, block, m) by {}
        lemma_flat(flat, block, self.max_reserved_words(), n, i, k);
    }

    /// The rows of external states are flattened, and as many as declared.
    pub proof fn external_states_are_flat(&self, n: nat, i: int, j: int)
        requires
            0 <= i < n,
            0 <= j < self.syntax_grammar.external_tokens@.len(),
        ensures
            self.external_state_rows(n).len() == n * self.syntax_grammar.external_tokens@.len(),
            i * self.syntax_grammar.external_tokens@.len() + j < self.external_state_rows(n).len(),
            self.external_state_rows(n)[i * self.syntax_grammar.external_tokens@.len() + j]
                == self.external_state_row(i, j),
    {
        let width = self.syntax_grammar.external_tokens@.len();
        let flat = |m: nat| self.external_state_rows(m);
        let block = |m: int| Seq::new(width, |j: int| self.external_state_row(m, j));
        assert forall|m: nat| 0 < m <= n implies #[trigger] is_next(flat, block, m) by {}
        lemma_flat(flat, block, width, n, i, j);
    }

    /// The aliases of non-terminals are declared to be as many values as are listed, and the
    /// values for a non-terminal are found behind those for the earlier ones.
    pub proof fn alias_map_is_counted(&self, n: nat, i: int)
        requires
            n <= self.aliased_symbols().len(),
        ensures
            self.alias_map_values(n).len() == self.alias_map_len(n),
            0 <= i < n ==> {
                let start = self.alias_map_len(i as nat) as int;
                let values = self.aliased_symbol_values(self.aliased_symbols()[i]);
                &&& start + values.len() <= self.alias_map_len(n)
                &&& self.alias_map_values(n).subrange(start, start + values.len()) == values
            },
        decreases n,
    {
        if n > 0 {
            let before = self.alias_map_values((n - 1) as nat);
            let after = self.alias_map_values(n);
            self.alias_map_is_counted((n - 1) as nat, i);
            if 0 <= i < n {
                let start = self.alias_map_len(i as nat) as int;
                let values = self.aliased_symbol_values(self.aliased_symbols()[i]);
                let end = start + values.len();
                if i < n - 1 {
                    assert(after.subrange(start, end) =~= before.subrange(start, end));
                } else {
                    assert(after.subrange(start, end) =~= values);
                }
            }
        }
    }

    /// The fields of a production are found where its slice says, among as many rows as declared.
    pub proof fn field_slice_is_found(&self, i: int)
        requires
            0 <= i < self.infos().len(),
        ensures
            ({
                let maps = self.field_maps(self.infos().len());
                let map = flat_field_map(self.infos()[i]);
                let start = self.field_map_id(map) as int;
                &&& field_entry_rows(maps).len() == field_map_offset(maps, maps.len() as int)
                &&& start + map.len() <= field_entry_rows(maps).len()
                &&& field_entry_rows(maps).subrange(start, start + map.len()) == map.map_values(
                    |entry: (Seq<char>, FieldLocation)| field_entry_row(entry),
                )
            }),
    {
        let maps = self.field_maps(self.infos().len());
        let map = flat_field_map(self.infos()[i]);
        self.lemma_field_maps(self.infos().len(), i);
        let k = maps.index_of(map);
        assert(maps[k] == map);
        lemma_field_rows(maps, maps.len() as int, k);
        assert(maps.take(maps.len() as int) =~= maps);
    }

    /// A rendered parser exports its language, under its name.
    pub proof fn parser_exports_language(&self, name: Seq<char>)
        ensures
            self.parser_lines(name).contains("pub fn language() -> &'static Language {"@),
            self.parser_lines(name).contains(line(2, "name: \""@ + name + "\","@)),
    {
        let function = "pub fn language() -> &'static Language {"@;
        let name_field = "name: \""@ + name + "\","@;
        self.lemma_export(name);
        lemma_contains_behind(
            self.lex_mode_lines() + (if self.has_reserved_words() {
                self.reserved_word_lines()
            } else {
                Seq::empty()
            }) + self.parse_table_lines() + (if self.syntax_grammar.external_tokens@.len() > 0 {
                self.external_constant_lines() + self.external_symbol_lines()
                    + self.external_state_lines()
            } else {
                Seq::empty()
            }),
            self.export_lines(name),
        );
        lemma_contains_behind(
            self.lines_before_lexers() + self.lexer_lines(),
            self.lines_after_lexers(name),
        );
        assert(self.lines_after_lexers(name).contains(function));
        assert(self.lines_after_lexers(name).contains(line(2, name_field)));
    }

    /// The export has the function and the name.
    proof fn lemma_export(&self, name: Seq<char>)
        ensures
            self.export_lines(name).contains("pub fn language() -> &'static Language {"@),
            self.export_lines(name).contains(line(2, "name: \""@ + name + "\","@)),
    {
        let export = self.export_lines(name);
        let fields = self.language_fields(name);
        self.lemma_name_field(name);
        let place = fields.index_of("name: \""@ + name + "\","@);
        assert(export[1] == "pub fn language() -> &'static Language {"@);
        assert(export[3 + place] == line(2, fields[place]));
    }

    /// The fields of the language have the name.
    proof fn lemma_name_field(&self, name: Seq<char>)
        ensures
            self.language_fields(name).contains("name: \""@ + name + "\","@),
    {
        let others = self.other_fields(name);
        assert(others[1] == "name: \""@ + name + "\","@);
        lemma_contains_behind(
            crate::render_rust::export::count_fields() + self.table_fields() + self.symbol_fields()
                + self.lex_fields(),
            others,
        );
        assert(others.contains("name: \""@ + name + "\","@));
    }

    /// A rendered parser declares how much there is of everything.
    pub proof fn parser_declares_its_counts(&self, name: Seq<char>, k: int)
        requires
            0 <= k < self.stats_lines().len(),
        ensures
            self.parser_lines(name).contains(self.stats_lines()[k]),
    {
        let all = self.parser_lines(name);
        let head = crate::render_rust::symbols::header_lines().len()
            + crate::render_rust::symbols::import_lines().len();
        assert(self.lines_before_lexers()[head + k] == self.stats_lines()[k]);
        assert(all[head + k] == self.stats_lines()[k]);
    }
}

/// The list of `m` blocks is that of the blocks before the last, and then the last.
spec fn is_next<T>(flat: spec_fn(nat) -> Seq<T>, block: spec_fn(int) -> Seq<T>, m: nat) -> bool {
    flat(m) == flat((m - 1) as nat) + block(m - 1)
}

/// In a list of blocks of one width, an element is found by the number of its block and its place
/// in the block.
proof fn lemma_flat<T>(
    flat: spec_fn(nat) -> Seq<T>,
    block: spec_fn(int) -> Seq<T>,
    width: nat,
    n: nat,
    i: int,
    j: int,
)
    requires
        flat(0) == Seq::<T>::empty(),
        forall|m: nat| 0 < m <= n ==> #[trigger] is_next(flat, block, m),
        forall|m: int| 0 <= m < n ==> (#[trigger] block(m)).len() == width,
    ensures
        flat(n).len() == n * width,
        0 <= i < n && 0 <= j < width ==> {
            &&& i * width + j < flat(n).len()
            &&& flat(n)[i * width + j] == block(i)[j]
        },
    decreases n,
{
    if n == 0 {
        assert(n * width == 0) by (nonlinear_arith)
            requires
                n == 0,
        ;
    } else {
        lemma_flat(flat, block, width, (n - 1) as nat, i, j);
        assert(is_next(flat, block, n));
        assert(block(n - 1).len() == width);
        assert(n * width == (n - 1) * width + width) by (nonlinear_arith);
        if 0 <= i < n && 0 <= j < width {
            assert(0 <= i * width) by (nonlinear_arith)
                requires
                    0 <= i,
            ;
        }
    }
}

/// What stands in a list stands in it behind another list.
proof fn lemma_contains_behind<T>(a: Seq<T>, b: Seq<T>)
    ensures
        forall|x: T| #[trigger] b.contains(x) ==> (a + b).contains(x),
{
    assert forall|x: T| #[trigger] b.contains(x) implies (a + b).contains(x) by {
        let k = b.index_of(x);
        assert((a + b)[a.len() + k] == x);
    }
}

/// If the element at `i` meets a condition, some first one does.
pub proof fn some_first<T>(q: Seq<T>, pred: spec_fn(T) -> bool, i: int) -> (k: int)
    requires
        0 <= i < q.len(),
        pred(q[i]),
    ensures
        is_first(q, pred, k),
        k <= i,
    decreases i,
{
    if exists|j: int| 0 <= j < i && pred(#[trigger] q[j]) {
        let j = choose|j: int| 0 <= j < i && pred(#[trigger] q[j]);
        some_first(q, pred, j)
    } else {
        i
    }
}

/// The rows of the first `n` maps are as many as they have places, and those of map `k` are found
/// where its places begin.
proof fn lemma_field_rows(maps: Seq<FieldMap>, n: int, k: int)
    requires
        0 <= n <= maps.len(),
    ensures
        field_entry_rows(maps.take(n)).len() == field_map_offset(maps, n),
        0 <= k < n ==> {
            let start = field_map_offset(maps, k) as int;
            &&& start + maps[k].len() <= field_entry_rows(maps.take(n)).len()
            &&& field_entry_rows(maps.take(n)).subrange(start, start + maps[k].len())
                == maps[k].map_values(|entry: (Seq<char>, FieldLocation)| field_entry_row(entry))
        },
    decreases n,
{
    if n > 0 {
        lemma_field_rows(maps, n - 1, k);
        assert(maps.take(n).drop_last() =~= maps.take(n - 1));
        let before = field_entry_rows(maps.take(n - 1));
        let after = field_entry_rows(maps.take(n));
        let start = field_map_offset(maps, k) as int;
        let rows = maps[k].map_values(
            |entry: (Seq<char>, FieldLocation)| field_entry_row(entry),
        );
        if k == n - 1 {
            assert(after.subrange(start, start + maps[k].len()) =~= rows);
        } else if 0 <= k < n - 1 {
            assert(after.subrange(start, start + maps[k].len()) =~= before.subrange(
                start,
                start + maps[k].len(),
            ));
        }
    }
}

} // verus!
