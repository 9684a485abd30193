//! Where the entries of every parse state stand in a rendered parser.
use vstd::prelude::*;

use crate::render_rust::action_laws::decoded_actions;
use crate::render_rust::actions::{values_text, ValueRow};
use crate::render_rust::input::ParserInput;
use crate::render_rust::parse_table::low16;
use crate::render_rust::table_laws::looked_up;
use crate::rules::Symbol;
use crate::tables::{EntryView, GotoAction, ParseAction};
use crate::text::{array_lines, decimal, signed_decimal};
use crate::text_laws::{has_array, has_block, lemma_array, lemma_peel};

verus! {

impl ParserInput {
    /// No entry of state `i` for a token is for the non-terminal of its entry `t`.
    pub open spec fn is_only_nonterminal(&self, i: int, t: int) -> bool {
        forall|u: int|
            0 <= u < self.parse_table.states@[i].terminal_entries@.len() ==> (
            #[trigger] self.parse_table.states@[i].terminal_entries@[u]).0
                != self.parse_table.states@[i].nonterminal_entries@[t].0
    }

    /// For a non-terminal from which a state goes to another, the table has the number of that
    /// other state; where the state is to be stayed in, it has the number of the state itself.
    pub proof fn goto_entries_are_tabled(&self, i: int, t: int)
        requires
            self.is_consistent(),
            0 <= i < self.parse_table.states@.len(),
            0 <= t < self.parse_table.states@[i].nonterminal_entries@.len(),
            self.symbol_numbers().contains_key(
                self.parse_table.states@[i].nonterminal_entries@[t].0,
            ),
            self.is_only_nonterminal(i, t),
        ensures
            ({
                let (symbol, action) = self.parse_table.states@[i].nonterminal_entries@[t];
                let number = self.symbol_numbers()[symbol] as int;
                &&& number < self.parse_table.symbols@.len()
                &&& match action {
                    GotoAction::Goto(s) => s <= 65535 ==> self.table_value(i, number) == s,
                    GotoAction::ShiftExtra => i <= 65535 ==> self.table_value(i, number) == i,
                }
            }),
    {
        let (symbol, action) = self.states()[i].nonterminal_entries@[t];
        let number = self.symbol_numbers()[symbol] as int;
        assert forall|u: int|
            0 <= u < self.states()[i].terminal_entries@.len() implies (
        #[trigger] self.states()[i].terminal_entries@[u]).0
            != self.states()[i].nonterminal_entries@[t].0 by {
            assert(self.parse_table.states@[i].terminal_entries@[u].0
                != self.parse_table.states@[i].nonterminal_entries@[t].0);
        }
        match action {
            GotoAction::Goto(s) => {
                if s <= 65535 {
                    assert(self.goto_state(i, action) == s);
                    self.table_gives_states(i, t);
                } else {
                    self.symbol_numbers_differ(self.symbols().len());
                }
            },
            GotoAction::ShiftExtra => {
                if i <= 65535 {
                    assert(self.goto_state(i, action) == i);
                    self.table_gives_states(i, t);
                } else {
                    self.symbol_numbers_differ(self.symbols().len());
                }
            },
        }
    }

    /// For a token with an entry, the table has the place at which the actions of the entry are read
    /// among the parse actions: how many there are, whether they can be reused, and each of them.
    pub proof fn token_entries_are_tabled(&self, i: int, t: int)
        requires
            self.is_consistent(),
            self.entry_slots() < u16::MAX,
            0 <= i < self.parse_table.states@.len(),
            0 <= t < self.parse_table.states@[i].terminal_entries@.len(),
            self.symbol_numbers().contains_key(
                self.parse_table.states@[i].terminal_entries@[t].0,
            ),
            self.all_fit(self.parse_table.states@[i].terminal_entries@[t].1.actions@),
        ensures
            ({
                let (symbol, entry) = self.parse_table.states@[i].terminal_entries@[t];
                let values = self.action_values();
                let place = self.table_value(i, self.symbol_numbers()[symbol] as int) as int;
                &&& place < values.len()
                &&& values[place] & 0xffffu32 == entry.actions@.len()
                &&& (values[place] & 0x1_0000u32 != 0) == entry.reusable
                &&& decoded_actions(values.skip(place + 1), entry.actions@.len())
                    == entry.actions@.map_values(
                    |action: ParseAction| self.run_time_action(action),
                )
            }),
    {
        let (symbol, entry) = self.states()[i].terminal_entries@[t];
        self.table_gives_actions(i, t);
        self.lemma_entry_list(self.states().len());
        assert(self.entry_list().contains(self.states()[i].terminal_entries@[t].1@));
        self.parse_actions_are_counted();
        self.lemma_few_actions(entry@);
        self.entry_can_be_read(entry@);
    }

    /// A list of actions has no more actions than values.
    proof fn lemma_few_actions(&self, entry: EntryView)
        requires
            self.entry_list().contains(entry),
        ensures
            entry.actions.len() <= self.entry_slots(),
    {
        self.entry_ids_fit(entry);
        self.lemma_action_count(entry.actions);
    }

    proof fn lemma_action_count(&self, actions: Seq<ParseAction>)
        ensures
            actions.len() <= self.encoded_actions(actions).len(),
        decreases actions.len(),
    {
        if actions.len() > 0 {
            self.lemma_action_count(actions.drop_last());
        }
    }

    /// For a symbol without an entry, the table has 0.
    pub proof fn other_symbols_have_no_entry(&self, i: int, number: int)
        requires
            forall|t: int|
                0 <= t < self.parse_table.states@[i].terminal_entries@.len() ==> !self.is_numbered(
                    (#[trigger] self.parse_table.states@[i].terminal_entries@[t]).0,
                    number,
                ),
            forall|t: int|
                0 <= t < self.parse_table.states@[i].nonterminal_entries@.len()
                    ==> !self.is_numbered(
                    (#[trigger] self.parse_table.states@[i].nonterminal_entries@[t]).0,
                    number,
                ),
        ensures
            self.table_value(i, number) == 0,
    {
        assert forall|t: int| !self.is_terminal_numbered(i, t, number) by {
            if self.is_terminal_numbered(i, t, number) {
                assert(self.is_numbered(
                    self.parse_table.states@[i].terminal_entries@[t].0,
                    number,
                ));
            }
        }
        assert forall|t: int| !self.is_nonterminal_numbered(i, t, number) by {
            if self.is_nonterminal_numbered(i, t, number) {
                assert(self.is_numbered(
                    self.parse_table.states@[i].nonterminal_entries@[t].0,
                    number,
                ));
            }
        }
    }

    /// The symbol has the number.
    pub open spec fn is_numbered(&self, symbol: Symbol, number: int) -> bool {
        self.symbol_numbers().contains_key(symbol) && self.symbol_numbers()[symbol] == number
    }

    /// The first states have a row for each symbol in the rendered table.
    pub proof fn full_table_is_rendered(&self, name: Seq<char>, i: int, j: int)
        requires
            0 <= i < self.large_state_count(),
            0 <= j < self.parse_table.symbols@.len(),
        ensures
            ({
                let count = self.large_state_count() as nat;
                let width = self.parse_table.symbols@.len();
                let rows = self.table_value_rows_upto(count).map_values(
                    |row: ValueRow| row.text(),
                );
                let at = i * (width + 1) + 1 + j;
                &&& has_array(
                    self.parser_lines(name),
                    "static TS_PARSE_TABLE: [u16; "@ + decimal(count * width) + "] = ["@,
                    rows,
                )
                &&& 0 <= at < rows.len()
                &&& rows[at] == "/* ["@ + decimal(i as nat) + "]["@ + decimal(j as nat) + "] */ "@
                    + decimal(self.table_value(i, j) as nat) + ","@
            }),
    {
        let count = self.large_state_count() as nat;
        let width = self.parse_table.symbols@.len();
        let rows = self.table_value_rows_upto(count).map_values(|row: ValueRow| row.text());
        let head = "static TS_PARSE_TABLE: [u16; "@ + decimal(count * width) + "] = ["@;
        let all = self.parser_lines(name);
        self.sections_are_rendered(name);
        self.table_lists_values(count);
        assert(count * width > 0) by (nonlinear_arith)
            requires
                count > 0,
                width > 0,
        ;
        self.lemma_table_parts(all);
        lemma_array(all, head, rows);
        self.lemma_table_line(count, i, j);
    }

    proof fn lemma_table_parts(&self, all: Seq<Seq<char>>)
        requires
            has_block(all, self.parse_table_lines()),
        ensures
            has_block(all, self.large_table_lines()),
            has_block(all, self.small_table_lines()),
            has_block(all, self.parse_action_lines()),
    {
        lemma_peel(
            all,
            self.large_table_lines() + self.small_table_lines(),
            self.parse_action_lines(),
        );
        lemma_peel(all, self.large_table_lines(), self.small_table_lines());
    }

    proof fn lemma_table_line(&self, n: nat, i: int, j: int)
        requires
            0 <= i < n,
            0 <= j < self.symbols().len(),
        ensures
            ({
                let lines = self.table_lines_upto(n);
                let at = i * (self.symbols().len() + 1) + 1 + j;
                &&& lines.len() == n * (self.symbols().len() + 1)
                &&& 0 <= at < lines.len()
                &&& lines[at] == "/* ["@ + decimal(i as nat) + "]["@ + decimal(j as nat) + "] */ "@
                    + decimal(self.table_value(i, j) as nat) + ","@
            }),
        decreases n,
    {
        let width = self.symbols().len() + 1;
        assert(n * width == (n - 1) * width + width) by (nonlinear_arith);
        assert(0 <= i * width) by (nonlinear_arith)
            requires
                0 <= i,
        ;
        if n > 1 {
            self.lemma_table_line((n - 1) as nat, if i < n - 1 { i } else { 0 }, j);
        } else {
            assert(self.table_lines_upto(0).len() == 0);
            assert((n - 1) * width == 0) by (nonlinear_arith)
                requires
                    n == 1,
            ;
        }
        if i == n - 1 {
            let row = self.table_row_lines(n - 1);
            assert(row[1 + j] == "/* ["@ + decimal(i as nat) + "]["@ + decimal(j as nat) + "] */ "@
                + decimal(self.table_value(i, j) as nat) + ","@);
        }
    }

    /// A state in compact form says, for a non-terminal from which it goes to another state, the
    /// number of that state, and for one on which it is stayed in, its own number.
    pub proof fn compact_goto_entries_are_tabled(&self, k: nat, t: int)
        requires
            self.is_consistent(),
            k < self.small_state_count(),
            self.parse_table.symbols@.len() <= 0x1_0000,
            self.parse_table.states@.len() <= 0x1_0000,
            self.state_items(self.large_state_count() + k).len() < 0x1_0000,
            self.has_numbered_entries(self.large_state_count() + k),
            self.has_separate_entries(self.large_state_count() + k),
            0 <= t < self.parse_table.states@[self.large_state_count()
                + k].nonterminal_entries@.len(),
        ensures
            ({
                let i = self.large_state_count() + k;
                let place = self.small_table_upto(k).len() as int;
                let (symbol, action) = self.parse_table.states@[i].nonterminal_entries@[t];
                let found = looked_up(
                    self.small_table(),
                    place + 1,
                    self.small_table()[place] as nat,
                    low16(self.symbol_numbers()[symbol] as int),
                );
                match action {
                    GotoAction::Goto(s) => s <= 65535 ==> found == s,
                    GotoAction::ShiftExtra => found == i,
                }
            }),
    {
        let i = self.large_state_count() + k;
        let items = self.state_items(i);
        let state = self.states()[i];
        let n = state.terminal_entries@.len();
        let (symbol, action) = state.nonterminal_entries@[t];
        self.large_states_come_first();
        assert(items[n + t].0 == symbol);
        assert(self.symbol_numbers().contains_key(symbol));
        assert(self.is_only_nonterminal(i, t)) by {
            assert forall|u: int|
                0 <= u < self.parse_table.states@[i].terminal_entries@.len() implies (
            #[trigger] self.parse_table.states@[i].terminal_entries@[u]).0
                != self.parse_table.states@[i].nonterminal_entries@[t].0 by {
                assert(self.states()[i].terminal_entries@[u].0
                    != self.states()[i].nonterminal_entries@[t].0);
            }
        }
        self.goto_entries_are_tabled(i, t);
        self.compact_state_can_be_looked_up(k, self.symbol_numbers()[symbol] as int);
    }

    /// The states in compact form are rendered value by value, with where each of them begins.
    pub proof fn compact_table_is_rendered(&self, name: Seq<char>, x: int, k: int)
        requires
            self.small_state_count() > 0,
            0 <= x < self.small_table().len(),
            0 <= k < self.small_state_count(),
        ensures
            ({
                let rows = self.small_rows();
                let map_rows = self.small_map_rows();
                &&& has_array(
                    self.parser_lines(name),
                    "static TS_SMALL_PARSE_TABLE: [u16; "@ + decimal(self.small_table().len())
                        + "] = ["@,
                    rows,
                )
                &&& rows.len() == self.small_table().len()
                &&& rows[x] == "/* "@ + decimal(x as nat) + " */ "@ + decimal(
                    self.small_table()[x] as nat,
                ) + ","@
                &&& has_array(
                    self.parser_lines(name),
                    "static TS_SMALL_PARSE_TABLE_MAP: [u32; "@ + decimal(self.small_state_count())
                        + "] = ["@,
                    map_rows,
                )
                &&& map_rows.len() == self.parse_table.states@.len() - self.large_state_count()
                &&& map_rows[k] == "/* "@ + decimal((k + self.large_state_count()) as nat) + " */ "@
                    + decimal(self.small_table_upto(k as nat).len()) + ","@
            }),
    {
        let all = self.parser_lines(name);
        let head = "static TS_SMALL_PARSE_TABLE: [u16; "@ + decimal(self.small_table().len())
            + "] = ["@;
        let map_head = "static TS_SMALL_PARSE_TABLE_MAP: [u32; "@ + decimal(
            self.small_state_count(),
        ) + "] = ["@;
        self.sections_are_rendered(name);
        self.large_states_come_first();
        self.lemma_table_parts(all);
        lemma_peel(
            all,
            array_lines(head, self.small_rows()),
            array_lines(map_head, self.small_map_rows()),
        );
        lemma_array(all, head, self.small_rows());
        lemma_array(all, map_head, self.small_map_rows());
    }

    /// The rows of the states in compact form.
    pub open spec fn small_rows(&self) -> Seq<Seq<char>> {
        Seq::new(
            self.small_table().len(),
            |i: int|
                "/* "@ + decimal(i as nat) + " */ "@ + decimal(self.small_table()[i] as nat) + ","@,
        )
    }

    /// The rows of where the states in compact form begin.
    pub open spec fn small_map_rows(&self) -> Seq<Seq<char>> {
        Seq::new(
            self.small_state_count(),
            |i: int|
                "/* "@ + decimal((i + self.large_state_count()) as nat) + " */ "@ + decimal(
                    self.small_table_upto(i as nat).len(),
                ) + ","@,
        )
    }

    /// The first states are stored in full: the first two, and then as many as have more entries
    /// than half of the symbols, or than 64. The state behind them has no more.
    pub proof fn states_with_many_entries_are_stored_in_full(&self, i: int)
        requires
            0 <= i < self.parse_table.states@.len(),
        ensures
            ({
                let state = self.parse_table.states@[i];
                let entries = state.terminal_entries@.len() + state.nonterminal_entries@.len();
                let half = self.parse_table.symbols@.len() / 2;
                &&& i < 2 ==> i < self.large_state_count()
                &&& 2 <= i < self.large_state_count() ==> entries > half || entries > 64
                &&& i == self.large_state_count() ==> entries <= half && entries <= 64
            }),
    {
        self.large_states_come_first();
        let n = self.some_large_state_count(0);
        assert(self.is_large_state_count(n));
        assert(self.is_large_state_count(self.large_state_count()));
        if i == self.large_state_count() {
            assert(!self.is_large_state(i));
        } else if i < self.large_state_count() {
            assert(self.is_large_state(i));
        }
    }

    /// The parse actions are rendered row by row, and declared to be as many values as there are.
    pub proof fn parse_actions_are_rendered(&self, name: Seq<char>)
        ensures
            has_array(
                self.parser_lines(name),
                "static TS_PARSE_ACTIONS: [u32; "@ + decimal(self.action_values().len())
                    + "] = ["@,
                self.entry_rows().map_values(|row: ValueRow| row.text()),
            ),
    {
        let all = self.parser_lines(name);
        self.sections_are_rendered(name);
        self.lemma_table_parts(all);
        self.parse_actions_are_counted();
        lemma_array(
            all,
            "static TS_PARSE_ACTIONS: [u32; "@ + decimal(self.entry_slots()) + "] = ["@,
            self.entry_rows().map_values(|row: ValueRow| row.text()),
        );
    }

    /// What is said of an action, beside its values, in the rendered parser.
    pub proof fn actions_are_commented(
        &self,
        state: usize,
        symbol: Symbol,
        child_count: usize,
        dynamic_precedence: i32,
        production_id: usize,
    )
        ensures
            self.action_row(ParseAction::Accept).text() == "/* ACCEPT */ "@ + (decimal(2) + ","@),
            self.action_row(ParseAction::Recover).text() == "/* RECOVER */ "@ + (decimal(3) + ","@),
            self.action_row(ParseAction::ShiftExtra).text() == "/* SHIFT_EXTRA */ "@ + (decimal(
                0x100_0000,
            ) + ","@),
            self.action_row(ParseAction::Shift { state, is_repetition: false }).comment
                == "/* SHIFT("@ + decimal(state as nat) + ") */ "@,
            self.action_row(ParseAction::Shift { state, is_repetition: true }).comment
                == "/* SHIFT_REPEAT("@ + decimal(state as nat) + ") */ "@,
            self.action_row(
                ParseAction::Reduce { symbol, child_count, dynamic_precedence, production_id },
            ).comment == "/* REDUCE("@ + self.id(symbol) + ", "@ + decimal(child_count as nat)
                + ", "@ + signed_decimal(dynamic_precedence as int) + ", "@ + decimal(
                production_id as nat,
            ) + ") */ "@,
    {
        values_are_texts(2, 0);
        values_are_texts(3, 0);
        values_are_texts(0x100_0000, 0);
    }
}

/// Values are listed with commas behind them.
pub proof fn values_are_texts(a: u32, b: u32)
    ensures
        values_text(seq![a]) == decimal(a as nat) + ","@,
        values_text(seq![a, b]) == decimal(a as nat) + ","@ + " "@ + decimal(b as nat) + ","@,
{
    assert(seq![a, b].drop_last() =~= seq![a]);
    assert(seq![a, b].last() == b);
    reveal_with_fuel(values_text, 2);
}

} // verus!
