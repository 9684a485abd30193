//! The parse table: what a parser does in each of its states.
use vstd::prelude::*;

use crate::render_rust::entries::ActionLists;
use crate::render_rust::generator::RustGenerator;
use crate::render_rust::input::ParserInput;
use crate::rules::Symbol;
use crate::tables::{GotoAction, ParseState, ParseTableEntry};
use crate::text::{
    array_lines, concat2, concat3, concat7, count_text, decimal, decimal_text, TextList,
};

verus! {

/// The lower sixteen bits of a number in two's complement.
pub open spec fn low16(n: int) -> u16 {
    (n % 0x1_0000) as u16
}

/// The lower sixteen bits of a number.
pub fn low16_of(n: usize) -> (r: u16)
    ensures
        r == low16(n as int),
{
    (n % 0x1_0000) as u16
}

impl ParserInput {
    /// The symbol has the given number.
    pub open spec fn has_number(&self, symbol: Symbol, number: int) -> bool {
        self.symbol_numbers().contains_key(symbol) && self.symbol_numbers()[symbol] == number
    }

    /// The state to go to from state `i`.
    pub open spec fn goto_state(&self, i: int, action: GotoAction) -> int {
        match action {
            GotoAction::Goto(state) => state as int,
            GotoAction::ShiftExtra => i,
        }
    }

    /// The entry of state `i` for a token is for the symbol with the given number.
    pub open spec fn is_terminal_numbered(&self, i: int, t: int, number: int) -> bool {
        &&& 0 <= t < self.states()[i].terminal_entries@.len()
        &&& self.has_number(self.states()[i].terminal_entries@[t].0, number)
    }

    /// The entry of state `i` for a non-terminal is for the symbol with the given number.
    pub open spec fn is_nonterminal_numbered(&self, i: int, t: int, number: int) -> bool {
        &&& 0 <= t < self.states()[i].nonterminal_entries@.len()
        &&& self.has_number(self.states()[i].nonterminal_entries@[t].0, number)
    }

    /// What the table says for state `i` and the non-terminal with the given number.
    pub open spec fn nonterminal_value(&self, i: int, number: int) -> u16 {
        if exists|t: int| self.is_nonterminal_numbered(i, t, number) {
            let t = choose|t: int| self.is_nonterminal_numbered(i, t, number);
            low16(self.goto_state(i, self.states()[i].nonterminal_entries@[t].1))
        } else {
            0
        }
    }

    /// What the table says for state `i` and the symbol with the given number: the number of the
    /// list of actions for a token, the state to go to for a non-terminal, and else 0.
    pub open spec fn table_value(&self, i: int, number: int) -> u16 {
        if exists|t: int| self.is_terminal_numbered(i, t, number) {
            let t = choose|t: int| self.is_terminal_numbered(i, t, number);
            low16(self.entry_id(self.states()[i].terminal_entries@[t].1@) as int)
        } else {
            self.nonterminal_value(i, number)
        }
    }

    /// The row of state `i`: what the table says for all symbols, by their numbers.
    pub open spec fn table_row(&self, i: int) -> Seq<u16> {
        Seq::new(self.symbols().len(), |number: int| self.table_value(i, number))
    }

    /// The lines for the row of state `i`.
    pub open spec fn table_row_lines(&self, i: int) -> Seq<Seq<char>> {
        seq!["// State "@ + decimal(i as nat)] + Seq::new(
            self.symbols().len(),
            |j: int|
                "/* ["@ + decimal(i as nat) + "]["@ + decimal(j as nat) + "] */ "@ + decimal(
                    self.table_row(i)[j] as nat,
                ) + ","@,
        )
    }

    /// The lines for the rows of the first `n` states.
    pub open spec fn table_lines_upto(&self, n: nat) -> Seq<Seq<char>>
        decreases n,
    {
        if n == 0 {
            Seq::empty()
        } else {
            self.table_lines_upto((n - 1) as nat) + self.table_row_lines(n - 1)
        }
    }

    /// The part of the parse table that is stored in full.
    pub open spec fn large_table_lines(&self) -> Seq<Seq<char>> {
        let len = self.large_state_count() * self.symbols().len();
        array_lines(
            "static TS_PARSE_TABLE: [u16; "@ + decimal(
                if len == 0 {
                    1
                } else {
                    len as nat
                },
            ) + "] = ["@,
            if len == 0 {
                seq!["0,"@]
            } else {
                self.table_lines_upto(self.large_state_count() as nat)
            },
        )
    }

    /// A state has at most one entry for the token with a number.
    pub proof fn lemma_terminal_numbered(&self, i: int, t: int, number: int)
        requires
            self.is_consistent(),
            0 <= i < self.states().len(),
            self.is_terminal_numbered(i, t, number),
        ensures
            self.table_value(i, number) == low16(
                self.entry_id(self.states()[i].terminal_entries@[t].1@) as int,
            ),
    {
        let u = choose|u: int| self.is_terminal_numbered(i, u, number);
        assert(self.is_terminal_numbered(i, u, number));
        self.symbol_numbers_differ(self.symbols().len());
        assert(self.states()[i].wf());
        if u < t {
            assert(self.states()[i].terminal_entries@[u].0 != self.states()[i].terminal_entries@[t].0);
        } else if t < u {
            assert(self.states()[i].terminal_entries@[t].0 != self.states()[i].terminal_entries@[u].0);
        }
    }

    /// A state has at most one entry for the non-terminal with a number.
    pub proof fn lemma_nonterminal_numbered(&self, i: int, t: int, number: int)
        requires
            self.is_consistent(),
            0 <= i < self.states().len(),
            self.is_nonterminal_numbered(i, t, number),
        ensures
            self.nonterminal_value(i, number) == low16(
                self.goto_state(i, self.states()[i].nonterminal_entries@[t].1),
            ),
    {
        let u = choose|u: int| self.is_nonterminal_numbered(i, u, number);
        assert(self.is_nonterminal_numbered(i, u, number));
        self.symbol_numbers_differ(self.symbols().len());
        assert(self.states()[i].wf());
        if u < t {
            assert(self.states()[i].nonterminal_entries@[u].0
                != self.states()[i].nonterminal_entries@[t].0);
        } else if t < u {
            assert(self.states()[i].nonterminal_entries@[t].0
                != self.states()[i].nonterminal_entries@[u].0);
        }
    }

    /// None of the first `k` entries for non-terminals is for the symbol with the given number.
    spec fn no_nonterminal_before(&self, i: int, k: int, number: int) -> bool {
        forall|t: int| 0 <= t < k ==> !#[trigger] self.is_nonterminal_numbered(i, t, number)
    }

    /// None of the first `k` entries for tokens is for the symbol with the given number.
    spec fn no_terminal_before(&self, i: int, k: int, number: int) -> bool {
        forall|t: int| 0 <= t < k ==> !#[trigger] self.is_terminal_numbered(i, t, number)
    }
}

impl RustGenerator {
    /// The number of a symbol.
    fn symbol_number(&self, symbol: Symbol) -> (r: Option<usize>)
        requires
            self.wf(),
        ensures
            match r {
                Some(n) => self.input.has_number(symbol, n as int) && n
                    < self.input.symbols().len(),
                None => forall|n: int| !self.input.has_number(symbol, n),
            },
    {
        proof {
            self.input.symbol_numbers_differ(self.input.symbols().len());
        }
        match self.symbol_order.get(symbol) {
            Some(n) => {
                assert(self.symbol_order@.contains_key(symbol));
                assert(self.symbol_order@[symbol] == self.input.symbol_numbers()[symbol]);
                Some(*n)
            },
            None => {
                assert(!self.symbol_order@.contains_key(symbol));
                None
            },
        }
    }

    /// The number by which the tables know a symbol.
    pub fn table_number(&self, symbol: Symbol) -> (r: usize)
        requires
            self.wf(),
        ensures
            r == self.input.table_number(symbol),
    {
        match self.symbol_number(symbol) {
            Some(number) => number,
            None => {
                proof {
                    if self.input.symbol_numbers().contains_key(symbol) {
                        assert(self.input.has_number(
                            symbol,
                            self.input.symbol_numbers()[symbol] as int,
                        ));
                    }
                }
                0
            },
        }
    }

    /// The state to go to from state `i`.
    pub fn goto_state(&self, i: usize, action: GotoAction) -> (r: usize)
        ensures
            r == self.input.goto_state(i as int, action),
    {
        match action {
            GotoAction::Goto(state) => state,
            GotoAction::ShiftExtra => i,
        }
    }

    /// The number of the list of actions of an entry.
    pub fn entry_number(&self, entry: &ParseTableEntry, lists: &ActionLists) -> (r: usize)
        requires
            self.wf(),
            lists.wf(),
            lists@ == self.input.entry_list(),
            lists@.contains(entry@),
        ensures
            r == self.input.entry_id(entry@),
    {
        lists.find(entry).unwrap()
    }

    /// What the table says for state `i` and the non-terminals.
    #[verifier::rlimit(40)]
    fn nonterminal_values(&self, i: usize) -> (values: Vec<u16>)
        requires
            self.wf(),
            i < self.input.states().len(),
        ensures
            values@.len() == self.input.symbols().len(),
            forall|j: int|
                0 <= j < values@.len() ==> #[trigger] values@[j] == self.input.nonterminal_value(
                    i as int,
                    j,
                ),
    {
        let ghost input = self.input;
        let state: &ParseState = &self.input.parse_table.states[i];
        let symbol_count: usize = self.input.parse_table.symbols.len();
        let mut values: Vec<u16> = Vec::new();
        while values.len() < symbol_count
            invariant
                values@.len() <= symbol_count,
                forall|j: int| 0 <= j < values@.len() ==> #[trigger] values@[j] == 0,
            decreases symbol_count - values@.len(),
        {
            values.push(0);
        }
        let mut k: usize = 0;
        while k < state.nonterminal_entries.len()
            invariant
                self.wf(),
                input == self.input,
                i < input.states().len(),
                *state == input.states()[i as int],
                values@.len() == input.symbols().len(),
                k <= state.nonterminal_entries@.len(),
                forall|j: int|
                    0 <= j < values@.len() ==> #[trigger] values@[j] == (
                    if input.no_nonterminal_before(i as int, k as int, j) {
                        0
                    } else {
                        input.nonterminal_value(i as int, j)
                    }),
            decreases state.nonterminal_entries@.len() - k,
        {
            let (symbol, action) = state.nonterminal_entries[k];
            let ghost before = values@;
            match self.symbol_number(symbol) {
                Some(number) => {
                    let value: u16 = low16_of(self.goto_state(i, action));
                    values.set(number, value);
                    proof {
                        assert(input.is_nonterminal_numbered(i as int, k as int, number as int));
                        input.lemma_nonterminal_numbered(i as int, k as int, number as int);
                        assert(!input.no_nonterminal_before(i as int, k + 1, number as int));
                        assert forall|j: int|
                            0 <= j < values@.len() && j != number implies input.no_nonterminal_before(
                            i as int,
                            k + 1,
                            j,
                        ) == #[trigger] input.no_nonterminal_before(i as int, k as int, j) by {
                            assert(!input.is_nonterminal_numbered(i as int, k as int, j));
                        }
                    }
                },
                None => {
                    proof {
                        assert forall|j: int| #[trigger] input.no_nonterminal_before(
                            i as int,
                            k as int,
                            j,
                        ) == input.no_nonterminal_before(i as int, k + 1, j) by {
                            assert(!input.is_nonterminal_numbered(i as int, k as int, j));
                        }
                    }
                },
            }
            proof {
                assert forall|j: int| 0 <= j < values@.len() implies #[trigger] values@[j] == (
                if input.no_nonterminal_before(i as int, k + 1, j) {
                    0
                } else {
                    input.nonterminal_value(i as int, j)
                }) by {
                    assert(before[j] == (if input.no_nonterminal_before(i as int, k as int, j) {
                        0
                    } else {
                        input.nonterminal_value(i as int, j)
                    }));
                }
            }
            k += 1;
        }
        proof {
            assert forall|j: int| 0 <= j < values@.len() implies #[trigger] values@[j]
                == input.nonterminal_value(i as int, j) by {
                if input.no_nonterminal_before(i as int, k as int, j) {
                    assert forall|t: int| !input.is_nonterminal_numbered(i as int, t, j) by {}
                }
            }
        }
        values
    }

    /// The row of state `i`.
    #[verifier::rlimit(40)]
    fn table_row(&self, i: usize, lists: &ActionLists) -> (values: Vec<u16>)
        requires
            self.wf(),
            i < self.input.states().len(),
            lists.wf(),
            lists@ == self.input.entry_list(),
        ensures
            values@ == self.input.table_row(i as int),
    {
        let ghost input = self.input;
        let state: &ParseState = &self.input.parse_table.states[i];
        let mut values: Vec<u16> = self.nonterminal_values(i);
        proof {
            input.lemma_entry_list(input.states().len());
        }
        let mut k: usize = 0;
        while k < state.terminal_entries.len()
            invariant
                self.wf(),
                input == self.input,
                i < input.states().len(),
                *state == input.states()[i as int],
                lists.wf(),
                lists@ == input.entry_list(),
                forall|t: int|
                    0 <= t < state.terminal_entries@.len() ==> lists@.contains(
                        (#[trigger] state.terminal_entries@[t]).1@,
                    ),
                values@.len() == input.symbols().len(),
                k <= state.terminal_entries@.len(),
                forall|j: int|
                    0 <= j < values@.len() ==> #[trigger] values@[j] == (
                    if input.no_terminal_before(i as int, k as int, j) {
                        input.nonterminal_value(i as int, j)
                    } else {
                        input.table_value(i as int, j)
                    }),
            decreases state.terminal_entries@.len() - k,
        {
            let symbol: Symbol = state.terminal_entries[k].0;
            let entry: &ParseTableEntry = &state.terminal_entries[k].1;
            let ghost before = values@;
            assert(lists@.contains(state.terminal_entries@[k as int].1@));
            match self.symbol_number(symbol) {
                Some(number) => {
                    let value: u16 = low16_of(self.entry_number(entry, lists));
                    values.set(number, value);
                    proof {
                        assert(input.is_terminal_numbered(i as int, k as int, number as int));
                        input.lemma_terminal_numbered(i as int, k as int, number as int);
                        assert(!input.no_terminal_before(i as int, k + 1, number as int));
                        assert forall|j: int|
                            0 <= j < values@.len() && j != number implies input.no_terminal_before(
                            i as int,
                            k + 1,
                            j,
                        ) == #[trigger] input.no_terminal_before(i as int, k as int, j) by {
                            assert(!input.is_terminal_numbered(i as int, k as int, j));
                        }
                    }
                },
                None => {
                    proof {
                        assert forall|j: int| #[trigger] input.no_terminal_before(
                            i as int,
                            k as int,
                            j,
                        ) == input.no_terminal_before(i as int, k + 1, j) by {
                            assert(!input.is_terminal_numbered(i as int, k as int, j));
                        }
                    }
                },
            }
            proof {
                assert forall|j: int| 0 <= j < values@.len() implies #[trigger] values@[j] == (
                if input.no_terminal_before(i as int, k + 1, j) {
                    input.nonterminal_value(i as int, j)
                } else {
                    input.table_value(i as int, j)
                }) by {
                    assert(before[j] == (if input.no_terminal_before(i as int, k as int, j) {
                        input.nonterminal_value(i as int, j)
                    } else {
                        input.table_value(i as int, j)
                    }));
                }
            }
            k += 1;
        }
        proof {
            assert forall|j: int| 0 <= j < values@.len() implies #[trigger] values@[j]
                == input.table_value(i as int, j) by {
                if input.no_terminal_before(i as int, k as int, j) {
                    assert forall|t: int| !input.is_terminal_numbered(i as int, t, j) by {}
                }
            }
            assert(values@ =~= input.table_row(i as int));
        }
        values
    }

    /// Adds the part of the parse table that is stored in full.
    #[verifier::rlimit(40)]
    pub fn add_large_table(&self, lists: &ActionLists, out: &mut TextList)
        requires
            self.wf(),
            lists.wf(),
            lists@ == self.input.entry_list(),
        ensures
            final(out)@ == old(out)@ + self.input.large_table_lines(),
    {
        let ghost input = self.input;
        let ghost symbol_count = input.symbols().len();
        let mut rows: TextList = TextList::new();
        let mut len: usize = 0;
        let mut i: usize = 0;
        while i < self.large_state_count
            invariant
                self.wf(),
                input == self.input,
                symbol_count == input.symbols().len(),
                lists.wf(),
                lists@ == input.entry_list(),
                i <= self.large_state_count,
                rows@ == input.table_lines_upto(i as nat),
                len == i * symbol_count,
                rows@.len() == len + i,
            decreases self.large_state_count - i,
        {
            let values: Vec<u16> = self.table_row(i, lists);
            let number: String = count_text(i);
            let ghost before = rows@;
            rows.push(concat2("// State ", number.as_str()));
            let ghost row_lines = input.table_row_lines(i as int);
            let mut j: usize = 0;
            assert(rows@ =~= before + row_lines.take(1));
            while j < values.len()
                invariant
                    input == self.input,
                    values@ == input.table_row(i as int),
                    number@ == decimal(i as nat),
                    row_lines == input.table_row_lines(i as int),
                    symbol_count == input.symbols().len(),
                    before.len() == i * symbol_count + i,
                    len == i * symbol_count + j,
                    j <= values@.len(),
                    rows@ == before + row_lines.take(j + 1),
                decreases values@.len() - j,
            {
                let column: String = count_text(j);
                let value: String = decimal_text(values[j] as u64);
                let row: String = concat7(
                    "/* [",
                    number.as_str(),
                    "][",
                    column.as_str(),
                    "] */ ",
                    value.as_str(),
                    ",",
                );
                assert(row@ == row_lines[j + 1]);
                rows.push(row);
                let row_count: usize = rows.len();
                assert(len < row_count);
                len += 1;
                j += 1;
                assert(rows@ =~= before + row_lines.take(j + 1));
            }
            proof {
                assert(row_lines.take(j + 1) =~= row_lines);
                assert((i + 1) * symbol_count == i * symbol_count + symbol_count)
                    by (nonlinear_arith);
            }
            i += 1;
        }
        proof {
            assert(len == 0 ==> self.large_state_count == 0) by {
                assert(input.symbols().contains(Symbol::end()));
                assert(self.large_state_count * symbol_count >= self.large_state_count)
                    by (nonlinear_arith)
                    requires
                        symbol_count >= 1,
                ;
            }
        }
        let shown: usize = if len == 0 {
            rows.push("0,".to_owned());
            1
        } else {
            len
        };
        assert(len == 0 ==> rows@ =~= seq!["0,"@]);
        let total: String = count_text(shown);
        out.add_array(concat3("static TS_PARSE_TABLE: [u16; ", total.as_str(), "] = ["), &rows);
    }
}

} // verus!
