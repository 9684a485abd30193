//! The parse actions, and the parse table as a whole.
use vstd::prelude::*;

use crate::render::{RenderError, RenderResult};
use crate::render_rust::entries::{entry_offset, lemma_with_entries, ActionLists};
use crate::render_rust::generator::RustGenerator;
use crate::render_rust::input::ParserInput;
use crate::render_rust::parse_table::{low16, low16_of};
use crate::tables::{EntryView, ParseAction, ParseTableEntry};
use crate::text::{
    array_lines, concat3, concat7, count_text, decimal, decimal_text, signed_decimal, signed_text,
    truth, truth_text, TextList,
};

verus! {

/// The lower 32 bits of a number.
pub open spec fn low32(n: int) -> u32 {
    (n % 0x1_0000_0000) as u32
}

/// The flag of a list of actions that can be reused.
pub const REUSABLE_BIT: u32 = 0x1_0000;

/// The flag of a shift of an extra token.
pub const EXTRA_BIT: u32 = 0x100_0000;

/// The flag of a shift within a repetition.
pub const REPETITION_BIT: u32 = 0x200_0000;

/// The head of a list of actions: how many there are, and whether the list can be reused.
pub open spec fn encoded_head(entry: EntryView) -> u32 {
    low32(entry.actions.len() as int) | (if entry.reusable {
        REUSABLE_BIT
    } else {
        0
    })
}

/// The first half of a reduction: its type, how many children there are, and the number of the
/// symbol.
pub open spec fn encoded_reduction(child_count: usize, symbol_number: nat) -> u32 {
    1u32 | (low32(child_count as int) << 8u32) | (low32(symbol_number as int) << 16u32)
}

/// The second half of a reduction: its precedence, and the production.
pub open spec fn encoded_production(dynamic_precedence: i32, production_id: usize) -> u32 {
    (low16(dynamic_precedence as int) as u32) | (low32(production_id as int) << 16u32)
}

/// A shift: its type, which is 0, the state to go to, and whether it is in a repetition.
pub open spec fn encoded_shift(state: usize, is_repetition: bool) -> u32 {
    ((low16(state as int) as u32) << 8u32) | (if is_repetition {
        REPETITION_BIT
    } else {
        0
    })
}

/// Values as they are listed in an array.
pub open spec fn values_text(values: Seq<u32>) -> Seq<char>
    decreases values.len(),
{
    if values.len() == 0 {
        Seq::empty()
    } else if values.len() == 1 {
        decimal(values[0] as nat) + ","@
    } else {
        values_text(values.drop_last()) + " "@ + decimal(values.last() as nat) + ","@
    }
}

/// A line of an array: a comment, and the values that it stands for.
pub struct ValueRow {
    pub comment: Seq<char>,
    pub values: Seq<u32>,
}

impl ValueRow {
    /// The row in rendered source.
    pub open spec fn text(self) -> Seq<char> {
        self.comment + values_text(self.values)
    }
}

/// The values of all rows, one row after another.
pub open spec fn values_of(rows: Seq<ValueRow>) -> Seq<u32>
    decreases rows.len(),
{
    if rows.len() == 0 {
        Seq::empty()
    } else {
        values_of(rows.drop_last()) + rows.last().values
    }
}

impl ParserInput {
    /// An action as it is stored. The lowest byte of the first value is the type of the action:
    /// 0 for a shift, 1 for a reduction, 2 for accepting and 3 for recovering.
    pub open spec fn encoded_action(&self, action: ParseAction) -> Seq<u32> {
        match action {
            ParseAction::Accept => seq![2u32],
            ParseAction::Recover => seq![3u32],
            ParseAction::ShiftExtra => seq![EXTRA_BIT],
            ParseAction::Shift { state, is_repetition } => seq![
                encoded_shift(state, is_repetition),
            ],
            ParseAction::Reduce { symbol, child_count, dynamic_precedence, production_id } => seq![
                encoded_reduction(child_count, self.table_number(symbol)),
                encoded_production(dynamic_precedence, production_id),
            ],
        }
    }

    /// What is said of an action beside its code.
    pub open spec fn action_comment(&self, action: ParseAction) -> Seq<char> {
        match action {
            ParseAction::Accept => "/* ACCEPT */ "@,
            ParseAction::Recover => "/* RECOVER */ "@,
            ParseAction::ShiftExtra => "/* SHIFT_EXTRA */ "@,
            ParseAction::Shift { state, is_repetition } => (if is_repetition {
                "/* SHIFT_REPEAT("@
            } else {
                "/* SHIFT("@
            }) + decimal(state as nat) + ") */ "@,
            ParseAction::Reduce { symbol, child_count, dynamic_precedence, production_id } =>
            "/* REDUCE("@ + self.id(symbol) + ", "@ + decimal(child_count as nat) + ", "@
                + signed_decimal(dynamic_precedence as int) + ", "@ + decimal(production_id as nat)
                + ") */ "@,
        }
    }

    /// The row for an action.
    pub open spec fn action_row(&self, action: ParseAction) -> ValueRow {
        ValueRow { comment: self.action_comment(action), values: self.encoded_action(action) }
    }

    /// The row for the head of the list of actions with the given number.
    pub open spec fn head_row(&self, id: nat, entry: EntryView) -> ValueRow {
        ValueRow {
            comment: "/* ["@ + decimal(id) + "] count="@ + decimal(entry.actions.len())
                + ", reusable="@ + truth(entry.reusable) + " */ "@,
            values: seq![encoded_head(entry)],
        }
    }

    /// The rows for the first `n` lists of actions.
    pub open spec fn entry_rows_upto(&self, n: nat) -> Seq<ValueRow>
        decreases n,
    {
        if n == 0 {
            Seq::empty()
        } else {
            let entry = self.entry_list()[n - 1];
            self.entry_rows_upto((n - 1) as nat).push(
                self.head_row(entry_offset(self.entry_list(), n - 1), entry),
            ) + entry.actions.map_values(|action: ParseAction| self.action_row(action))
        }
    }

    /// The rows for all lists of actions.
    pub open spec fn entry_rows(&self) -> Seq<ValueRow> {
        self.entry_rows_upto(self.entry_list().len())
    }

    /// The lists of parse actions.
    pub open spec fn parse_action_lines(&self) -> Seq<Seq<char>> {
        array_lines(
            "static TS_PARSE_ACTIONS: [u32; "@ + decimal(self.entry_slots()) + "] = ["@,
            self.entry_rows().map_values(|row: ValueRow| row.text()),
        )
    }

    /// The parse table and the parse actions.
    pub open spec fn parse_table_lines(&self) -> Seq<Seq<char>> {
        self.large_table_lines() + self.small_table_lines() + self.parse_action_lines()
    }

    /// The lists of actions reduce only to symbols that have identifiers.
    proof fn lemma_reduces_identified(&self, n: nat)
        requires
            self.is_consistent(),
            n <= self.states().len(),
        ensures
            forall|k: int|
                0 <= k < self.entry_list_upto(n).len() ==> self.reduces_identified(
                    (#[trigger] self.entry_list_upto(n)[k]).actions,
                ),
        decreases n,
    {
        if n > 0 {
            let before = self.entry_list_upto((n - 1) as nat);
            let state = self.states()[n - 1];
            let new = self.entries_in_order(state);
            let after = self.entry_list_upto(n);
            self.lemma_reduces_identified((n - 1) as nat);
            lemma_with_entries(before, new);
            self.lemma_entry_places(state);
            assert forall|k: int| 0 <= k < after.len() implies self.reduces_identified(
                (#[trigger] after[k]).actions,
            ) by {
                let e = after[k];
                assert(after.contains(e));
                if before.contains(e) {
                    let j = before.index_of(e);
                    assert(before[j] == e);
                } else {
                    let j = new.index_of(e);
                    assert(new[j] == e);
                    let place = self.entry_places(state)[j];
                    assert(self.entry_places(state).to_set().contains(place));
                    assert(self.states()[n - 1].terminal_entries@[place].1@ == e);
                }
            }
        }
    }
}

/// The line for a comment and the values that it stands for.
fn row_text(comment: String, first: u32, second: Option<u32>) -> (r: String)
    ensures
        r@ == comment@ + values_text(
            match second {
                Some(second) => seq![first, second],
                None => seq![first],
            },
        ),
{
    let mut r: String = comment;
    let ghost start = r@;
    r.append(decimal_text(first as u64).as_str());
    r.append(",");
    assert(r@ =~= start + values_text(seq![first]));
    match second {
        Some(second) => {
            r.append(" ");
            r.append(decimal_text(second as u64).as_str());
            r.append(",");
            assert(seq![first, second].drop_last() =~= seq![first]);
            assert(r@ =~= start + values_text(seq![first, second]));
        },
        None => {},
    }
    r
}

/// The lower 32 bits of a number.
fn low32_of(n: usize) -> (r: u32)
    ensures
        r == low32(n as int),
{
    (n as u64 % 0x1_0000_0000) as u32
}

/// The lower sixteen bits of a number.
fn signed_low16_of(n: i32) -> (r: u16)
    ensures
        r == low16(n as int),
{
    let positive: i64 = n as i64 + 0x1_0000_0000;
    assert((n + 0x1_0000_0000) % 0x1_0000 == n % 0x1_0000) by (nonlinear_arith);
    (positive % 0x1_0000) as u16
}

impl RustGenerator {
    /// What is said of an action beside its code.
    fn action_comment(&self, action: ParseAction) -> (r: String)
        requires
            self.wf(),
            action matches ParseAction::Reduce { symbol, .. } ==> self.input.has_identifier(symbol),
        ensures
            r@ == self.input.action_comment(action),
    {
        match action {
            ParseAction::Accept => "/* ACCEPT */ ".to_owned(),
            ParseAction::Recover => "/* RECOVER */ ".to_owned(),
            ParseAction::ShiftExtra => "/* SHIFT_EXTRA */ ".to_owned(),
            ParseAction::Shift { state, is_repetition } => {
                let target: String = count_text(state);
                if is_repetition {
                    concat3("/* SHIFT_REPEAT(", target.as_str(), ") */ ")
                } else {
                    concat3("/* SHIFT(", target.as_str(), ") */ ")
                }
            },
            ParseAction::Reduce { symbol, child_count, dynamic_precedence, production_id } => {
                let children: String = count_text(child_count);
                let precedence: String = signed_text(dynamic_precedence);
                let production: String = count_text(production_id);
                let mut r: String = concat7(
                    "/* REDUCE(",
                    self.symbol_id(symbol),
                    ", ",
                    children.as_str(),
                    ", ",
                    precedence.as_str(),
                    ", ",
                );
                r.append(production.as_str());
                r.append(") */ ");
                r
            },
        }
    }

    /// The line for an action.
    fn action_line(&self, action: ParseAction) -> (r: String)
        requires
            self.wf(),
            action matches ParseAction::Reduce { symbol, .. } ==> self.input.has_identifier(symbol),
        ensures
            r@ == self.input.action_row(action).text(),
    {
        let comment: String = self.action_comment(action);
        match action {
            ParseAction::Accept => row_text(comment, 2, None),
            ParseAction::Recover => row_text(comment, 3, None),
            ParseAction::ShiftExtra => row_text(comment, EXTRA_BIT, None),
            ParseAction::Shift { state, is_repetition } => {
                let code: u32 = ((low16_of(state) as u32) << 8u32) | (if is_repetition {
                    REPETITION_BIT
                } else {
                    0
                });
                row_text(comment, code, None)
            },
            ParseAction::Reduce { symbol, child_count, dynamic_precedence, production_id } => {
                let number: usize = self.table_number(symbol);
                let first: u32 = 1u32 | (low32_of(child_count) << 8u32) | (low32_of(number)
                    << 16u32);
                let second: u32 = (signed_low16_of(dynamic_precedence) as u32) | (low32_of(
                    production_id,
                ) << 16u32);
                row_text(comment, first, Some(second))
            },
        }
    }

    /// The line for the head of a list of actions.
    fn head_line(&self, id: usize, entry: &ParseTableEntry) -> (r: String)
        ensures
            r@ == self.input.head_row(id as nat, entry@).text(),
    {
        let number: String = count_text(id);
        let count: String = count_text(entry.actions.len());
        let head: u32 = low32_of(entry.actions.len()) | (if entry.reusable {
            REUSABLE_BIT
        } else {
            0
        });
        let comment: String = concat7(
            "/* [",
            number.as_str(),
            "] count=",
            count.as_str(),
            ", reusable=",
            truth_text(entry.reusable),
            " */ ",
        );
        row_text(comment, head, None)
    }

    /// Adds the lists of parse actions.
    #[verifier::rlimit(40)]
    pub fn add_parse_action_list(&self, lists: &ActionLists, out: &mut TextList)
        requires
            self.wf(),
            lists.wf(),
            lists@ == self.input.entry_list(),
        ensures
            final(out)@ == old(out)@ + self.input.parse_action_lines(),
    {
        let ghost input = self.input;
        let ghost text = |row: ValueRow| row.text();
        proof {
            input.lemma_reduces_identified(input.states().len());
        }
        let mut rows: TextList = TextList::new();
        let mut k: usize = 0;
        assert(rows@ =~= input.entry_rows_upto(0).map_values(text));
        while k < lists.entries.len()
            invariant
                self.wf(),
                input == self.input,
                text == (|row: ValueRow| row.text()),
                lists.wf(),
                lists@ == input.entry_list(),
                forall|k: int|
                    0 <= k < lists@.len() ==> input.reduces_identified(
                        (#[trigger] lists@[k]).actions,
                    ),
                k <= lists.entries@.len(),
                rows@ == input.entry_rows_upto(k as nat).map_values(text),
            decreases lists.entries@.len() - k,
        {
            let (id, entry) = lists.entries[k];
            assert(lists.has_offset(k as int));
            assert(lists@[k as int] == entry@);
            let ghost earlier = input.entry_rows_upto(k as nat);
            let ghost head = input.head_row(id as nat, entry@);
            let ghost action_rows = entry@.actions.map_values(
                |action: ParseAction| input.action_row(action),
            );
            rows.push(self.head_line(id, entry));
            let ghost before = rows@;
            let mut j: usize = 0;
            assert(rows@ =~= before + action_rows.take(0).map_values(text));
            while j < entry.actions.len()
                invariant
                    self.wf(),
                    input == self.input,
                    text == (|row: ValueRow| row.text()),
                    input.reduces_identified(entry@.actions),
                    action_rows == entry@.actions.map_values(
                        |action: ParseAction| input.action_row(action),
                    ),
                    j <= entry.actions@.len(),
                    rows@ == before + action_rows.take(j as int).map_values(text),
                decreases entry.actions@.len() - j,
            {
                let action: ParseAction = entry.actions[j];
                assert(entry@.actions[j as int] == action);
                assert(action_rows[j as int] == input.action_row(action));
                rows.push(self.action_line(action));
                j += 1;
                assert(rows@ =~= before + action_rows.take(j as int).map_values(text));
            }
            proof {
                assert(action_rows.take(j as int) =~= action_rows);
                assert(before =~= earlier.push(head).map_values(text));
                assert(input.entry_rows_upto((k + 1) as nat) == earlier.push(head) + action_rows);
                assert(rows@ =~= input.entry_rows_upto((k + 1) as nat).map_values(text));
            }
            k += 1;
        }
        let total: String = count_text(lists.next_index);
        out.add_array(concat3("static TS_PARSE_ACTIONS: [u32; ", total.as_str(), "] = ["), &rows);
    }

    /// Adds the parse table and the parse actions, if these can be numbered.
    pub fn add_parse_table(&self, out: &mut TextList) -> (r: RenderResult<()>)
        requires
            self.wf(),
        ensures
            match r {
                Ok(()) => {
                    &&& self.input.entry_slots() < u16::MAX
                    &&& final(out)@ == old(out)@ + self.input.parse_table_lines()
                },
                Err(error) => {
                    &&& self.input.entry_slots() >= u16::MAX
                    &&& error == RenderError::ParseTable(self.input.entry_slots() as usize)
                    &&& final(out)@ == old(out)@
                },
            },
    {
        let empty: ParseTableEntry = ParseTableEntry { actions: Vec::new(), reusable: false };
        assert(empty@.actions =~= Seq::<ParseAction>::empty());
        let lists: ActionLists = self.collect_entries(&empty);
        if lists.next_index >= 0xffff {
            return Err(RenderError::ParseTable(lists.next_index));
        }
        let ghost start = out@;
        self.add_large_table(&lists, out);
        self.add_small_table(&lists, out);
        self.add_parse_action_list(&lists, out);
        assert(out@ =~= start + self.input.parse_table_lines());
        Ok(())
    }
}

} // verus!
