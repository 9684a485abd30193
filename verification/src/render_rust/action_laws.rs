//! What the parse actions of every rendered parser give back.
use vstd::prelude::*;

use crate::render_rust::actions::{
    encoded_head, encoded_production, encoded_reduction, encoded_shift, low32, values_of, ValueRow,
    EXTRA_BIT, REPETITION_BIT, REUSABLE_BIT,
};
use crate::render_rust::entries::{code_len, codes_len, entry_offset, lemma_offset_increases};
use crate::render_rust::input::ParserInput;
use crate::render_rust::parse_table::low16;
use crate::runtime;
use crate::tables::{EntryView, ParseAction};

verus! {

/// The number that sixteen bits stand for in two's complement.
pub open spec fn signed16(bits: u32) -> i16 {
    if bits < 0x8000 {
        bits as i16
    } else {
        (bits - 0x1_0000) as i16
    }
}

/// The number of values of the action whose first value is given.
pub open spec fn decoded_len(first: u32) -> int {
    if first & 0xffu32 == 1 {
        2
    } else {
        1
    }
}

/// The action that begins with the first of the given values.
pub open spec fn decoded_action(values: Seq<u32>) -> runtime::ParseAction {
    let first = values[0];
    if first & 0xffu32 == 0 {
        runtime::ParseAction::Shift(
            runtime::ShiftAction {
                state: ((first >> 8u32) & 0xffffu32) as u16,
                extra: first & EXTRA_BIT != 0,
                repetition: first & REPETITION_BIT != 0,
            },
        )
    } else if first & 0xffu32 == 1 {
        runtime::ParseAction::Reduce(
            runtime::ReduceAction {
                child_count: ((first >> 8u32) & 0xffu32) as u8,
                symbol: (first >> 16u32) as u16,
                dynamic_precedence: signed16(values[1] & 0xffffu32),
                production_id: (values[1] >> 16u32) as u16,
            },
        )
    } else if first & 0xffu32 == 2 {
        runtime::ParseAction::Accept
    } else {
        runtime::ParseAction::Recover
    }
}

/// The first `count` actions that the given values stand for.
pub open spec fn decoded_actions(values: Seq<u32>, count: nat) -> Seq<runtime::ParseAction>
    decreases count,
{
    if count == 0 {
        Seq::empty()
    } else {
        seq![decoded_action(values)] + decoded_actions(
            values.skip(decoded_len(values[0])),
            (count - 1) as nat,
        )
    }
}

impl ParserInput {
    /// The numbers of an action fit in the fields of an action at run time.
    pub open spec fn fits(&self, action: ParseAction) -> bool {
        match action {
            ParseAction::Shift { state, .. } => state <= u16::MAX,
            ParseAction::Reduce { symbol, child_count, dynamic_precedence, production_id } => {
                &&& self.symbol_numbers().contains_key(symbol)
                &&& self.symbol_numbers()[symbol] <= u16::MAX
                &&& child_count <= u8::MAX
                &&& i16::MIN <= dynamic_precedence <= i16::MAX
                &&& production_id <= u16::MAX
            },
            _ => true,
        }
    }

    /// The numbers of all actions fit.
    pub open spec fn all_fit(&self, actions: Seq<ParseAction>) -> bool {
        forall|i: int| 0 <= i < actions.len() ==> self.fits(#[trigger] actions[i])
    }

    /// An action as it is at run time.
    pub open spec fn run_time_action(&self, action: ParseAction) -> runtime::ParseAction {
        match action {
            ParseAction::Accept => runtime::ParseAction::Accept,
            ParseAction::Recover => runtime::ParseAction::Recover,
            ParseAction::ShiftExtra => runtime::ParseAction::Shift(
                runtime::ShiftAction { state: 0, extra: true, repetition: false },
            ),
            ParseAction::Shift { state, is_repetition } => runtime::ParseAction::Shift(
                runtime::ShiftAction {
                    state: state as u16,
                    extra: false,
                    repetition: is_repetition,
                },
            ),
            ParseAction::Reduce { symbol, child_count, dynamic_precedence, production_id } =>
            runtime::ParseAction::Reduce(
                runtime::ReduceAction {
                    child_count: child_count as u8,
                    symbol: self.table_number(symbol) as u16,
                    dynamic_precedence: dynamic_precedence as i16,
                    production_id: production_id as u16,
                },
            ),
        }
    }

    /// Actions as they are stored, one after another.
    pub open spec fn encoded_actions(&self, actions: Seq<ParseAction>) -> Seq<u32>
        decreases actions.len(),
    {
        if actions.len() == 0 {
            Seq::empty()
        } else {
            self.encoded_actions(actions.drop_last()) + self.encoded_action(actions.last())
        }
    }

    /// The values in the rows of the parse actions.
    pub open spec fn action_values(&self) -> Seq<u32> {
        values_of(self.entry_rows())
    }

    /// An action is read back from its values, whatever stands behind them; the first value says
    /// how many there are.
    pub proof fn action_can_be_read(&self, action: ParseAction, rest: Seq<u32>)
        requires
            self.fits(action),
        ensures
            decoded_action(self.encoded_action(action) + rest) == self.run_time_action(action),
            decoded_len(self.encoded_action(action)[0]) == self.encoded_action(action).len(),
    {
        let values = self.encoded_action(action) + rest;
        assert(values[0] == self.encoded_action(action)[0]);
        match action {
            ParseAction::Accept => {
                assert(2u32 & 0xffu32 == 2) by (bit_vector);
            },
            ParseAction::Recover => {
                assert(3u32 & 0xffu32 == 3) by (bit_vector);
            },
            ParseAction::ShiftExtra => {
                assert(0x100_0000u32 & 0xffu32 == 0 && (0x100_0000u32 >> 8u32) & 0xffffu32 == 0
                    && 0x100_0000u32 & 0x100_0000u32 != 0 && 0x100_0000u32 & 0x200_0000u32 == 0)
                    by (bit_vector);
            },
            ParseAction::Shift { state, is_repetition } => {
                shift_can_be_read(state, is_repetition);
            },
            ParseAction::Reduce { symbol, child_count, dynamic_precedence, production_id } => {
                let number = self.table_number(symbol);
                assert(values[1] == encoded_production(dynamic_precedence, production_id));
                reduction_can_be_read(child_count, number);
                production_can_be_read(dynamic_precedence, production_id);
            },
        }
    }

    /// Different actions are stored as different values.
    pub proof fn encoded_actions_differ(&self, a: ParseAction, b: ParseAction)
        requires
            self.fits(a),
            self.fits(b),
            a != b,
        ensures
            self.encoded_action(a) != self.encoded_action(b),
    {
        self.action_can_be_read(a, Seq::empty());
        self.action_can_be_read(b, Seq::empty());
        self.symbol_numbers_differ(self.symbols().len());
        assert(self.run_time_action(a) != self.run_time_action(b));
    }

    /// A list of actions is read back from its values, whatever stands behind them.
    pub proof fn actions_can_be_read(&self, actions: Seq<ParseAction>, rest: Seq<u32>)
        requires
            self.all_fit(actions),
        ensures
            decoded_actions(self.encoded_actions(actions) + rest, actions.len())
                == actions.map_values(|action: ParseAction| self.run_time_action(action)),
        decreases actions.len(),
    {
        let values = self.encoded_actions(actions) + rest;
        let read = actions.map_values(|action: ParseAction| self.run_time_action(action));
        if actions.len() == 0 {
            assert(read =~= Seq::empty());
        } else {
            let behind = actions.drop_first();
            let code = self.encoded_action(actions[0]);
            let others = self.encoded_actions(behind) + rest;
            assert forall|i: int| 0 <= i < behind.len() implies self.fits(#[trigger] behind[i]) by {
                assert(behind[i] == actions[i + 1]);
            }
            self.lemma_encoded_front(actions);
            assert(values =~= code + others);
            self.action_can_be_read(actions[0], others);
            self.actions_can_be_read(behind, rest);
            assert(values[0] == code[0]);
            assert(values.skip(code.len() as int) =~= others);
            assert(read =~= seq![read[0]] + behind.map_values(
                |action: ParseAction| self.run_time_action(action),
            ));
        }
    }

    /// The first action comes first.
    proof fn lemma_encoded_front(&self, actions: Seq<ParseAction>)
        requires
            actions.len() > 0,
        ensures
            self.encoded_actions(actions) == self.encoded_action(actions[0])
                + self.encoded_actions(actions.drop_first()),
        decreases actions.len(),
    {
        let before = actions.drop_last();
        let behind = actions.drop_first();
        if actions.len() == 1 {
            assert(self.encoded_actions(before) =~= Seq::empty());
            assert(self.encoded_actions(behind) =~= Seq::empty());
            assert(self.encoded_actions(actions) =~= self.encoded_action(actions[0])
                + self.encoded_actions(behind));
        } else {
            self.lemma_encoded_front(before);
            assert(before.drop_first() =~= behind.drop_last());
            assert(behind.last() == actions.last());
            assert(self.encoded_actions(actions) =~= self.encoded_action(actions[0])
                + self.encoded_actions(behind));
        }
    }

    /// Actions take as many values as their offsets count.
    proof fn lemma_codes(&self, actions: Seq<ParseAction>)
        ensures
            self.encoded_actions(actions).len() == codes_len(actions),
            values_of(actions.map_values(|action: ParseAction| self.action_row(action)))
                == self.encoded_actions(actions),
        decreases actions.len(),
    {
        let rows = actions.map_values(|action: ParseAction| self.action_row(action));
        if actions.len() > 0 {
            let before = actions.drop_last();
            self.lemma_codes(before);
            assert(rows.drop_last() =~= before.map_values(
                |action: ParseAction| self.action_row(action),
            ));
            assert(self.encoded_action(actions.last()).len() == code_len(actions.last()));
        }
    }

    /// The values of the first `n` lists are as many as their offsets count, and those of list `k`
    /// are found at its offset.
    proof fn lemma_values(&self, n: nat, k: int)
        requires
            n <= self.entry_list().len(),
        ensures
            values_of(self.entry_rows_upto(n)).len() == entry_offset(self.entry_list(), n as int),
            0 <= k < n ==> {
                let values = values_of(self.entry_rows_upto(n));
                let entry = self.entry_list()[k];
                let start = entry_offset(self.entry_list(), k) as int;
                &&& start + 1 + codes_len(entry.actions) <= values.len()
                &&& values[start] == encoded_head(entry)
                &&& values.subrange(start + 1, start + 1 + codes_len(entry.actions))
                    == self.encoded_actions(entry.actions)
            },
        decreases n,
    {
        if n > 0 {
            self.lemma_values((n - 1) as nat, k);
            let entry = self.entry_list()[n - 1];
            let rows = self.entry_rows_upto((n - 1) as nat);
            let head = self.head_row(entry_offset(self.entry_list(), n - 1), entry);
            let action_rows = entry.actions.map_values(
                |action: ParseAction| self.action_row(action),
            );
            let before = values_of(rows);
            let values = values_of(self.entry_rows_upto(n));
            self.lemma_codes(entry.actions);
            lemma_values_of_concat(rows.push(head), action_rows);
            assert(rows.push(head).drop_last() =~= rows);
            assert(values =~= before + seq![encoded_head(entry)] + self.encoded_actions(
                entry.actions,
            ));
            if 0 <= k < n {
                let found = self.entry_list()[k];
                let start = entry_offset(self.entry_list(), k) as int;
                let end = start + 1 + codes_len(found.actions);
                if k < n - 1 {
                    assert(values.subrange(start + 1, end) =~= before.subrange(start + 1, end));
                } else {
                    assert(values.subrange(start + 1, end) =~= self.encoded_actions(
                        found.actions,
                    ));
                }
            }
        }
    }

    /// The parse actions are declared to be as many values as are listed.
    pub proof fn parse_actions_are_counted(&self)
        ensures
            self.action_values().len() == self.entry_slots(),
    {
        self.lemma_values(self.entry_list().len(), 0);
    }

    /// The number of a list of actions is the place of its head among the values, and the values
    /// of its actions follow the head.
    pub proof fn actions_are_found(&self, entry: EntryView)
        requires
            self.entry_list().contains(entry),
        ensures
            ({
                let values = self.action_values();
                let id = self.entry_id(entry) as int;
                let end = id + 1 + self.encoded_actions(entry.actions).len();
                &&& end <= values.len()
                &&& values[id] == encoded_head(entry)
                &&& values.subrange(id + 1, end) == self.encoded_actions(entry.actions)
            }),
    {
        let k = self.entry_list().index_of(entry);
        assert(self.entry_list()[k] == entry);
        self.lemma_values(self.entry_list().len(), k);
        self.lemma_codes(entry.actions);
    }

    /// What is read among the values at the number of a list: how many actions it has, whether it
    /// can be reused, and its actions.
    pub proof fn entry_can_be_read(&self, entry: EntryView)
        requires
            self.entry_list().contains(entry),
            entry.actions.len() < 0x1_0000,
            self.all_fit(entry.actions),
        ensures
            ({
                let values = self.action_values();
                let id = self.entry_id(entry) as int;
                &&& id < values.len()
                &&& values[id] & 0xffffu32 == entry.actions.len()
                &&& (values[id] & REUSABLE_BIT != 0) == entry.reusable
                &&& decoded_actions(values.skip(id + 1), entry.actions.len())
                    == entry.actions.map_values(|action: ParseAction| self.run_time_action(action))
            }),
    {
        let values = self.action_values();
        let id = self.entry_id(entry) as int;
        let codes = self.encoded_actions(entry.actions);
        self.actions_are_found(entry);
        head_can_be_read(entry);
        let rest = values.skip(id + 1 + codes.len());
        self.actions_can_be_read(entry.actions, rest);
        assert(values.skip(id + 1) =~= values.subrange(id + 1, id + 1 + codes.len()) + rest);
    }

    /// Different lists of actions have different numbers, and do not overlap.
    pub proof fn entry_ids_differ(&self, a: EntryView, b: EntryView)
        requires
            self.entry_list().contains(a),
            self.entry_list().contains(b),
            a != b,
        ensures
            self.entry_id(a) + 1 + self.encoded_actions(a.actions).len() <= self.entry_id(b)
                || self.entry_id(b) + 1 + self.encoded_actions(b.actions).len() <= self.entry_id(a),
    {
        let list = self.entry_list();
        let i = list.index_of(a);
        let j = list.index_of(b);
        assert(list[i] == a && list[j] == b);
        self.lemma_codes(a.actions);
        self.lemma_codes(b.actions);
        if i < j {
            lemma_offset_increases(list, i, j);
        } else {
            lemma_offset_increases(list, j, i);
        }
    }

    /// The lists of actions lie within the places that are counted, so that the numbers of lists
    /// in a rendered parser fit in sixteen bits.
    pub proof fn entry_ids_fit(&self, entry: EntryView)
        requires
            self.entry_list().contains(entry),
        ensures
            self.entry_id(entry) + 1 + self.encoded_actions(entry.actions).len()
                <= self.entry_slots(),
            self.entry_slots() < u16::MAX ==> low16(self.entry_id(entry) as int) == self.entry_id(
                entry,
            ),
    {
        let list = self.entry_list();
        let i = list.index_of(entry);
        assert(list[i] == entry);
        self.lemma_codes(entry.actions);
        lemma_offset_increases(list, i, list.len() as int);
    }
}

/// The values of two lists of rows are those of the first, and then those of the second.
pub proof fn lemma_values_of_concat(a: Seq<ValueRow>, b: Seq<ValueRow>)
    ensures
        values_of(a + b) == values_of(a) + values_of(b),
    decreases b.len(),
{
    if b.len() == 0 {
        assert(a + b =~= a);
        assert(values_of(a) + values_of(b) =~= values_of(a));
    } else {
        lemma_values_of_concat(a, b.drop_last());
        assert((a + b).drop_last() =~= a + b.drop_last());
        assert(values_of(a + b) =~= values_of(a) + values_of(b));
    }
}

/// The head of a list of fewer than 65536 actions says how many there are, and whether the list
/// can be reused.
pub proof fn head_can_be_read(entry: EntryView)
    requires
        entry.actions.len() < 0x1_0000,
    ensures
        encoded_head(entry) & 0xffffu32 == entry.actions.len(),
        (encoded_head(entry) & REUSABLE_BIT != 0) == entry.reusable,
{
    let count: u32 = low32(entry.actions.len() as int);
    assert(count == entry.actions.len());
    assert((count | 0x1_0000u32) & 0xffffu32 == count && (count | 0x1_0000u32) & 0x1_0000u32 != 0
        && (count | 0u32) & 0xffffu32 == count && (count | 0u32) & 0x1_0000u32 == 0)
        by (bit_vector)
        requires
            count < 0x1_0000u32,
    ;
}

/// A shift says that it is one, to which state, and whether it is in a repetition, if the state
/// has a number of at most 16 bits; it is not the shift of an extra token.
pub proof fn shift_can_be_read(state: usize, is_repetition: bool)
    requires
        state < 0x1_0000,
    ensures
        encoded_shift(state, is_repetition) & 0xffu32 == 0,
        (encoded_shift(state, is_repetition) >> 8u32) & 0xffffu32 == state,
        (encoded_shift(state, is_repetition) & REPETITION_BIT != 0) == is_repetition,
        encoded_shift(state, is_repetition) & EXTRA_BIT == 0,
{
    let n: u32 = low16(state as int) as u32;
    assert(n == state);
    let flag: u32 = if is_repetition {
        REPETITION_BIT
    } else {
        0
    };
    let code: u32 = (n << 8u32) | flag;
    assert(code & 0xffu32 == 0 && (code >> 8u32) & 0xffffu32 == n && (code & 0x200_0000u32 != 0) == (
    flag != 0) && code & 0x100_0000u32 == 0) by (bit_vector)
        requires
            n < 0x1_0000u32,
            flag == 0 || flag == 0x200_0000u32,
            code == (n << 8u32) | flag,
    ;
}

/// The first half of a reduction says that it is one, of how many children, and to the symbol
/// with which number, if these numbers have at most 8 and 16 bits.
pub proof fn reduction_can_be_read(child_count: usize, symbol_number: nat)
    requires
        child_count < 0x100,
        symbol_number < 0x1_0000,
    ensures
        encoded_reduction(child_count, symbol_number) & 0xffu32 == 1,
        (encoded_reduction(child_count, symbol_number) >> 8u32) & 0xffu32 == child_count,
        encoded_reduction(child_count, symbol_number) >> 16u32 == symbol_number,
{
    let c: u32 = low32(child_count as int);
    let s: u32 = low32(symbol_number as int);
    assert(c == child_count && s == symbol_number);
    let code: u32 = 1u32 | (c << 8u32) | (s << 16u32);
    assert(code & 0xffu32 == 1 && (code >> 8u32) & 0xffu32 == c && code >> 16u32 == s)
        by (bit_vector)
        requires
            c < 0x100u32,
            s < 0x1_0000u32,
            code == 1u32 | (c << 8u32) | (s << 16u32),
    ;
}

/// The second half of a reduction says with which precedence and which production, if these
/// numbers have at most 16 bits; the precedence is in two's complement.
pub proof fn production_can_be_read(dynamic_precedence: i32, production_id: usize)
    requires
        -0x8000 <= dynamic_precedence < 0x8000,
        production_id < 0x1_0000,
    ensures
        encoded_production(dynamic_precedence, production_id) & 0xffffu32 == (if dynamic_precedence
            < 0 {
            dynamic_precedence + 0x1_0000
        } else {
            dynamic_precedence as int
        }),
        encoded_production(dynamic_precedence, production_id) >> 16u32 == production_id,
{
    let d: u32 = low16(dynamic_precedence as int) as u32;
    let p: u32 = low32(production_id as int);
    assert(p == production_id);
    assert(d == (if dynamic_precedence < 0 {
        dynamic_precedence + 0x1_0000
    } else {
        dynamic_precedence as int
    }));
    let code: u32 = d | (p << 16u32);
    assert(code & 0xffffu32 == d && code >> 16u32 == p) by (bit_vector)
        requires
            d < 0x1_0000u32,
            p < 0x1_0000u32,
            code == d | (p << 16u32),
    ;
}

/// The lower bits of a number are the number if it has no others, and are the same for two numbers
/// that differ by what only the others hold.
pub proof fn lower_bits_are_kept(n: int)
    ensures
        0 <= n < 0x1_0000 ==> low16(n) == n,
        0 <= n < 0x1_0000_0000 ==> low32(n) == n,
        low16(n + 0x1_0000) == low16(n),
        low32(n + 0x1_0000_0000) == low32(n),
{
}

/// Whatever the numbers are, the first half of a reduction says that it is one, has the lowest bits
/// of the number of children in its second byte, and in its upper half the symbol and what the
/// number of children has beyond a byte.
pub proof fn reductions_are_packed(child_count: usize, symbol_number: nat)
    ensures
        ({
            let code = encoded_reduction(child_count, symbol_number);
            let children = low32(child_count as int);
            let symbol = low32(symbol_number as int);
            &&& code & 0xffu32 == 1
            &&& (code >> 8u32) & 0xffu32 == children & 0xffu32
            &&& code >> 16u32 == (symbol & 0xffffu32) | ((children >> 8u32) & 0xffffu32)
        }),
{
    let c: u32 = low32(child_count as int);
    let s: u32 = low32(symbol_number as int);
    let code: u32 = 1u32 | (c << 8u32) | (s << 16u32);
    assert(code & 0xffu32 == 1 && (code >> 8u32) & 0xffu32 == c & 0xffu32 && code >> 16u32 == (s
        & 0xffffu32) | ((c >> 8u32) & 0xffffu32)) by (bit_vector)
        requires
            code == 1u32 | (c << 8u32) | (s << 16u32),
    ;
}

/// Whatever the numbers are, the second half of a reduction has the lower sixteen bits of the
/// precedence and of the production, and a shift those of the state, in its middle.
pub proof fn productions_and_shifts_are_packed(
    dynamic_precedence: i32,
    production_id: usize,
    state: usize,
    is_repetition: bool,
)
    ensures
        encoded_production(dynamic_precedence, production_id) & 0xffffu32 == low16(
            dynamic_precedence as int,
        ),
        encoded_production(dynamic_precedence, production_id) >> 16u32 == low32(
            production_id as int,
        ) & 0xffffu32,
        encoded_shift(state, is_repetition) & 0xffu32 == 0,
        (encoded_shift(state, is_repetition) >> 8u32) & 0xffffu32 == low16(state as int),
        encoded_shift(state, is_repetition) >> 24u32 == if is_repetition {
            2u32
        } else {
            0u32
        },
{
    let d: u32 = low16(dynamic_precedence as int) as u32;
    let p: u32 = low32(production_id as int);
    let half: u32 = d | (p << 16u32);
    assert(half & 0xffffu32 == d && half >> 16u32 == p & 0xffffu32) by (bit_vector)
        requires
            d < 0x1_0000u32,
            half == d | (p << 16u32),
    ;
    let s: u32 = low16(state as int) as u32;
    let plain: u32 = (s << 8u32) | 0u32;
    let repeated: u32 = (s << 8u32) | 0x200_0000u32;
    assert(plain & 0xffu32 == 0 && (plain >> 8u32) & 0xffffu32 == s && plain >> 24u32 == 0
        && repeated & 0xffu32 == 0 && (repeated >> 8u32) & 0xffffu32 == s && repeated >> 24u32 == 2)
        by (bit_vector)
        requires
            s < 0x1_0000u32,
            plain == (s << 8u32) | 0u32,
            repeated == (s << 8u32) | 0x200_0000u32,
    ;
}

} // verus!
