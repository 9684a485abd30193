//! The lex functions and the large sets of characters that they use.
use vstd::prelude::*;

use crate::build_tables::LARGE_CHARACTER_RANGE_COUNT;
use crate::nfa::{
    character_ranges, codepoints, lemma_range_count, lemma_ranges_of, ranges_of, simplified,
    CharacterSet, CodepointRange, END,
};
use crate::render_rust::conditions::{
    character_i32, character_range_conditions, character_text, range_conditions, LAST_CHARACTER,
};
use crate::render_rust::generator::RustGenerator;
use crate::render_rust::input::ParserInput;
use crate::tables::{AdvanceAction, LexState, LexTable};
use crate::text::{
    array_lines, concat2, concat3, concat5, count_text, decimal, indent, indent_text, line,
    lines_at, TextList,
};

verus! {

/// The least number of ranges for which leading transitions are looked up in a table.
pub const ADVANCE_MAP_RANGE_COUNT: usize = 8;

/// The range has at most two characters, whose code points have at most sixteen bits.
pub open spec fn is_narrow(range: (u32, u32)) -> bool {
    range.1 <= range.0 + 1 && range.1 <= 0xFFFF
}

/// The transition does not skip, and its ranges have at most two characters.
pub open spec fn is_simple(transition: (CharacterSet, AdvanceAction)) -> bool {
    &&& transition.1.in_main_token
    &&& forall|i: int|
        0 <= i < character_ranges(transition.0.ranges@).len() ==> is_narrow(
            #[trigger] character_ranges(transition.0.ranges@)[i],
        )
}

/// The first `n` transitions of the state are simple, and no more than these.
pub open spec fn is_leading_count(state: LexState, n: int) -> bool {
    &&& 0 <= n <= state.advance_actions@.len()
    &&& forall|k: int| 0 <= k < n ==> is_simple(#[trigger] state.advance_actions@[k])
    &&& n < state.advance_actions@.len() ==> !is_simple(state.advance_actions@[n])
}

/// The number of ranges of the first `n` transitions.
pub open spec fn leading_range_count(state: LexState, n: int) -> nat
    decreases n,
{
    if n <= 0 {
        0
    } else {
        leading_range_count(state, n - 1) + state.advance_actions@[n - 1].0.ranges@.len()
    }
}

/// The number of transitions that are looked up in a table: the leading simple ones, if these
/// have enough ranges.
pub open spec fn leading_count(state: LexState) -> int {
    let n = choose|n: int| is_leading_count(state, n);
    if leading_range_count(state, n) >= ADVANCE_MAP_RANGE_COUNT {
        n
    } else {
        0
    }
}

/// The characters of the first `n` transitions.
pub open spec fn ruled_out(state: LexState, n: int) -> Set<int>
    decreases n,
{
    if n <= 0 {
        Set::empty()
    } else {
        ruled_out(state, n - 1).union(state.advance_actions@[n - 1].0@)
    }
}

/// The rows for a range of characters in the table of leading transitions.
pub open spec fn advance_map_range_rows(range: (u32, u32), target: usize) -> Seq<Seq<char>> {
    let first = "("@ + character_text(range.0) + ", "@ + decimal(target as nat) + "),"@;
    let last = "("@ + character_text(range.1) + ", "@ + decimal(target as nat) + "),"@;
    if range.1 > range.0 {
        seq![first, last]
    } else {
        seq![first]
    }
}

/// The rows for the first `n` ranges of a transition in the table of leading transitions.
pub open spec fn advance_map_rows_of(ranges: Seq<(u32, u32)>, target: usize, n: nat) -> Seq<
    Seq<char>,
>
    decreases n,
{
    if n == 0 {
        Seq::empty()
    } else {
        advance_map_rows_of(ranges, target, (n - 1) as nat) + advance_map_range_rows(
            ranges[n - 1],
            target,
        )
    }
}

/// The rows of the table of the first `n` transitions.
pub open spec fn advance_map_rows(state: LexState, n: int) -> Seq<Seq<char>>
    decreases n,
{
    if n <= 0 {
        Seq::empty()
    } else {
        let (set, action) = state.advance_actions@[n - 1];
        let ranges = character_ranges(set.ranges@);
        advance_map_rows(state, n - 1) + advance_map_rows_of(ranges, action.state, ranges.len())
    }
}

/// The lines that look up the leading transitions.
pub open spec fn advance_map_lines(state: LexState) -> Seq<Seq<char>> {
    if leading_count(state) == 0 {
        Seq::empty()
    } else {
        seq![line(4, "const ADVANCE_MAP: &[(i32, StateId)] = &["@)] + lines_at(
            5,
            advance_map_rows(state, leading_count(state)),
        ) + seq![
            line(4, "];"@),
            line(4, "for &(ch, next) in ADVANCE_MAP {"@),
            line(5, "if lookahead == ch {"@),
            line(6, "state = next;"@),
            line(6, "lexer.advance(skip);"@),
            line(6, "continue 'next_state;"@),
            line(5, "}"@),
            line(4, "}"@),
        ]
    }
}

/// The lines of a step to another state.
pub open spec fn advance_lines(action: AdvanceAction, level: nat) -> Seq<Seq<char>> {
    (if action.in_main_token {
        Seq::empty()
    } else {
        seq![line(level, "skip = true;"@)]
    }) + seq![
        line(level, "state = "@ + decimal(action.state as nat) + ";"@),
        line(level, "lexer.advance(skip);"@),
        line(level, "continue 'next_state;"@),
    ]
}

/// What a transition is taken on: characters of a large set, if one is used, or asserted ones,
/// but none of the negated ones.
pub struct Condition {
    pub large_set: Option<int>,
    pub asserted: Seq<CodepointRange>,
    pub negated: Seq<CodepointRange>,
}

impl Condition {
    /// There is something to test.
    pub open spec fn has_tests(self) -> bool {
        self.large_set is Some || self.asserted.len() > 0 || self.negated.len() > 0
    }
}

/// The ranges by which characters are asserted, and whether the next one is to be in them. Ranges
/// up to the last code point are asserted by what they leave out, and by that it is not null.
pub open spec fn shown_ranges(asserted: Seq<CodepointRange>) -> (Seq<CodepointRange>, bool) {
    if codepoints(asserted).contains(LAST_CHARACTER as int) {
        (
            ranges_of(
                Set::new(|c: int| (0 <= c < END && !codepoints(asserted).contains(c)) || c == 0),
            ),
            false,
        )
    } else {
        (asserted, true)
    }
}

/// The break between the parts of a condition.
pub open spec fn line_break() -> Seq<char> {
    "\n"@ + indent(6)
}

impl ParserInput {
    /// A large set of characters.
    pub open spec fn large_set(&self, ix: int) -> Set<int> {
        self.large_character_sets@[ix].1@
    }

    /// What has to be added to a large set to have the given ranges.
    pub open spec fn additions(&self, ranges: Seq<CodepointRange>, ignored: Set<int>, ix: int) -> Seq<
        CodepointRange,
    > {
        simplified(ranges_of(codepoints(ranges).difference(self.large_set(ix))), ignored)
    }

    /// What has to be removed from a large set to have the given ranges.
    pub open spec fn removals(&self, ranges: Seq<CodepointRange>, ignored: Set<int>, ix: int) -> Seq<
        CodepointRange,
    > {
        simplified(ranges_of(self.large_set(ix).difference(codepoints(ranges))), ignored)
    }

    /// How many ranges are still to be tested if the large set is used.
    pub open spec fn large_set_cost(
        &self,
        ranges: Seq<CodepointRange>,
        ignored: Set<int>,
        ix: int,
    ) -> nat {
        self.additions(ranges, ignored, ix).len() + self.removals(ranges, ignored, ix).len()
    }

    /// The large set is worth being used for the given ranges.
    pub open spec fn is_candidate(
        &self,
        ranges: Seq<CodepointRange>,
        ignored: Set<int>,
        ix: int,
    ) -> bool {
        &&& 0 <= ix < self.large_character_sets@.len()
        &&& codepoints(ranges).intersect(self.large_set(ix)) != Set::<int>::empty()
        &&& self.large_set_cost(ranges, ignored, ix) < ranges.len()
    }

    /// Of the first `n` large sets, this one costs least; it is the last such.
    pub open spec fn is_best_large_set(
        &self,
        ranges: Seq<CodepointRange>,
        ignored: Set<int>,
        n: int,
        ix: int,
    ) -> bool {
        &&& 0 <= ix < n
        &&& self.is_candidate(ranges, ignored, ix)
        &&& forall|other: int|
            0 <= other < n && #[trigger] self.is_candidate(ranges, ignored, other) ==> {
                ||| self.large_set_cost(ranges, ignored, ix) < self.large_set_cost(
                    ranges,
                    ignored,
                    other,
                )
                ||| self.large_set_cost(ranges, ignored, ix) == self.large_set_cost(
                    ranges,
                    ignored,
                    other,
                ) && other <= ix
            }
    }

    /// The large set that is used for the given ranges.
    pub open spec fn best_large_set(&self, ranges: Seq<CodepointRange>, ignored: Set<int>) -> Option<
        int,
    > {
        let n = self.large_character_sets@.len() as int;
        if ranges.len() >= LARGE_CHARACTER_RANGE_COUNT && exists|ix: int|
            self.is_candidate(ranges, ignored, ix) {
            Some(choose|ix: int| self.is_best_large_set(ranges, ignored, n, ix))
        } else {
            None
        }
    }

    /// What transition `k` of a state is taken on, given that no earlier one is.
    pub open spec fn transition_condition(&self, state: LexState, k: int) -> Condition {
        let ignored = ruled_out(state, k);
        let ranges = simplified(state.advance_actions@[k].0.ranges@, ignored);
        match self.best_large_set(ranges, ignored) {
            Some(ix) => Condition {
                large_set: Some(ix),
                asserted: self.additions(ranges, ignored, ix),
                negated: self.removals(ranges, ignored, ix),
            },
            None => Condition { large_set: None, asserted: ranges, negated: Seq::empty() },
        }
    }

    /// The test that the next character is in a large set.
    pub open spec fn large_set_test(&self, ix: int) -> Seq<char> {
        let test = "set_contains(&"@ + self.large_set_id(ix) + ", lookahead)"@;
        if self.large_set(ix).contains(0) {
            "(!eof && "@ + test + ")"@
        } else {
            test
        }
    }

    /// A condition in rendered source.
    pub open spec fn condition_text(&self, condition: Condition) -> Seq<char> {
        let is_positive = condition.large_set is Some || condition.asserted.len() > 0;
        let is_negative = condition.negated.len() > 0;
        let opened = if is_positive && is_negative {
            "if ("@
        } else {
            "if "@
        };
        let with_large_set = match condition.large_set {
            Some(ix) => opened + self.large_set_test(ix),
            None => opened,
        };
        let (ranges, is_included) = shown_ranges(condition.asserted);
        let with_asserted = if condition.asserted.len() > 0 {
            (if condition.large_set is Some {
                with_large_set + " ||"@ + line_break()
            } else {
                with_large_set
            }) + range_conditions(character_ranges(ranges), is_included, line_break())
        } else {
            with_large_set
        };
        let with_negated = if is_negative {
            (if is_positive {
                with_asserted + ") &&"@ + line_break()
            } else {
                with_asserted
            }) + range_conditions(character_ranges(condition.negated), false, line_break())
        } else {
            with_asserted
        };
        with_negated + " {"@
    }

    /// The lines of transition `k` of a state.
    pub open spec fn transition_lines(&self, state: LexState, k: int) -> Seq<Seq<char>> {
        let condition = self.transition_condition(state, k);
        let action = state.advance_actions@[k].1;
        if condition.has_tests() {
            seq![line(4, self.condition_text(condition))] + advance_lines(action, 5) + seq![
                line(4, "}"@),
            ]
        } else {
            advance_lines(action, 4)
        }
    }

    /// The lines of the transitions of a state from the leading ones up to place `n`.
    pub open spec fn transitions_lines(&self, state: LexState, n: int) -> Seq<Seq<char>>
        decreases n - leading_count(state),
    {
        if n <= leading_count(state) {
            Seq::empty()
        } else {
            self.transitions_lines(state, n - 1) + self.transition_lines(state, n - 1)
        }
    }

    /// The lines that accept a token.
    pub open spec fn accept_lines(&self, state: LexState) -> Seq<Seq<char>> {
        match state.accept_action {
            Some(symbol) => seq![
                line(4, "result = true;"@),
                line(4, "lexer.set_result_symbol("@ + self.id(symbol) + ");"@),
                line(4, "lexer.mark_end();"@),
            ],
            None => Seq::empty(),
        }
    }

    /// The lines for the end of the input.
    pub open spec fn eof_lines(&self, state: LexState) -> Seq<Seq<char>> {
        match state.eof_action {
            Some(action) => seq![
                line(4, "if eof {"@),
                line(5, "state = "@ + decimal(action.state as nat) + ";"@),
                line(5, "lexer.advance(skip);"@),
                line(5, "continue 'next_state;"@),
                line(4, "}"@),
            ],
            None => Seq::empty(),
        }
    }

    /// The lines of a lex state.
    pub open spec fn lex_state_lines(&self, state: LexState) -> Seq<Seq<char>> {
        self.accept_lines(state) + self.eof_lines(state) + advance_map_lines(state)
            + self.transitions_lines(state, state.advance_actions@.len() as int)
    }

    /// The lines of the first `n` lex states.
    pub open spec fn lex_states_lines(&self, table: LexTable, n: nat) -> Seq<Seq<char>>
        decreases n,
    {
        if n == 0 {
            Seq::empty()
        } else {
            self.lex_states_lines(table, (n - 1) as nat) + seq![
                line(3, decimal((n - 1) as nat) + " => {"@),
            ] + self.lex_state_lines(table.states@[n - 1]) + seq![
                line(4, "return result;"@),
                line(3, "}"@),
            ]
        }
    }

    /// The lines of a lex function.
    pub open spec fn lex_function_lines(&self, name: Seq<char>, table: LexTable) -> Seq<Seq<char>> {
        seq![
            "fn "@ + name + "(lexer: &mut dyn Lexer, mut state: StateId) -> bool {"@,
            line(1, "let mut result = false;"@),
            line(1, "let mut skip;"@),
            line(1, "let mut eof;"@),
            line(1, "let mut lookahead;"@),
            line(1, "'next_state: loop {"@),
            line(2, "skip = false;"@),
            line(2, "lookahead = lexer.lookahead();"@),
            line(2, "eof = lexer.eof();"@),
            line(2, "match state {"@),
        ] + self.lex_states_lines(table, table.states@.len()) + seq![
            line(3, "_ => return false,"@),
            line(2, "}"@),
            line(1, "}"@),
            "}"@,
            ""@,
        ]
    }

    /// One of the transitions of a state from the leading ones up to place `n` uses the large set.
    pub open spec fn state_uses(&self, state: LexState, n: int, ix: int) -> bool {
        exists|k: int|
            leading_count(state) <= k < n && (#[trigger] self.transition_condition(
                state,
                k,
            )).large_set == Some(ix)
    }

    /// One of the first `n` states uses the large set.
    pub open spec fn table_uses(&self, table: LexTable, n: int, ix: int) -> bool {
        exists|i: int|
            0 <= i < n && self.state_uses(
                #[trigger] table.states@[i],
                table.states@[i].advance_actions@.len() as int,
                ix,
            )
    }

    /// A lex function uses the large set.
    pub open spec fn is_large_set_used(&self, ix: int) -> bool {
        ||| self.table_uses(self.main_lex_table, self.main_lex_table.states@.len() as int, ix)
        ||| self.syntax_grammar.word_token is Some && self.table_uses(
            self.keyword_lex_table,
            self.keyword_lex_table.states@.len() as int,
            ix,
        )
    }

    /// The row of a large set for a range of characters.
    pub open spec fn character_range_row(range: (u32, u32)) -> Seq<char> {
        "CharacterRange { start: "@ + character_text(range.0) + ", end: "@ + character_text(range.1)
            + " },"@
    }

    /// The lines of a large set of characters, if it is used.
    pub open spec fn character_set_lines(&self, ix: int) -> Seq<Seq<char>> {
        if self.is_large_set_used(ix) {
            let set = self.large_character_sets@[ix].1;
            array_lines(
                "static "@ + self.large_set_id(ix) + ": [CharacterRange; "@ + decimal(
                    character_ranges(set.ranges@).len(),
                ) + "] = ["@,
                character_ranges(set.ranges@).map_values(
                    |range: (u32, u32)| ParserInput::character_range_row(range),
                ),
            )
        } else {
            Seq::empty()
        }
    }

    /// The lines of the first `n` large sets of characters.
    pub open spec fn character_sets_lines(&self, n: nat) -> Seq<Seq<char>>
        decreases n,
    {
        if n == 0 {
            Seq::empty()
        } else {
            self.character_sets_lines((n - 1) as nat) + self.character_set_lines(n - 1)
        }
    }

    /// The large sets of characters, and the lex functions.
    pub open spec fn lexer_lines(&self) -> Seq<Seq<char>> {
        self.character_sets_lines(self.large_character_sets@.len()) + self.lex_function_lines(
            "ts_lex"@,
            self.main_lex_table,
        ) + (if self.syntax_grammar.word_token is Some {
            self.lex_function_lines("ts_lex_keywords"@, self.keyword_lex_table)
        } else {
            Seq::empty()
        })
    }
}

/// The number of leading simple transitions is unique.
proof fn lemma_leading_count(state: LexState, n: int)
    requires
        is_leading_count(state, n),
    ensures
        (choose|m: int| is_leading_count(state, m)) == n,
{
    let m = choose|m: int| is_leading_count(state, m);
    assert(is_leading_count(state, m));
    if m < n {
        assert(is_simple(state.advance_actions@[m]));
    } else if n < m {
        assert(is_simple(state.advance_actions@[n]));
    }
}

/// Tests whether a transition is simple.
fn is_simple_transition(transition: &(CharacterSet, AdvanceAction)) -> (r: bool)
    requires
        transition.0.wf(),
    ensures
        r == is_simple(*transition),
{
    if !transition.1.in_main_token {
        return false;
    }
    let ranges: Vec<(u32, u32)> = transition.0.character_ranges();
    let mut i: usize = 0;
    while i < ranges.len()
        invariant
            ranges@ == character_ranges(transition.0.ranges@),
            i <= ranges@.len(),
            forall|j: int| 0 <= j < i ==> is_narrow(#[trigger] ranges@[j]),
        decreases ranges@.len() - i,
    {
        let (start, end): (u32, u32) = ranges[i];
        if end > 0xFFFF || end > start.saturating_add(1) {
            assert(!is_narrow(ranges@[i as int]));
            return false;
        }
        i += 1;
    }
    true
}

/// The number of transitions that are looked up in a table.
fn count_leading(state: &LexState) -> (r: usize)
    requires
        state.wf(),
    ensures
        r == leading_count(*state),
        r <= state.advance_actions@.len(),
{
    let mut n: usize = 0;
    let mut range_count: usize = 0;
    while n < state.advance_actions.len()
        invariant_except_break
            state.wf(),
            n <= state.advance_actions@.len(),
            forall|k: int| 0 <= k < n ==> is_simple(#[trigger] state.advance_actions@[k]),
            range_count == leading_range_count(*state, n as int) || (range_count
                >= ADVANCE_MAP_RANGE_COUNT && leading_range_count(*state, n as int)
                >= ADVANCE_MAP_RANGE_COUNT),
        ensures
            is_leading_count(*state, n as int),
            range_count == leading_range_count(*state, n as int) || (range_count
                >= ADVANCE_MAP_RANGE_COUNT && leading_range_count(*state, n as int)
                >= ADVANCE_MAP_RANGE_COUNT),
        decreases state.advance_actions@.len() - n,
    {
        if !is_simple_transition(&state.advance_actions[n]) {
            break;
        }
        let more: usize = state.advance_actions[n].0.range_count();
        if range_count < ADVANCE_MAP_RANGE_COUNT {
            if more >= ADVANCE_MAP_RANGE_COUNT {
                range_count = ADVANCE_MAP_RANGE_COUNT;
            } else {
                range_count += more;
            }
        }
        n += 1;
    }
    proof {
        lemma_leading_count(*state, n as int);
    }
    if range_count >= ADVANCE_MAP_RANGE_COUNT {
        n
    } else {
        0
    }
}

/// Adds the lines of a step to another state.
pub fn add_advance_action(action: &AdvanceAction, level: usize, out: &mut TextList)
    ensures
        final(out)@ == old(out)@ + advance_lines(*action, level as nat),
{
    let ghost start = out@;
    if !action.in_main_token {
        out.add_line(level, "skip = true;");
    }
    let target: String = count_text(action.state);
    let step: String = concat3("state = ", target.as_str(), ";");
    out.add_line(level, step.as_str());
    out.add_line(level, "lexer.advance(skip);");
    out.add_line(level, "continue 'next_state;");
    assert(out@ =~= start + advance_lines(*action, level as nat));
}

/// Adds the rows for a transition to the table of leading transitions.
fn add_advance_map_rows(set: &CharacterSet, action: &AdvanceAction, rows: &mut TextList)
    requires
        set.wf(),
    ensures
        final(rows)@ == old(rows)@ + advance_map_rows_of(
            character_ranges(set.ranges@),
            action.state,
            character_ranges(set.ranges@).len(),
        ),
{
    let ranges: Vec<(u32, u32)> = set.character_ranges();
    let target: String = count_text(action.state);
    let ghost start = rows@;
    let mut i: usize = 0;
    assert(rows@ =~= start + advance_map_rows_of(ranges@, action.state, 0));
    while i < ranges.len()
        invariant
            target@ == decimal(action.state as nat),
            i <= ranges@.len(),
            rows@ == start + advance_map_rows_of(ranges@, action.state, i as nat),
        decreases ranges@.len() - i,
    {
        let (first, last): (u32, u32) = ranges[i];
        let ghost before = rows@;
        rows.push(concat5("(", character_i32(first).as_str(), ", ", target.as_str(), "),"));
        if last > first {
            rows.push(concat5("(", character_i32(last).as_str(), ", ", target.as_str(), "),"));
        }
        assert(rows@ =~= before + advance_map_range_rows(ranges@[i as int], action.state));
        i += 1;
        assert(rows@ =~= start + advance_map_rows_of(ranges@, action.state, i as nat));
    }
}

/// Adds the lines that look up the first `lead` transitions.
fn add_advance_map(state: &LexState, lead: usize, out: &mut TextList)
    requires
        state.wf(),
        lead == leading_count(*state),
        lead <= state.advance_actions@.len(),
    ensures
        final(out)@ == old(out)@ + advance_map_lines(*state),
{
    if lead == 0 {
        assert(out@ + advance_map_lines(*state) =~= out@);
        return;
    }
    let ghost start = out@;
    let mut rows: TextList = TextList::new();
    let mut k: usize = 0;
    while k < lead
        invariant
            state.wf(),
            k <= lead <= state.advance_actions@.len(),
            rows@ == advance_map_rows(*state, k as int),
        decreases lead - k,
    {
        add_advance_map_rows(&state.advance_actions[k].0, &state.advance_actions[k].1, &mut rows);
        k += 1;
    }
    out.add_line(4, "const ADVANCE_MAP: &[(i32, StateId)] = &[");
    out.add_lines_at(5, &rows);
    out.add_line(4, "];");
    out.add_line(4, "for &(ch, next) in ADVANCE_MAP {");
    out.add_line(5, "if lookahead == ch {");
    out.add_line(6, "state = next;");
    out.add_line(6, "lexer.advance(skip);");
    out.add_line(6, "continue 'next_state;");
    out.add_line(5, "}");
    out.add_line(4, "}");
    assert(out@ =~= start + advance_map_lines(*state));
}

impl RustGenerator {
    /// The large set that is used for the given characters, with what to add to it and what to
    /// remove from it.
    #[verifier::rlimit(40)]
    fn best_large_set(&self, simplified_chars: &CharacterSet, ruled_out_chars: &CharacterSet) -> (r:
        Option<(usize, CharacterSet, CharacterSet)>)
        requires
            self.wf(),
            simplified_chars.wf(),
            ruled_out_chars.wf(),
        ensures
            match r {
                Some((ix, additions, removals)) => {
                    let ranges = simplified_chars.ranges@;
                    &&& ix < self.input.large_character_sets@.len()
                    &&& self.input.best_large_set(ranges, ruled_out_chars@) == Some(ix as int)
                    &&& additions.wf()
                    &&& removals.wf()
                    &&& additions.ranges@ == self.input.additions(
                        ranges,
                        ruled_out_chars@,
                        ix as int,
                    )
                    &&& removals.ranges@ == self.input.removals(ranges, ruled_out_chars@, ix as int)
                },
                None => self.input.best_large_set(simplified_chars.ranges@, ruled_out_chars@)
                    is None,
            },
    {
        let ghost input = self.input;
        let ghost ranges = simplified_chars.ranges@;
        let ghost ignored = ruled_out_chars@;
        if simplified_chars.range_count() < LARGE_CHARACTER_RANGE_COUNT {
            return None;
        }
        let mut best: Option<(usize, CharacterSet, CharacterSet)> = None;
        let mut ix: usize = 0;
        while ix < self.input.large_character_sets.len()
            invariant
                self.wf(),
                input == self.input,
                simplified_chars.wf(),
                ruled_out_chars.wf(),
                ranges == simplified_chars.ranges@,
                ignored == ruled_out_chars@,
                ix <= input.large_character_sets@.len(),
                match best {
                    Some((b, additions, removals)) => {
                        &&& input.is_best_large_set(ranges, ignored, ix as int, b as int)
                        &&& additions.wf()
                        &&& removals.wf()
                        &&& additions.ranges@ == input.additions(ranges, ignored, b as int)
                        &&& removals.ranges@ == input.removals(ranges, ignored, b as int)
                    },
                    None => forall|other: int|
                        0 <= other < ix ==> !#[trigger] input.is_candidate(ranges, ignored, other),
                },
            decreases input.large_character_sets@.len() - ix,
        {
            assert(input.large_character_sets@[ix as int].1.wf());
            let large_set: &CharacterSet = &self.input.large_character_sets[ix].1;
            let common: CharacterSet = simplified_chars.intersection(large_set);
            if !common.is_empty() {
                let added: CharacterSet = simplified_chars.difference(large_set);
                let removed: CharacterSet = large_set.difference(simplified_chars);
                let additions: CharacterSet = added.simplify_ignoring(ruled_out_chars);
                let removals: CharacterSet = removed.simplify_ignoring(ruled_out_chars);
                proof {
                    lemma_ranges_of(added.ranges@);
                    lemma_ranges_of(removed.ranges@);
                    lemma_range_count(additions.ranges@);
                    lemma_range_count(removals.ranges@);
                    assert(input.large_set_cost(ranges, ignored, ix as int)
                        == additions.ranges@.len() + removals.ranges@.len());
                }
                let total: usize = additions.range_count() + removals.range_count();
                if total < simplified_chars.range_count() {
                    assert(input.is_candidate(ranges, ignored, ix as int));
                    let is_better: bool = match &best {
                        Some((_, best_additions, best_removals)) => {
                            proof {
                                lemma_range_count(best_additions.ranges@);
                                lemma_range_count(best_removals.ranges@);
                            }
                            best_additions.range_count() + best_removals.range_count() >= total
                        },
                        None => true,
                    };
                    if is_better {
                        best = Some((ix, additions, removals));
                    }
                } else {
                    assert(!input.is_candidate(ranges, ignored, ix as int));
                }
            } else {
                assert(!input.is_candidate(ranges, ignored, ix as int));
            }
            ix += 1;
        }
        proof {
            let n = input.large_character_sets@.len() as int;
            match best {
                Some((b, _, _)) => {
                    assert(input.is_candidate(ranges, ignored, b as int));
                    let chosen = choose|x: int| input.is_best_large_set(ranges, ignored, n, x);
                    assert(input.is_best_large_set(ranges, ignored, n, b as int));
                    assert(input.is_best_large_set(ranges, ignored, n, chosen));
                    assert(input.is_candidate(ranges, ignored, chosen));
                    assert(chosen == b);
                },
                None => {},
            }
        }
        best
    }

    /// The test that the next character is in a large set.
    fn large_set_test(&self, ix: usize) -> (r: String)
        requires
            self.wf(),
            ix < self.input.large_character_sets@.len(),
        ensures
            r@ == self.input.large_set_test(ix as int),
    {
        assert(self.large_set_names@[ix as int] == self.input.large_set_id(ix as int));
        let test: String = concat3(
            "set_contains(&",
            self.large_set_names.lines[ix].as_str(),
            ", lookahead)",
        );
        assert(self.input.large_character_sets@[ix as int].1.wf());
        if self.input.large_character_sets[ix].1.contains(0) {
            concat3("(!eof && ", test.as_str(), ")")
        } else {
            test
        }
    }

    /// A condition in rendered source.
    #[verifier::rlimit(40)]
    fn condition_text(
        &self,
        large_set: Option<usize>,
        asserted: &CharacterSet,
        negated: &CharacterSet,
    ) -> (r: String)
        requires
            self.wf(),
            large_set matches Some(ix) ==> ix < self.input.large_character_sets@.len(),
            asserted.wf(),
            negated.wf(),
        ensures
            r@ == self.input.condition_text(
                Condition {
                    large_set: match large_set {
                        Some(ix) => Some(ix as int),
                        None => None,
                    },
                    asserted: asserted.ranges@,
                    negated: negated.ranges@,
                },
            ),
    {
        let line_break: String = concat2("\n", indent_text(6).as_str());
        let is_positive: bool = large_set.is_some() || !asserted.is_empty();
        let is_negative: bool = !negated.is_empty();
        let mut r: String = if is_positive && is_negative {
            "if (".to_owned()
        } else {
            "if ".to_owned()
        };
        match large_set {
            Some(ix) => {
                r.append(self.large_set_test(ix).as_str());
            },
            None => {},
        }
        if !asserted.is_empty() {
            if large_set.is_some() {
                r.append(" ||");
                r.append(line_break.as_str());
            }
            if asserted.contains(LAST_CHARACTER) {
                let others: CharacterSet = asserted.negate().add(
                    &CharacterSet::from_codepoints(0, 1),
                );
                proof {
                    lemma_ranges_of(others.ranges@);
                    assert(others@ =~= Set::new(
                        |c: int|
                            (0 <= c < END && !codepoints(asserted.ranges@).contains(c)) || c == 0,
                    ));
                }
                r.append(
                    character_range_conditions(&others, false, line_break.as_str()).as_str(),
                );
            } else {
                r.append(character_range_conditions(asserted, true, line_break.as_str()).as_str());
            }
        }
        if is_negative {
            if is_positive {
                r.append(") &&");
                r.append(line_break.as_str());
            }
            r.append(character_range_conditions(negated, false, line_break.as_str()).as_str());
        }
        r.append(" {");
        r
    }

    /// Adds the lines of transition `k`, and says which large set it uses.
    fn add_transition(
        &self,
        state: &LexState,
        k: usize,
        ruled_out_chars: &CharacterSet,
        out: &mut TextList,
    ) -> (r: Option<usize>)
        requires
            self.wf(),
            state.wf(),
            k < state.advance_actions@.len(),
            ruled_out_chars.wf(),
            ruled_out_chars@ == ruled_out(*state, k as int),
        ensures
            final(out)@ == old(out)@ + self.input.transition_lines(*state, k as int),
            match r {
                Some(ix) => ix < self.input.large_character_sets@.len()
                    && self.input.transition_condition(*state, k as int).large_set == Some(
                    ix as int,
                ),
                None => self.input.transition_condition(*state, k as int).large_set is None,
            },
    {
        let ghost start = out@;
        let ghost condition = self.input.transition_condition(*state, k as int);
        assert(state.advance_actions@[k as int].0.wf());
        let simplified_chars: CharacterSet = state.advance_actions[k].0.simplify_ignoring(
            ruled_out_chars,
        );
        let action: &AdvanceAction = &state.advance_actions[k].1;
        let (large_set, asserted, negated): (Option<usize>, CharacterSet, CharacterSet) =
            match self.best_large_set(&simplified_chars, ruled_out_chars) {
            Some((ix, additions, removals)) => (Some(ix), additions, removals),
            None => (None, simplified_chars, CharacterSet::empty()),
        };
        proof {
            if large_set is None {
                negated.lemma_no_ranges();
            }
            assert(asserted.ranges@ == condition.asserted);
            assert(negated.ranges@ =~= condition.negated);
        }
        if large_set.is_some() || !asserted.is_empty() || !negated.is_empty() {
            let text: String = self.condition_text(large_set, &asserted, &negated);
            out.add_line(4, text.as_str());
            add_advance_action(action, 5, out);
            out.add_line(4, "}");
            assert(out@ =~= start + self.input.transition_lines(*state, k as int));
        } else {
            add_advance_action(action, 4, out);
        }
        large_set
    }

    /// Adds the lines of a lex state, and marks the large sets that it uses.
    #[verifier::rlimit(40)]
    pub fn add_lex_state(&self, state: &LexState, used: &mut Vec<bool>, out: &mut TextList)
        requires
            self.wf(),
            state.wf(),
            state.accept_action matches Some(symbol) ==> self.input.has_identifier(symbol),
            old(used)@.len() == self.input.large_character_sets@.len(),
        ensures
            final(out)@ == old(out)@ + self.input.lex_state_lines(*state),
            final(used)@.len() == old(used)@.len(),
            forall|ix: int|
                0 <= ix < final(used)@.len() ==> #[trigger] final(used)@[ix] == (old(used)@[ix]
                    || self.input.state_uses(*state, state.advance_actions@.len() as int, ix)),
    {
        let ghost start = out@;
        let ghost used_before = used@;
        match state.accept_action {
            Some(symbol) => {
                out.add_line(4, "result = true;");
                let call: String = concat3(
                    "lexer.set_result_symbol(",
                    self.symbol_id(symbol),
                    ");",
                );
                out.add_line(4, call.as_str());
                out.add_line(4, "lexer.mark_end();");
            },
            None => {},
        }
        assert(out@ =~= start + self.input.accept_lines(*state));
        let ghost accepted = out@;
        match &state.eof_action {
            Some(action) => {
                out.add_line(4, "if eof {");
                let target: String = count_text(action.state);
                let step: String = concat3("state = ", target.as_str(), ";");
                out.add_line(5, step.as_str());
                out.add_line(5, "lexer.advance(skip);");
                out.add_line(5, "continue 'next_state;");
                out.add_line(4, "}");
            },
            None => {},
        }
        assert(out@ =~= accepted + self.input.eof_lines(*state));
        let lead: usize = count_leading(state);
        add_advance_map(state, lead, out);
        let ghost head = out@;
        let mut ruled_out_chars: CharacterSet = CharacterSet::empty();
        let mut k: usize = 0;
        while k < lead
            invariant
                state.wf(),
                k <= lead <= state.advance_actions@.len(),
                ruled_out_chars.wf(),
                ruled_out_chars@ == ruled_out(*state, k as int),
            decreases lead - k,
        {
            assert(state.advance_actions@[k as int].0.wf());
            ruled_out_chars = ruled_out_chars.add(&state.advance_actions[k].0);
            k += 1;
        }
        proof {
            assert(out@ =~= head + self.input.transitions_lines(*state, k as int));
            assert forall|ix: int| !self.input.state_uses(*state, k as int, ix) by {}
        }
        while k < state.advance_actions.len()
            invariant
                self.wf(),
                state.wf(),
                lead == leading_count(*state),
                lead <= k <= state.advance_actions@.len(),
                ruled_out_chars.wf(),
                ruled_out_chars@ == ruled_out(*state, k as int),
                out@ == head + self.input.transitions_lines(*state, k as int),
                used@.len() == used_before.len(),
                used@.len() == self.input.large_character_sets@.len(),
                forall|ix: int|
                    0 <= ix < used@.len() ==> #[trigger] used@[ix] == (used_before[ix]
                        || self.input.state_uses(*state, k as int, ix)),
            decreases state.advance_actions@.len() - k,
        {
            let ghost marked = used@;
            let large_set: Option<usize> = self.add_transition(state, k, &ruled_out_chars, out);
            match large_set {
                Some(ix) => {
                    used.set(ix, true);
                },
                None => {},
            }
            assert(state.advance_actions@[k as int].0.wf());
            ruled_out_chars = ruled_out_chars.add(&state.advance_actions[k].0);
            proof {
                assert(out@ =~= head + self.input.transitions_lines(*state, k + 1));
                assert forall|ix: int| 0 <= ix < used@.len() implies #[trigger] used@[ix] == (
                used_before[ix] || self.input.state_uses(*state, k + 1, ix)) by {
                    assert(marked[ix] == (used_before[ix] || self.input.state_uses(
                        *state,
                        k as int,
                        ix,
                    )));
                    self.lemma_state_uses(*state, k as int, ix);
                }
            }
            k += 1;
        }
        assert(out@ =~= start + self.input.lex_state_lines(*state));
    }

    /// What one more transition uses.
    proof fn lemma_state_uses(&self, state: LexState, k: int, ix: int)
        requires
            k >= leading_count(state),
        ensures
            self.input.state_uses(state, k + 1, ix) == (self.input.state_uses(state, k, ix)
                || self.input.transition_condition(state, k).large_set == Some(ix)),
    {
        if self.input.state_uses(state, k, ix) {
            let j = choose|j: int|
                leading_count(state) <= j < k && (#[trigger] self.input.transition_condition(
                    state,
                    j,
                )).large_set == Some(ix);
            assert(self.input.transition_condition(state, j).large_set == Some(ix));
        }
    }

    /// Adds a lex function, and marks the large sets that it uses.
    #[verifier::rlimit(40)]
    pub fn add_lex_function(
        &self,
        name: &str,
        table: &LexTable,
        used: &mut Vec<bool>,
        out: &mut TextList,
    )
        requires
            self.wf(),
            table.wf(),
            self.input.accepts_identified(*table),
            old(used)@.len() == self.input.large_character_sets@.len(),
        ensures
            final(out)@ == old(out)@ + self.input.lex_function_lines(name@, *table),
            final(used)@.len() == old(used)@.len(),
            forall|ix: int|
                0 <= ix < final(used)@.len() ==> #[trigger] final(used)@[ix] == (old(used)@[ix]
                    || self.input.table_uses(*table, table.states@.len() as int, ix)),
    {
        let ghost start = out@;
        let ghost used_before = used@;
        out.push(
            concat3("fn ", name, "(lexer: &mut dyn Lexer, mut state: StateId) -> bool {"),
        );
        out.add_line(1, "let mut result = false;");
        out.add_line(1, "let mut skip;");
        out.add_line(1, "let mut eof;");
        out.add_line(1, "let mut lookahead;");
        out.add_line(1, "'next_state: loop {");
        out.add_line(2, "skip = false;");
        out.add_line(2, "lookahead = lexer.lookahead();");
        out.add_line(2, "eof = lexer.eof();");
        out.add_line(2, "match state {");
        let ghost head = out@;
        let mut i: usize = 0;
        assert(out@ =~= head + self.input.lex_states_lines(*table, 0));
        while i < table.states.len()
            invariant
                self.wf(),
                table.wf(),
                self.input.accepts_identified(*table),
                i <= table.states@.len(),
                out@ == head + self.input.lex_states_lines(*table, i as nat),
                used@.len() == used_before.len(),
                used@.len() == self.input.large_character_sets@.len(),
                forall|ix: int|
                    0 <= ix < used@.len() ==> #[trigger] used@[ix] == (used_before[ix]
                        || self.input.table_uses(*table, i as int, ix)),
            decreases table.states@.len() - i,
        {
            let state: &LexState = &table.states[i];
            let ghost before = out@;
            let ghost marked = used@;
            assert(table.states@[i as int].wf());
            let number: String = count_text(i);
            let arm: String = concat2(number.as_str(), " => {");
            out.add_line(3, arm.as_str());
            self.add_lex_state(state, used, out);
            out.add_line(4, "return result;");
            out.add_line(3, "}");
            proof {
                assert(out@ =~= before + (seq![line(3, decimal(i as nat) + " => {"@)]
                    + self.input.lex_state_lines(*state) + seq![
                    line(4, "return result;"@),
                    line(3, "}"@),
                ]));
                assert(out@ =~= head + self.input.lex_states_lines(*table, (i + 1) as nat));
                assert forall|ix: int| 0 <= ix < used@.len() implies #[trigger] used@[ix] == (
                used_before[ix] || self.input.table_uses(*table, i + 1, ix)) by {
                    assert(marked[ix] == (used_before[ix] || self.input.table_uses(
                        *table,
                        i as int,
                        ix,
                    )));
                    self.lemma_table_uses(*table, i as int, ix);
                }
            }
            i += 1;
        }
        out.add_line(3, "_ => return false,");
        out.add_line(2, "}");
        out.add_line(1, "}");
        out.push("}".to_owned());
        out.push("".to_owned());
        assert(out@ =~= start + self.input.lex_function_lines(name@, *table));
    }

    /// What one more state uses.
    proof fn lemma_table_uses(&self, table: LexTable, i: int, ix: int)
        requires
            0 <= i < table.states@.len(),
        ensures
            self.input.table_uses(table, i + 1, ix) == (self.input.table_uses(table, i, ix)
                || self.input.state_uses(
                table.states@[i],
                table.states@[i].advance_actions@.len() as int,
                ix,
            )),
    {
        if self.input.table_uses(table, i, ix) {
            let j = choose|j: int|
                0 <= j < i && self.input.state_uses(
                    #[trigger] table.states@[j],
                    table.states@[j].advance_actions@.len() as int,
                    ix,
                );
            assert(self.input.state_uses(
                table.states@[j],
                table.states@[j].advance_actions@.len() as int,
                ix,
            ));
        }
    }

    /// Adds a large set of characters, if it is used.
    pub fn add_character_set(&self, ix: usize, is_used: bool, out: &mut TextList)
        requires
            self.wf(),
            ix < self.input.large_character_sets@.len(),
            is_used == self.input.is_large_set_used(ix as int),
        ensures
            final(out)@ == old(out)@ + self.input.character_set_lines(ix as int),
    {
        if !is_used {
            assert(out@ + self.input.character_set_lines(ix as int) =~= out@);
            return;
        }
        assert(self.input.large_character_sets@[ix as int].1.wf());
        let characters: &CharacterSet = &self.input.large_character_sets[ix].1;
        let ranges: Vec<(u32, u32)> = characters.character_ranges();
        let ghost all = character_ranges(characters.ranges@).map_values(
            |range: (u32, u32)| ParserInput::character_range_row(range),
        );
        let mut rows: TextList = TextList::new();
        let mut i: usize = 0;
        assert(rows@ =~= all.take(0));
        while i < ranges.len()
            invariant
                ranges@ == character_ranges(characters.ranges@),
                all == character_ranges(characters.ranges@).map_values(
                    |range: (u32, u32)| ParserInput::character_range_row(range),
                ),
                i <= ranges@.len(),
                rows@ == all.take(i as int),
            decreases ranges@.len() - i,
        {
            let (first, last): (u32, u32) = ranges[i];
            rows.push(
                concat5(
                    "CharacterRange { start: ",
                    character_i32(first).as_str(),
                    ", end: ",
                    character_i32(last).as_str(),
                    " },",
                ),
            );
            i += 1;
            assert(rows@ =~= all.take(i as int));
        }
        assert(all.take(i as int) =~= all);
        let count: String = count_text(rows.len());
        assert(self.large_set_names@[ix as int] == self.input.large_set_id(ix as int));
        let head: String = concat5(
            "static ",
            self.large_set_names.lines[ix].as_str(),
            ": [CharacterRange; ",
            count.as_str(),
            "] = [",
        );
        out.add_array(head, &rows);
    }

    /// Adds the large sets of characters that are used, and the lex functions.
    #[verifier::rlimit(40)]
    pub fn add_lexers(&self, out: &mut TextList)
        requires
            self.wf(),
        ensures
            final(out)@ == old(out)@ + self.input.lexer_lines(),
    {
        let ghost start = out@;
        let mut used: Vec<bool> = Vec::new();
        let mut n: usize = 0;
        while n < self.input.large_character_sets.len()
            invariant
                n <= self.input.large_character_sets@.len(),
                used@.len() == n,
                forall|ix: int| 0 <= ix < n ==> !#[trigger] used@[ix],
            decreases self.input.large_character_sets@.len() - n,
        {
            used.push(false);
            n += 1;
        }
        let mut functions: TextList = TextList::new();
        self.add_lex_function("ts_lex", &self.input.main_lex_table, &mut used, &mut functions);
        if self.input.syntax_grammar.word_token.is_some() {
            self.add_lex_function(
                "ts_lex_keywords",
                &self.input.keyword_lex_table,
                &mut used,
                &mut functions,
            );
        }
        let mut ix: usize = 0;
        assert(out@ =~= start + self.input.character_sets_lines(0));
        while ix < self.input.large_character_sets.len()
            invariant
                self.wf(),
                ix <= self.input.large_character_sets@.len(),
                used@.len() == self.input.large_character_sets@.len(),
                forall|ix: int|
                    0 <= ix < used@.len() ==> #[trigger] used@[ix] == self.input.is_large_set_used(
                        ix,
                    ),
                out@ == start + self.input.character_sets_lines(ix as nat),
            decreases self.input.large_character_sets@.len() - ix,
        {
            self.add_character_set(ix, used[ix], out);
            ix += 1;
            assert(out@ =~= start + self.input.character_sets_lines(ix as nat));
        }
        out.append(functions);
        assert(out@ =~= start + self.input.lexer_lines());
    }
}

} // verus!
