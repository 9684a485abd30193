//! What the lex functions of every rendered parser decide.
use vstd::prelude::*;

use crate::nfa::{
    character_bounds, character_ranges, codepoints, covers, is_canonical,
    lemma_covers_push, lemma_simplified_upto, range_has, ranges_of, simplified, CharacterSet,
    CodepointRange, END,
};
use crate::render_rust::conditions::{
    character_text, conditions_hold, lemma_character_ranges, range_conditions_decide_membership, LAST_CHARACTER,
};
use crate::render_rust::input::ParserInput;
use crate::render_rust::lexer::{
    advance_map_range_rows, advance_map_rows, advance_map_rows_of, is_leading_count, is_narrow,
    is_simple, leading_count, ruled_out, shown_ranges, Condition,
};
use crate::runtime::{in_range, in_ranges, ranges_sorted, CharacterRange};
use crate::tables::{LexState, LexTable};
use crate::text::{decimal, line};

verus! {

/// The next character is one: a code point that is no surrogate.
pub open spec fn is_character(c: int) -> bool {
    0 <= c < END && !(0xD800 <= c < 0xE000)
}

/// A set of characters as it is rendered.
pub open spec fn rendered_ranges(set: CharacterSet) -> Seq<CharacterRange> {
    character_ranges(set.ranges@).map_values(
        |range: (u32, u32)| CharacterRange { start: range.0 as i32, end: range.1 as i32 },
    )
}

impl ParserInput {
    /// What a rendered condition says of the next character.
    pub open spec fn condition_holds(
        &self,
        condition: Condition,
        lookahead: int,
        eof: bool,
    ) -> bool {
        let (ranges, is_included) = shown_ranges(condition.asserted);
        let in_large_set = match condition.large_set {
            Some(ix) => {
                let set = self.large_character_sets@[ix].1;
                &&& set@.contains(0) ==> !eof
                &&& in_ranges(rendered_ranges(set), lookahead)
            },
            None => false,
        };
        let is_asserted = condition.asserted.len() > 0 && conditions_hold(
            character_ranges(ranges),
            is_included,
            lookahead,
            eof,
        );
        let is_positive = condition.large_set is Some || condition.asserted.len() > 0;
        let is_negative = condition.negated.len() > 0;
        &&& is_positive ==> in_large_set || is_asserted
        &&& is_negative ==> conditions_hold(
            character_ranges(condition.negated),
            false,
            lookahead,
            eof,
        )
    }

    /// Before the end of the input, on a character that no earlier transition is taken on, a
    /// conditional transition is taken if and only if the character is in its set. On null this
    /// holds of transitions that are not tested by what they leave out.
    pub proof fn transition_is_taken_on_its_characters(
        &self,
        state: LexState,
        k: int,
        lookahead: int,
    )
        requires
            self.is_consistent(),
            state.wf(),
            0 <= k < state.advance_actions@.len(),
            is_character(lookahead),
            lookahead == 0 ==> !codepoints(
                self.transition_condition(state, k).asserted,
            ).contains(LAST_CHARACTER as int),
            !ruled_out(state, k).contains(lookahead),
            self.transition_condition(state, k).has_tests(),
        ensures
            self.condition_holds(self.transition_condition(state, k), lookahead, false)
                == state.advance_actions@[k].0@.contains(lookahead),
    {
        let ignored = ruled_out(state, k);
        let set = state.advance_actions@[k].0;
        assert(set.wf());
        let ranges = simplified(set.ranges@, ignored);
        let condition = self.transition_condition(state, k);
        lemma_simplified(set.ranges@, ignored);
        assert(covers(ranges, lookahead) == covers(set.ranges@, lookahead));
        match self.best_large_set(ranges, ignored) {
            Some(ix) => {
                self.lemma_best_large_set(ranges, ignored);
                let large = self.large_character_sets@[ix].1;
                assert(large.wf());
                large_set_can_be_searched(large, lookahead);
                let added = codepoints(ranges).difference(large@);
                let removed = large@.difference(codepoints(ranges));
                lemma_bounded(ranges);
                large.lemma_codepoints();
                lemma_ranges_exist(added);
                lemma_ranges_exist(removed);
                lemma_simplified(ranges_of(added), ignored);
                lemma_simplified(ranges_of(removed), ignored);
                assert(covers(ranges_of(added), lookahead) == added.contains(lookahead)) by {
                    assert(codepoints(ranges_of(added)).contains(lookahead) == covers(
                        ranges_of(added),
                        lookahead,
                    ));
                }
                assert(covers(ranges_of(removed), lookahead) == removed.contains(lookahead)) by {
                    assert(codepoints(ranges_of(removed)).contains(lookahead) == covers(
                        ranges_of(removed),
                        lookahead,
                    ));
                }
                lemma_asserted(condition.asserted, lookahead);
                range_conditions_decide_membership(condition.negated, false, lookahead, false);
                lemma_no_ranges(condition.asserted, lookahead);
                lemma_no_ranges(condition.negated, lookahead);
            },
            None => {
                lemma_asserted(condition.asserted, lookahead);
                lemma_no_ranges(condition.asserted, lookahead);
            },
        }
    }

    /// A lex state goes by the first transition whose set has the next character: where the tests
    /// of the transitions are made one by one, those before it fail, and its own succeeds.
    pub proof fn first_transition_is_taken(&self, state: LexState, k: int, lookahead: int)
        requires
            self.is_consistent(),
            state.wf(),
            leading_count(state) <= k < state.advance_actions@.len(),
            is_character(lookahead),
            lookahead != 0,
            state.advance_actions@[k].0@.contains(lookahead),
            forall|j: int|
                0 <= j < k ==> !(#[trigger] state.advance_actions@[j]).0@.contains(lookahead),
            forall|j: int|
                leading_count(state) <= j < k ==> (#[trigger] self.transition_condition(
                    state,
                    j,
                )).has_tests(),
        ensures
            self.transition_condition(state, k).has_tests(),
            self.condition_holds(self.transition_condition(state, k), lookahead, false),
            forall|j: int|
                leading_count(state) <= j < k ==> !self.condition_holds(
                    #[trigger] self.transition_condition(state, j),
                    lookahead,
                    false,
                ),
    {
        lemma_leading_count_exists(state);
        lemma_ruled_out(state, k, lookahead);
        let set = state.advance_actions@[k].0;
        let ignored = ruled_out(state, k);
        assert(set.wf());
        lemma_simplified(set.ranges@, ignored);
        lemma_no_ranges(simplified(set.ranges@, ignored), lookahead);
        assert(covers(set.ranges@, lookahead));
        assert(self.transition_condition(state, k).has_tests());
        self.transition_is_taken_on_its_characters(state, k, lookahead);
        assert forall|j: int| leading_count(state) <= j < k implies !self.condition_holds(
            #[trigger] self.transition_condition(state, j),
            lookahead,
            false,
        ) by {
            lemma_ruled_out(state, j, lookahead);
            self.transition_is_taken_on_its_characters(state, j, lookahead);
            assert(!state.advance_actions@[j].0@.contains(lookahead));
        }
    }

    /// At the end of the input, where the next character reads as null, no conditional transition
    /// is taken.
    pub proof fn nothing_is_taken_at_the_end(&self, state: LexState, k: int)
        requires
            self.is_consistent(),
            self.transition_condition(state, k).has_tests(),
        ensures
            !self.condition_holds(self.transition_condition(state, k), 0, true),
    {
        let ignored = ruled_out(state, k);
        let ranges = simplified(state.advance_actions@[k].0.ranges@, ignored);
        let condition = self.transition_condition(state, k);
        if self.best_large_set(ranges, ignored) is Some {
            self.lemma_best_large_set(ranges, ignored);
            let large = self.large_character_sets@[condition.large_set->0].1;
            assert(self.large_character_sets@[condition.large_set->0].1.wf());
            large_set_can_be_searched(large, 0);
        }
        if codepoints(condition.asserted).contains(LAST_CHARACTER as int) {
            let others = Set::new(
                |c: int|
                    (0 <= c < END && !codepoints(condition.asserted).contains(c)) || c == 0,
            );
            lemma_ranges_exist(others);
            assert(codepoints(ranges_of(others)).contains(0) == covers(ranges_of(others), 0));
            range_conditions_decide_membership(ranges_of(others), false, 0, true);
        }
    }

    /// The best large set is one, and worth being used.
    pub proof fn lemma_best_large_set(&self, ranges: Seq<CodepointRange>, ignored: Set<int>)
        requires
            self.best_large_set(ranges, ignored) is Some,
        ensures
            self.is_best_large_set(
                ranges,
                ignored,
                self.large_character_sets@.len() as int,
                self.best_large_set(ranges, ignored)->0,
            ),
    {
        let n = self.large_character_sets@.len() as int;
        let best = self.some_best_large_set(ranges, ignored, n);
        assert(self.is_best_large_set(ranges, ignored, n, best));
    }

    /// If there is a large set that is worth being used, there is a best one.
    proof fn some_best_large_set(&self, ranges: Seq<CodepointRange>, ignored: Set<int>, n: int) -> (
    best: int)
        requires
            0 <= n,
        ensures
            self.is_best_large_set(ranges, ignored, n, best) || forall|ix: int|
                0 <= ix < n ==> !#[trigger] self.is_candidate(ranges, ignored, ix),
        decreases n,
    {
        if n == 0 {
            0
        } else {
            let before = self.some_best_large_set(ranges, ignored, n - 1);
            if !self.is_candidate(ranges, ignored, n - 1) {
                before
            } else if self.is_best_large_set(ranges, ignored, n - 1, before)
                && self.large_set_cost(ranges, ignored, before) < self.large_set_cost(
                ranges,
                ignored,
                n - 1,
            ) {
                before
            } else {
                n - 1
            }
        }
    }

    /// A large set that is used is worth it: with it, fewer ranges are tested than without, and
    /// no other large set leaves fewer to be tested.
    pub proof fn large_set_is_worth_it(&self, state: LexState, k: int, other: int)
        requires
            self.transition_condition(state, k).large_set is Some,
        ensures
            ({
                let ignored = ruled_out(state, k);
                let ranges = simplified(state.advance_actions@[k].0.ranges@, ignored);
                let condition = self.transition_condition(state, k);
                let cost = condition.asserted.len() + condition.negated.len();
                &&& 0 <= condition.large_set->0 < self.large_character_sets@.len()
                &&& cost < ranges.len()
                &&& self.is_candidate(ranges, ignored, other) ==> cost <= self.large_set_cost(
                    ranges,
                    ignored,
                    other,
                )
            }),
    {
        let ignored = ruled_out(state, k);
        let ranges = simplified(state.advance_actions@[k].0.ranges@, ignored);
        self.lemma_best_large_set(ranges, ignored);
    }

    /// The table of leading transitions has a row for each of their characters.
    pub proof fn leading_transition_is_looked_up(&self, state: LexState, k: int, c: int)
        requires
            state.wf(),
            0 <= k < leading_count(state),
            is_character(c),
            state.advance_actions@[k].0@.contains(c),
        ensures
            advance_map_rows(state, leading_count(state)).contains(
                "("@ + character_text(c as u32) + ", "@ + decimal(
                    state.advance_actions@[k].1.state as nat,
                ) + "),"@,
            ),
    {
        lemma_leading_count_exists(state);
        lemma_advance_map(state, leading_count(state), k, c);
    }

    /// A lex function has an arm for each of its states.
    pub proof fn lex_function_has_all_states(&self, name: Seq<char>, table: LexTable, i: int)
        requires
            0 <= i < table.states@.len(),
        ensures
            self.lex_function_lines(name, table).contains(line(3, decimal(i as nat) + " => {"@)),
    {
        let arm = line(3, decimal(i as nat) + " => {"@);
        let states = self.lex_states_lines(table, table.states@.len());
        let place = self.lemma_arm(table, table.states@.len(), i);
        let head_len = self.lex_function_lines(name, table).len() - states.len() - 5;
        assert(self.lex_function_lines(name, table)[head_len + place] == arm);
    }

    /// The place of the arm of a state among the lines of the first `n` states.
    proof fn lemma_arm(&self, table: LexTable, n: nat, i: int) -> (place: int)
        requires
            0 <= i < n,
        ensures
            0 <= place < self.lex_states_lines(table, n).len(),
            self.lex_states_lines(table, n)[place] == line(3, decimal(i as nat) + " => {"@),
        decreases n,
    {
        let before = self.lex_states_lines(table, (n - 1) as nat);
        if i == n - 1 {
            assert(self.lex_states_lines(table, n)[before.len() as int] == line(
                3,
                decimal(i as nat) + " => {"@,
            ));
            before.len() as int
        } else {
            let place = self.lemma_arm(table, (n - 1) as nat, i);
            assert(self.lex_states_lines(table, n)[place] == before[place]);
            place
        }
    }
}

/// A character of none of the first `k` transitions is not ruled out.
proof fn lemma_ruled_out(state: LexState, k: int, c: int)
    requires
        k <= state.advance_actions@.len(),
        forall|j: int| 0 <= j < k ==> !(#[trigger] state.advance_actions@[j]).0@.contains(c),
    ensures
        !ruled_out(state, k).contains(c),
    decreases k,
{
    if k > 0 {
        lemma_ruled_out(state, k - 1, c);
        assert(!state.advance_actions@[k - 1].0@.contains(c));
    }
}

/// Some first transitions are simple, and no more than these.
pub proof fn lemma_leading_count_exists(state: LexState)
    ensures
        is_leading_count(state, choose|m: int| is_leading_count(state, m)),
{
    let m = some_leading_count(state, 0);
    assert(is_leading_count(state, m));
}

/// The first `m` transitions are simple; so how many are?
proof fn some_leading_count(state: LexState, m: int) -> (n: int)
    requires
        0 <= m <= state.advance_actions@.len(),
        forall|k: int| 0 <= k < m ==> is_simple(#[trigger] state.advance_actions@[k]),
    ensures
        is_leading_count(state, n),
    decreases state.advance_actions@.len() - m,
{
    if m < state.advance_actions@.len() && is_simple(state.advance_actions@[m]) {
        some_leading_count(state, m + 1)
    } else {
        m
    }
}

/// The rows of the first `n` simple transitions have their characters.
proof fn lemma_advance_map(state: LexState, n: int, k: int, c: int)
    requires
        state.wf(),
        0 <= k < n <= state.advance_actions@.len(),
        is_simple(state.advance_actions@[k]),
        is_character(c),
        state.advance_actions@[k].0@.contains(c),
    ensures
        advance_map_rows(state, n).contains(
            "("@ + character_text(c as u32) + ", "@ + decimal(
                state.advance_actions@[k].1.state as nat,
            ) + "),"@,
        ),
    decreases n,
{
    let row = "("@ + character_text(c as u32) + ", "@ + decimal(
        state.advance_actions@[k].1.state as nat,
    ) + "),"@;
    let before = advance_map_rows(state, n - 1);
    let after = advance_map_rows(state, n);
    if k < n - 1 {
        lemma_advance_map(state, n - 1, k, c);
        assert(after[before.index_of(row)] == row);
    } else {
        let (set, action) = state.advance_actions@[k];
        let ranges = set.ranges@;
        let chars = character_ranges(ranges);
        lemma_character_ranges(ranges);
        let i = choose|i: int| 0 <= i < ranges.len() && range_has(#[trigger] ranges[i], c);
        assert(state.advance_actions@[k].0.wf());
        let bounds = character_bounds(ranges[i])->0;
        assert(chars.contains(bounds));
        let j = chars.index_of(bounds);
        assert(chars[j] == bounds && is_narrow(chars[j]));
        let place = lemma_advance_map_rows(chars, action.state, chars.len(), j, c as u32);
        assert(after[before.len() + place] == row);
    }
}

/// The place of the row of a character among those of the first `n` ranges.
proof fn lemma_advance_map_rows(
    ranges: Seq<(u32, u32)>,
    target: usize,
    n: nat,
    j: int,
    c: u32,
) -> (place: int)
    requires
        0 <= j < n <= ranges.len(),
        ranges[j].0 <= ranges[j].1,
        c == ranges[j].0 || c == ranges[j].1,
    ensures
        0 <= place < advance_map_rows_of(ranges, target, n).len(),
        advance_map_rows_of(ranges, target, n)[place] == "("@ + character_text(c) + ", "@ + decimal(
            target as nat,
        ) + "),"@,
    decreases n,
{
    let before = advance_map_rows_of(ranges, target, (n - 1) as nat);
    let after = advance_map_rows_of(ranges, target, n);
    if j < n - 1 {
        let place = lemma_advance_map_rows(ranges, target, (n - 1) as nat, j, c);
        assert(after[place] == before[place]);
        place
    } else if c == ranges[j].0 {
        assert(after[before.len() as int] == advance_map_range_rows(ranges[j], target)[0]);
        before.len() as int
    } else {
        assert(after[before.len() as int + 1] == advance_map_range_rows(ranges[j], target)[1]);
        before.len() as int + 1
    }
}

/// A rendered set of characters is sorted, so that it can be searched, and has the characters of
/// the set.
pub proof fn large_set_can_be_searched(set: CharacterSet, lookahead: int)
    requires
        set.wf(),
        is_character(lookahead),
    ensures
        ranges_sorted(rendered_ranges(set)),
        in_ranges(rendered_ranges(set), lookahead) == set@.contains(lookahead),
{
    let ranges = set.ranges@;
    let chars = character_ranges(ranges);
    let rendered = rendered_ranges(set);
    lemma_character_ranges(ranges);
    lemma_characters_sorted(ranges);
    assert forall|i: int, j: int| 0 <= i <= j < rendered.len() implies (
    #[trigger] rendered[i]).start <= (#[trigger] rendered[j]).start && rendered[i].end
        <= rendered[j].end by {
        assert(chars[i].0 <= chars[j].0 && chars[i].1 <= chars[j].1);
        assert(chars[j].0 <= chars[j].1 < END && chars[i].0 <= chars[i].1 < END);
    }
    if covers(ranges, lookahead) {
        let i = choose|i: int| 0 <= i < ranges.len() && range_has(#[trigger] ranges[i], lookahead);
        let bounds = character_bounds(ranges[i])->0;
        assert(chars.contains(bounds));
        let k = chars.index_of(bounds);
        assert(in_range(rendered[k], lookahead));
    }
    if in_ranges(rendered, lookahead) {
        let k = choose|k: int| 0 <= k < rendered.len() && in_range(#[trigger] rendered[k], lookahead);
        assert(chars.contains(chars[k]));
        let i = choose|i: int|
            0 <= i < ranges.len() && character_bounds(#[trigger] ranges[i]) == Some(chars[k]);
        assert(chars[k].0 <= chars[k].1 < END);
        assert(range_has(ranges[i], lookahead));
    }
}

/// The character ranges of canonical ranges are sorted.
proof fn lemma_characters_sorted(ranges: Seq<CodepointRange>)
    requires
        is_canonical(ranges),
    ensures
        forall|i: int|
            0 <= i < character_ranges(ranges).len() ==> (#[trigger] character_ranges(ranges)[i]).0
                <= character_ranges(ranges)[i].1 < END,
        forall|i: int, j: int|
            0 <= i <= j < character_ranges(ranges).len() ==> (#[trigger] character_ranges(
                ranges,
            )[i]).0 <= (#[trigger] character_ranges(ranges)[j]).0 && character_ranges(ranges)[i].1
                <= character_ranges(ranges)[j].1,
        ranges.len() > 0 && character_ranges(ranges).len() > 0 ==> character_ranges(ranges).last().1
            < ranges.last().end,
    decreases ranges.len(),
{
    reveal(Seq::filter_map);
    if ranges.len() > 0 {
        let shorter = ranges.drop_last();
        lemma_characters_sorted(shorter);
        let before = character_ranges(shorter);
        let after = character_ranges(ranges);
        let last = ranges.last();
        if shorter.len() > 0 {
            assert(ranges[ranges.len() - 2].end < ranges[ranges.len() - 1].start);
        }
        match character_bounds(last) {
            Some(bounds) => {
                assert(after =~= before.push(bounds));
                assert forall|i: int, j: int| 0 <= i <= j < after.len() implies (
                #[trigger] after[i]).0 <= (#[trigger] after[j]).0 && after[i].1 <= after[j].1 by {
                    if j < before.len() {
                        assert(before[i].0 <= before[j].0);
                    } else if i < before.len() {
                        let m = before.len() - 1;
                        assert(before[i].0 <= before[m].0 && before[i].1 <= before[m].1);
                    }
                }
            },
            None => {
                assert(after =~= before);
            },
        }
    }
}

/// Simplified ranges are canonical, and have the same code points but for ignored ones.
proof fn lemma_simplified(ranges: Seq<CodepointRange>, ignored: Set<int>)
    requires
        is_canonical(ranges),
    ensures
        is_canonical(simplified(ranges, ignored)),
        forall|c: int|
            !ignored.contains(c) ==> #[trigger] covers(simplified(ranges, ignored), c) == covers(
                ranges,
                c,
            ),
{
    lemma_simplified_upto(ranges, ignored, ranges.len());
    assert(ranges.take(ranges.len() as int) =~= ranges);
}

/// Without ranges there is no code point.
proof fn lemma_no_ranges(ranges: Seq<CodepointRange>, c: int)
    ensures
        ranges.len() == 0 ==> !covers(ranges, c),
{
}

/// Canonical ranges have code points only.
proof fn lemma_bounded(ranges: Seq<CodepointRange>)
    requires
        is_canonical(ranges),
    ensures
        forall|c: int| #[trigger] codepoints(ranges).contains(c) ==> 0 <= c < END,
{
}

/// A set of code points has canonical ranges.
pub proof fn lemma_ranges_exist(s: Set<int>)
    requires
        forall|c: int| #[trigger] s.contains(c) ==> 0 <= c < END,
    ensures
        is_canonical(ranges_of(s)),
        codepoints(ranges_of(s)) == s,
{
    let ranges = some_ranges(s, END as int);
    assert forall|c: int| codepoints(ranges).contains(c) == s.contains(c) by {
        assert(covers(ranges, c) == (s.contains(c) && 0 <= c < END));
    }
    assert(codepoints(ranges) =~= s);
    assert(is_canonical(ranges) && codepoints(ranges) == s);
}

/// The canonical ranges of the code points of a set that are less than `n`.
proof fn some_ranges(s: Set<int>, n: int) -> (ranges: Seq<CodepointRange>)
    requires
        0 <= n <= END,
    ensures
        is_canonical(ranges),
        ranges.len() > 0 ==> ranges.last().end <= n,
        forall|c: int| #[trigger] covers(ranges, c) == (s.contains(c) && 0 <= c < n),
    decreases n,
{
    if n == 0 {
        Seq::empty()
    } else {
        let before = some_ranges(s, n - 1);
        if !s.contains(n - 1) {
            assert forall|c: int| #[trigger] covers(before, c) == (s.contains(c) && 0 <= c < n) by {}
            before
        } else if before.len() > 0 && before.last().end == n - 1 {
            let last = CodepointRange { start: before.last().start, end: n as u32 };
            let ranges = before.drop_last().push(last);
            assert(before =~= before.drop_last().push(before.last()));
            assert forall|c: int| #[trigger] covers(ranges, c) == (s.contains(c) && 0 <= c < n) by {
                lemma_covers_push(before.drop_last(), last, c);
                lemma_covers_push(before.drop_last(), before.last(), c);
                assert(covers(before, c) == (s.contains(c) && 0 <= c < n - 1));
            }
            ranges
        } else {
            let last = CodepointRange { start: (n - 1) as u32, end: n as u32 };
            let ranges = before.push(last);
            assert forall|c: int| #[trigger] covers(ranges, c) == (s.contains(c) && 0 <= c < n) by {
                lemma_covers_push(before, last, c);
                assert(covers(before, c) == (s.contains(c) && 0 <= c < n - 1));
            }
            ranges
        }
    }
}

/// The tests for asserted ranges say whether a character is in them.
proof fn lemma_asserted(asserted: Seq<CodepointRange>, lookahead: int)
    requires
        is_canonical(asserted),
        is_character(lookahead),
        lookahead == 0 ==> !codepoints(asserted).contains(LAST_CHARACTER as int),
    ensures
        conditions_hold(
            character_ranges(shown_ranges(asserted).0),
            shown_ranges(asserted).1,
            lookahead,
            false,
        ) == covers(asserted, lookahead),
{
    if codepoints(asserted).contains(LAST_CHARACTER as int) {
        let others = Set::new(
            |c: int| (0 <= c < END && !codepoints(asserted).contains(c)) || c == 0,
        );
        lemma_ranges_exist(others);
        assert(codepoints(ranges_of(others)).contains(lookahead) == covers(
            ranges_of(others),
            lookahead,
        ));
        assert(codepoints(asserted).contains(lookahead) == covers(asserted, lookahead));
        range_conditions_decide_membership(ranges_of(others), false, lookahead, false);
    } else {
        range_conditions_decide_membership(asserted, true, lookahead, false);
    }
}

} // verus!
