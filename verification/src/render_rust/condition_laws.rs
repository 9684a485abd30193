//! How the tests of the lex functions are written, and what is looked up in place of them.
use vstd::prelude::*;

use crate::nfa::{
    character_ranges, codepoints, is_canonical, lemma_simplified_upto, ranges_of, simplified,
    CharacterSet, CodepointRange, END,
};
use crate::render_rust::conditions::{
    character_text, conditions_upto, range_conditions, CharacterTest,
};
use crate::render_rust::input::ParserInput;
use crate::render_rust::lexer::{
    advance_map_lines, advance_map_rows, advance_map_rows_of, is_leading_count, is_narrow,
    is_simple,
    leading_count, leading_range_count, ruled_out, shown_ranges, Condition,
};
use crate::render_rust::lexer_laws::{lemma_leading_count_exists, lemma_ranges_exist};
use crate::render_rust::literal_laws::{hexadecimal_value, lemma_padded_value};
use crate::render_rust::names::uppercase;
use crate::rules::Symbol;
use crate::tables::{AdvanceAction, LexState, LexTable};
use crate::text::{decimal, hexadecimal, indent, line, lines_at, zero_padded};
use crate::text_laws::{has_array, has_block, lemma_array, lemma_peel, padding_adds_zeros};

verus! {

/// A character is written as a literal if it is printable, in which quotes and backslashes are
/// escaped, and else as its number.
pub proof fn characters_are_written(c: u32)
    ensures
        c == 0 ==> character_text(c) == "0"@,
        c == 39 ==> character_text(c) == "'\\'' as i32"@,
        c == 92 ==> character_text(c) == "'\\\\' as i32"@,
        32 <= c < 127 && c != 39 && c != 92 ==> character_text(c) == "'"@ + seq![c as char]
            + "' as i32"@,
        0 < c < 32 || 127 <= c ==> {
            &&& character_text(c).len() >= 4
            &&& character_text(c).take(2) == "0x"@
            &&& hexadecimal_value(character_text(c).skip(2)) == Some(c as nat)
        },
{
    if 0 < c < 32 || 127 <= c {
        let digits = zero_padded(hexadecimal(c as nat), 2);
        reveal_strlit("0x");
        lemma_padded_value(c as nat, 2);
        padding_adds_zeros(hexadecimal(c as nat), 2);
        assert(character_text(c) == "0x"@ + digits);
        assert(character_text(c).take(2) =~= "0x"@);
        assert(character_text(c).skip(2) =~= digits);
    }
}

/// The test that the next character is in a range, or that it is not.
pub proof fn range_tests_are_written(start: u32, end: u32, line_break: Seq<char>)
    requires
        start <= end < 0x110000,
    ensures
        ({
            let a = character_text(start);
            let b = character_text(end);
            let yes = CharacterTest::of_range((start, end), true).text(line_break);
            let no = CharacterTest::of_range((start, end), false).text(line_break);
            &&& start == 0 && end == 0 ==> yes == "(!eof && lookahead == 0"@ + "0"@ + ")"@
            &&& start == 0 && end > 0 ==> yes == "(!eof && lookahead <= "@ + b + ")"@
            &&& start > 0 && end == start ==> yes == "lookahead == "@ + a
            &&& start > 0 && end == start + 1 ==> yes == "lookahead == "@ + a + " ||"@ + line_break
                + "lookahead == "@ + b
            &&& start > 0 && end > start + 1 ==> yes == "("@ + a + " <= lookahead && lookahead <= "@
                + b + ")"@
            &&& end == start ==> no == "lookahead != "@ + a
            &&& end == start + 1 ==> no == "lookahead != "@ + a + " &&"@ + line_break
                + "lookahead != "@ + b
            &&& start == 0 && end > 1 ==> no == "lookahead > "@ + b
            &&& start > 0 && end > start + 1 && 32 <= end < 127 ==> no == "(lookahead < "@ + a
                + " || "@ + ("("@ + b + ")"@) + " < lookahead)"@
            &&& start > 0 && end > start + 1 && !(32 <= end < 127) ==> no == "(lookahead < "@ + a
                + " || "@ + b + " < lookahead)"@
        }),
{
}

/// The tests for ranges are the tests for each of them, any of which or all of which must hold.
pub proof fn range_tests_are_joined(
    ranges: Seq<(u32, u32)>,
    last: (u32, u32),
    is_included: bool,
    line_break: Seq<char>,
)
    ensures
        range_conditions(Seq::empty(), is_included, line_break) == Seq::<char>::empty(),
        ({
            let before = range_conditions(ranges, is_included, line_break);
            let test = CharacterTest::of_range(last, is_included).text(line_break);
            range_conditions(ranges.push(last), is_included, line_break) == if ranges.len() == 0 {
                test
            } else if is_included {
                before + " ||"@ + line_break + test
            } else {
                before + " &&"@ + line_break + test
            }
        }),
{
    let all = ranges.push(last);
    lemma_same_conditions(ranges, all, is_included, line_break, ranges.len());
    assert(conditions_upto(all, is_included, line_break, 0) == Seq::<char>::empty());
    if ranges.len() == 0 {
        let test = CharacterTest::of_range(last, is_included).text(line_break);
        assert(Seq::<char>::empty() + test =~= test);
    }
}

proof fn lemma_same_conditions(
    a: Seq<(u32, u32)>,
    b: Seq<(u32, u32)>,
    is_included: bool,
    line_break: Seq<char>,
    n: nat,
)
    requires
        n <= a.len(),
        n <= b.len(),
        forall|i: int| 0 <= i < n ==> #[trigger] a[i] == b[i],
    ensures
        conditions_upto(a, is_included, line_break, n) == conditions_upto(
            b,
            is_included,
            line_break,
            n,
        ),
    decreases n,
{
    if n > 0 {
        lemma_same_conditions(a, b, is_included, line_break, (n - 1) as nat);
    }
}

/// The pieces are what the given ranges, which have the given code points, are simplified to.
pub open spec fn is_simplified_by(
    pieces: Seq<CodepointRange>,
    ranges: Seq<CodepointRange>,
    chars: Set<int>,
    ignored: Set<int>,
) -> bool {
    is_canonical(ranges) && codepoints(ranges) == chars && pieces == simplified(ranges, ignored)
}

/// The pieces are what the ranges of the given code points are simplified to.
pub open spec fn is_simplified_from(
    pieces: Seq<CodepointRange>,
    chars: Set<int>,
    ignored: Set<int>,
) -> bool {
    exists|ranges: Seq<CodepointRange>| is_simplified_by(pieces, ranges, chars, ignored)
}

proof fn lemma_within(ranges: Seq<CodepointRange>)
    requires
        is_canonical(ranges),
    ensures
        forall|c: int| #[trigger] codepoints(ranges).contains(c) ==> 0 <= c < END,
{
}

/// The break between the parts of a condition.
pub open spec fn deep_break() -> Seq<char> {
    "\n"@ + indent(6)
}

impl ParserInput {
    /// What a condition asks of a large set, at the end of the input only if the set does not have
    /// the character with code point 0.
    pub open spec fn set_test(&self, ix: int) -> Seq<char> {
        let test = "set_contains(&"@ + self.large_set_id(ix) + ", lookahead)"@;
        if self.large_character_sets@[ix].1@.contains(0) {
            "(!eof && "@ + test + ")"@
        } else {
            test
        }
    }

    /// What a condition asks of the asserted ranges.
    pub open spec fn asserted_test(&self, condition: Condition) -> Seq<char> {
        let (ranges, is_included) = shown_ranges(condition.asserted);
        range_conditions(character_ranges(ranges), is_included, deep_break())
    }

    /// What a condition asks of the negated ranges.
    pub open spec fn negated_test(&self, condition: Condition) -> Seq<char> {
        range_conditions(character_ranges(condition.negated), false, deep_break())
    }

    /// A condition asks that the character be in its large set or in the asserted ranges, and that
    /// it be in none of the negated ones; what there is not, it does not ask.
    pub proof fn conditions_are_written(&self, condition: Condition)
        requires
            condition.has_tests(),
        ensures
            ({
                let text = self.condition_text(condition);
                let set = self.set_test(condition.large_set->0);
                let asserted = self.asserted_test(condition);
                let negated = self.negated_test(condition);
                let has_set = condition.large_set is Some;
                let has_asserted = condition.asserted.len() > 0;
                let has_negated = condition.negated.len() > 0;
                &&& has_set && !has_asserted && !has_negated ==> text == "if "@ + set + " {"@
                &&& !has_set && has_asserted && !has_negated ==> text == "if "@ + asserted + " {"@
                &&& !has_set && !has_asserted && has_negated ==> text == "if "@ + negated + " {"@
                &&& has_set && has_asserted && !has_negated ==> text == "if "@ + set + " ||"@
                    + deep_break() + asserted + " {"@
                &&& has_set && !has_asserted && has_negated ==> text == "if ("@ + set + ") &&"@
                    + deep_break() + negated + " {"@
                &&& !has_set && has_asserted && has_negated ==> text == "if ("@ + asserted
                    + ") &&"@ + deep_break() + negated + " {"@
                &&& has_set && has_asserted && has_negated ==> text == "if ("@ + set + " ||"@
                    + deep_break() + asserted + ") &&"@ + deep_break() + negated + " {"@
            }),
    {
    }

    /// How many ranges are still tested if the large set is used for the given ones.
    pub open spec fn ranges_left(&self, ranges: Seq<CodepointRange>, ignored: Set<int>, ix: int) -> nat {
        self.additions(ranges, ignored, ix).len() + self.removals(ranges, ignored, ix).len()
    }

    /// The large set shares a character with the given ranges and leaves fewer to be tested.
    pub open spec fn saves_tests(&self, ranges: Seq<CodepointRange>, ignored: Set<int>, ix: int) -> bool {
        &&& self.ranges_left(ranges, ignored, ix) < ranges.len()
        &&& exists|c: int| #[trigger]
            codepoints(ranges).contains(c) && self.large_character_sets@[ix].1@.contains(c)
    }

    /// The large set that a transition uses, if it uses one: it shares a character with the
    /// transition, leaves fewer ranges to be tested than the transition has, and no large set leaves
    /// fewer; of those that leave as few, it is the last. A transition with at least eight ranges
    /// uses one if there is any that saves tests, and no other transition does.
    pub proof fn large_sets_are_used(&self, state: LexState, k: int, ix: int)
        requires
            0 <= ix < self.large_character_sets@.len(),
        ensures
            ({
                let ignored = ruled_out(state, k);
                let ranges = simplified(state.advance_actions@[k].0.ranges@, ignored);
                let used = self.transition_condition(state, k).large_set;
                let best = self.ranges_left(ranges, ignored, used->0);
                let other = self.ranges_left(ranges, ignored, ix);
                &&& ranges.len() < 8 ==> used is None
                &&& ranges.len() >= 8 && self.saves_tests(ranges, ignored, ix) ==> used is Some && (
                best < other || (best == other && ix <= used->0))
                &&& used is Some ==> 0 <= used->0 < self.large_character_sets@.len()
                    && self.saves_tests(ranges, ignored, used->0)
            }),
    {
        let ignored = ruled_out(state, k);
        let ranges = simplified(state.advance_actions@[k].0.ranges@, ignored);
        self.lemma_saves_tests(ranges, ignored, ix);
        if self.best_large_set(ranges, ignored) is Some {
            self.lemma_best_large_set(ranges, ignored);
            self.lemma_saves_tests(ranges, ignored, self.best_large_set(ranges, ignored)->0);
        }
    }

    proof fn lemma_saves_tests(&self, ranges: Seq<CodepointRange>, ignored: Set<int>, ix: int)
        requires
            0 <= ix < self.large_character_sets@.len(),
        ensures
            self.is_candidate(ranges, ignored, ix) == self.saves_tests(ranges, ignored, ix),
    {
        let common = codepoints(ranges).intersect(self.large_set(ix));
        if self.saves_tests(ranges, ignored, ix) {
            let c = choose|c: int| #[trigger]
                codepoints(ranges).contains(c) && self.large_character_sets@[ix].1@.contains(c);
            assert(common.contains(c));
        } else if !exists|c: int| #[trigger]
            codepoints(ranges).contains(c) && self.large_character_sets@[ix].1@.contains(c) {
            assert(common =~= Set::<int>::empty());
        }
    }

    /// Without a large set a condition asserts the ranges of its transition, simplified by what
    /// earlier transitions rule out. With one it asserts what the set lacks of these, and negates
    /// what the set has beyond them, both simplified in the same way.
    pub proof fn conditions_have_the_ranges_of_transitions(&self, state: LexState, k: int)
        requires
            self.is_consistent(),
            state.wf(),
            0 <= k < state.advance_actions@.len(),
        ensures
            ({
                let ignored = ruled_out(state, k);
                let ranges = simplified(state.advance_actions@[k].0.ranges@, ignored);
                let condition = self.transition_condition(state, k);
                &&& condition.large_set is None ==> condition.asserted == ranges
                    && condition.negated.len() == 0
                &&& condition.large_set matches Some(ix) ==> {
                    let set = self.large_character_sets@[ix].1@;
                    &&& is_simplified_from(
                        condition.asserted,
                        codepoints(ranges).difference(set),
                        ignored,
                    )
                    &&& is_simplified_from(
                        condition.negated,
                        set.difference(codepoints(ranges)),
                        ignored,
                    )
                }
            }),
    {
        let ignored = ruled_out(state, k);
        let own = state.advance_actions@[k].0;
        let ranges = simplified(own.ranges@, ignored);
        if let Some(ix) = self.transition_condition(state, k).large_set {
            self.lemma_best_large_set(ranges, ignored);
            let set = self.large_character_sets@[ix].1;
            assert(own.wf());
            lemma_simplified_upto(own.ranges@, ignored, own.ranges@.len());
            lemma_within(ranges);
            lemma_within(set.ranges@);
            let added = codepoints(ranges).difference(set@);
            let removed = set@.difference(codepoints(ranges));
            lemma_ranges_exist(added);
            lemma_ranges_exist(removed);
            assert(is_simplified_by(
                self.additions(ranges, ignored, ix),
                ranges_of(added),
                added,
                ignored,
            ));
            assert(is_simplified_by(
                self.removals(ranges, ignored, ix),
                ranges_of(removed),
                removed,
                ignored,
            ));
        }
    }

    /// A large set that some transition uses is in the rendered parser, with a row for each of its
    /// ranges of characters.
    pub proof fn large_sets_are_rendered(
        &self,
        name: Seq<char>,
        table: LexTable,
        i: int,
        k: int,
        r: int,
    )
        requires
            table == self.main_lex_table || (table == self.keyword_lex_table
                && self.syntax_grammar.word_token is Some),
            0 <= i < table.states@.len(),
            leading_count(table.states@[i]) <= k < table.states@[i].advance_actions@.len(),
            self.transition_condition(table.states@[i], k).large_set is Some,
        ensures
            ({
                let ix = self.transition_condition(table.states@[i], k).large_set->0;
                let ranges = character_ranges(self.large_character_sets@[ix].1.ranges@);
                let rows = self.large_set_rows(ix);
                &&& has_array(
                    self.parser_lines(name),
                    "static "@ + self.large_set_id(ix) + ": [CharacterRange; "@ + decimal(
                        ranges.len(),
                    ) + "] = ["@,
                    rows,
                )
                &&& rows.len() == ranges.len()
                &&& 0 <= r < ranges.len() ==> rows[r] == "CharacterRange { start: "@
                    + character_text(ranges[r].0) + ", end: "@ + character_text(ranges[r].1)
                    + " },"@
            }),
    {
        let ix = self.transition_condition(table.states@[i], k).large_set->0;
        let state = table.states@[i];
        let all = self.parser_lines(name);
        let ignored = ruled_out(state, k);
        let ranges = simplified(state.advance_actions@[k].0.ranges@, ignored);
        self.lemma_best_large_set(ranges, ignored);
        assert(self.state_uses(state, state.advance_actions@.len() as int, ix));
        assert(self.table_uses(table, table.states@.len() as int, ix));
        assert(self.is_large_set_used(ix));
        let n = self.large_character_sets@.len();
        let sets = self.character_sets_lines(n);
        let main = self.lex_function_lines("ts_lex"@, self.main_lex_table);
        let keywords = if self.syntax_grammar.word_token is Some {
            self.lex_function_lines("ts_lex_keywords"@, self.keyword_lex_table)
        } else {
            Seq::empty()
        };
        self.sections_are_rendered(name);
        lemma_peel(all, sets + main, keywords);
        lemma_peel(all, sets, main);
        self.lemma_set_block(all, n, ix);
        lemma_array(
            all,
            "static "@ + self.large_set_id(ix) + ": [CharacterRange; "@ + decimal(
                character_ranges(self.large_character_sets@[ix].1.ranges@).len(),
            ) + "] = ["@,
            self.large_set_rows(ix),
        );
    }

    /// The rows of a large set.
    pub open spec fn large_set_rows(&self, ix: int) -> Seq<Seq<char>> {
        character_ranges(self.large_character_sets@[ix].1.ranges@).map_values(
            |range: (u32, u32)| ParserInput::character_range_row(range),
        )
    }

    proof fn lemma_set_block(&self, all: Seq<Seq<char>>, n: nat, ix: int)
        requires
            0 <= ix < n,
            has_block(all, self.character_sets_lines(n)),
        ensures
            has_block(all, self.character_set_lines(ix)),
        decreases n,
    {
        lemma_peel(
            all,
            self.character_sets_lines((n - 1) as nat),
            self.character_set_lines(n - 1),
        );
        if ix < n - 1 {
            self.lemma_set_block(all, (n - 1) as nat, ix);
        }
    }

    /// The places of the large sets of a symbol among the first `n`.
    pub open spec fn sets_before(&self, symbol: Option<Symbol>, n: int) -> Set<int> {
        Set::new(|j: int| 0 <= j < n && self.large_character_sets@[j].0 == symbol)
    }

    /// A large set is called after its symbol, or after the extras if it has none, and numbered from
    /// one on among the sets of that symbol.
    pub proof fn large_sets_are_named(&self, ix: int)
        requires
            0 <= ix < self.large_character_sets@.len(),
        ensures
            ({
                let of = self.large_character_sets@[ix].0;
                let number = decimal(self.sets_before(of, ix).len() + 1);
                &&& self.sets_before(of, ix).finite()
                &&& of matches Some(symbol) ==> self.large_set_id(ix) == uppercase(self.id(symbol))
                    + "_CHARACTER_SET_"@ + number
                &&& of is None ==> self.large_set_id(ix) == "EXTRAS_CHARACTER_SET_"@ + number
            }),
    {
        self.lemma_earlier_sets(self.large_character_sets@[ix].0, ix as nat);
    }

    proof fn lemma_earlier_sets(&self, symbol: Option<Symbol>, n: nat)
        requires
            n <= self.large_character_sets@.len(),
        ensures
            self.sets_before(symbol, n as int).finite(),
            self.sets_before(symbol, n as int).len() == self.earlier_large_sets(symbol, n),
        decreases n,
    {
        let all = self.sets_before(symbol, n as int);
        if n == 0 {
            assert(all =~= Set::<int>::empty());
        } else {
            let before = self.sets_before(symbol, n - 1);
            self.lemma_earlier_sets(symbol, (n - 1) as nat);
            if self.large_character_sets@[n - 1].0 == symbol {
                assert(all =~= before.insert(n - 1));
            } else {
                assert(all =~= before);
            }
        }
    }
}

/// The transition takes its character for one of the token, and each of its ranges has one or two
/// characters of at most sixteen bits.
pub open spec fn is_table_transition(transition: (CharacterSet, AdvanceAction)) -> bool {
    let ranges = character_ranges(transition.0.ranges@);
    &&& transition.1.in_main_token
    &&& forall|i: int|
        0 <= i < ranges.len() ==> (#[trigger] ranges[i]).1 <= ranges[i].0 + 1 && ranges[i].1
            <= 0xFFFF
}

/// The number of ranges of the first `n` transitions.
pub open spec fn ranges_before(state: LexState, n: int) -> nat
    decreases n,
{
    if n <= 0 {
        0
    } else {
        ranges_before(state, n - 1) + state.advance_actions@[n - 1].0.ranges@.len()
    }
}

/// The leading transitions with small ranges are looked up in a table if they have at least eight
/// ranges together, and else none is.
pub proof fn leading_transitions_are_looked_up(state: LexState, n: int)
    requires
        0 <= n <= state.advance_actions@.len(),
        forall|k: int| 0 <= k < n ==> is_table_transition(#[trigger] state.advance_actions@[k]),
        n < state.advance_actions@.len() ==> !is_table_transition(state.advance_actions@[n]),
    ensures
        leading_count(state) == if ranges_before(state, n) >= 8 {
            n
        } else {
            0
        },
{
    assert forall|k: int| 0 <= k < state.advance_actions@.len() implies is_simple(
        #[trigger] state.advance_actions@[k],
    ) == is_table_transition(state.advance_actions@[k]) by {
        lemma_same_simple(state.advance_actions@[k]);
    }
    lemma_leading_count_exists(state);
    let m = choose|m: int| is_leading_count(state, m);
    if m < n {
        assert(is_table_transition(state.advance_actions@[m]));
    } else if n < m {
        assert(is_simple(state.advance_actions@[n]));
    }
    lemma_range_total(state, n);
}

proof fn lemma_same_simple(transition: (CharacterSet, AdvanceAction))
    ensures
        is_simple(transition) == is_table_transition(transition),
{
    let ranges = character_ranges(transition.0.ranges@);
    if is_simple(transition) {
        assert forall|i: int| 0 <= i < ranges.len() implies (#[trigger] ranges[i]).1 <= ranges[i].0
            + 1 && ranges[i].1 <= 0xFFFF by {
            assert(is_narrow(
                character_ranges(transition.0.ranges@)[i],
            ));
        }
    }
    if is_table_transition(transition) {
        assert forall|i: int|
            0 <= i < ranges.len() implies is_narrow(
            #[trigger] character_ranges(transition.0.ranges@)[i],
        ) by {
            assert(ranges[i].1 <= ranges[i].0 + 1);
        }
    }
}

proof fn lemma_range_total(state: LexState, n: int)
    ensures
        leading_range_count(state, n) == ranges_before(state, n),
    decreases n,
{
    if n > 0 {
        lemma_range_total(state, n - 1);
    }
}

/// The rows of the first `n` ranges of a transition: one for each end of each range.
pub open spec fn end_rows(ranges: Seq<(u32, u32)>, target: nat, n: int) -> Seq<Seq<char>>
    decreases n,
{
    if n <= 0 {
        Seq::empty()
    } else {
        let (first, last) = ranges[n - 1];
        let before = end_rows(ranges, target, n - 1);
        let row = |c: u32| "("@ + character_text(c) + ", "@ + decimal(target) + "),"@;
        if first < last {
            before.push(row(first)).push(row(last))
        } else {
            before.push(row(first))
        }
    }
}

/// What is looked up has the rows of the leading transitions, one transition after another.
pub proof fn looked_up_rows_follow_transitions(state: LexState, k: int)
    requires
        0 <= k < state.advance_actions@.len(),
    ensures
        advance_map_rows(state, 0) == Seq::<Seq<char>>::empty(),
        ({
            let (set, action) = state.advance_actions@[k];
            let ranges = character_ranges(set.ranges@);
            advance_map_rows(state, k + 1) == advance_map_rows(state, k) + end_rows(
                ranges,
                action.state as nat,
                ranges.len() as int,
            )
        }),
{
    let (set, action) = state.advance_actions@[k];
    let ranges = character_ranges(set.ranges@);
    lemma_end_rows(ranges, action.state, ranges.len());
}

proof fn lemma_end_rows(ranges: Seq<(u32, u32)>, target: usize, n: nat)
    ensures
        advance_map_rows_of(ranges, target, n) == end_rows(ranges, target as nat, n as int),
    decreases n,
{
    if n > 0 {
        lemma_end_rows(ranges, target, (n - 1) as nat);
        assert(advance_map_rows_of(ranges, target, n) =~= end_rows(
            ranges,
            target as nat,
            n as int,
        ));
    } else {
        assert(advance_map_rows_of(ranges, target, n) =~= end_rows(
            ranges,
            target as nat,
            n as int,
        ));
    }
}

/// How what is looked up is written.
pub proof fn lookups_are_written(state: LexState)
    ensures
        leading_count(state) == 0 ==> advance_map_lines(state) == Seq::<Seq<char>>::empty(),
        leading_count(state) != 0 ==> advance_map_lines(state) == seq![
            line(4, "const ADVANCE_MAP: &[(i32, StateId)] = &["@),
        ] + lines_at(5, advance_map_rows(state, leading_count(state))) + seq![
            line(4, "];"@),
            line(4, "for &(ch, next) in ADVANCE_MAP {"@),
            line(5, "if lookahead == ch {"@),
            line(6, "state = next;"@),
            line(6, "lexer.advance(skip);"@),
            line(6, "continue 'next_state;"@),
            line(5, "}"@),
            line(4, "}"@),
        ],
{
}

} // verus!
