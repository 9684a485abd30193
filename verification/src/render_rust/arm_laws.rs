//! What the lex functions of a rendered parser do in each lex state.
use vstd::prelude::*;

use crate::render_rust::input::ParserInput;
use crate::render_rust::lexer::{
    advance_lines, advance_map_lines, advance_map_rows, leading_count, Condition,
};
use crate::tables::{AdvanceAction, LexState, LexTable};
use crate::text::{decimal, line, lines_at};
use crate::text_laws::{
    has_block, is_block_at, lemma_peel, lemma_whole_block, lines_are_indented,
};

verus! {

/// The lines that accept a token with the given identifier.
pub open spec fn accepting(id: Seq<char>) -> Seq<Seq<char>> {
    seq![
        line(4, "result = true;"@),
        line(4, "lexer.set_result_symbol("@ + id + ");"@),
        line(4, "lexer.mark_end();"@),
    ]
}

/// The line is one by which a token is accepted.
pub open spec fn is_accepting(l: Seq<char>) -> bool {
    ||| l == line(4, "result = true;"@)
    ||| l == line(4, "lexer.mark_end();"@)
    ||| exists|id: Seq<char>| l == #[trigger] line(4, "lexer.set_result_symbol("@ + id + ");"@)
}

/// The lines by which a lexer goes to a state, at the given nesting level.
pub open spec fn going_to(state: nat, level: nat) -> Seq<Seq<char>> {
    seq![
        line(level, "state = "@ + decimal(state) + ";"@),
        line(level, "lexer.advance(skip);"@),
        line(level, "continue 'next_state;"@),
    ]
}

/// The lines that accept the token with the given identifier, if there is one.
pub open spec fn accepting_some(id: Option<Seq<char>>) -> Seq<Seq<char>> {
    match id {
        Some(id) => accepting(id),
        None => Seq::empty(),
    }
}

/// The lines by which a lexer goes to a state at the end of the input, if there is such a state.
pub open spec fn going_at_end(state: Option<nat>) -> Seq<Seq<char>> {
    match state {
        Some(state) => seq![line(4, "if eof {"@)] + going_to(state, 5) + seq![line(4, "}"@)],
        None => Seq::empty(),
    }
}

/// The lines by which a lexer goes to a state, without taking the character for one of the token if
/// it is skipped.
pub open spec fn stepping_to(state: nat, is_skipped: bool, level: nat) -> Seq<Seq<char>> {
    if is_skipped {
        seq![line(level, "skip = true;"@)] + going_to(state, level)
    } else {
        going_to(state, level)
    }
}

/// The lines by which a lexer goes to a state under a condition, if there is one.
pub open spec fn stepping_if(condition: Option<Seq<char>>, state: nat, is_skipped: bool) -> Seq<
    Seq<char>,
> {
    match condition {
        Some(text) => seq![line(4, text)] + stepping_to(state, is_skipped, 5) + seq![
            line(4, "}"@),
        ],
        None => stepping_to(state, is_skipped, 4),
    }
}

/// The line does not accept: it begins with something else at the level of an arm.
pub open spec fn is_step_line(l: Seq<char>) -> bool {
    &&& l.len() > 16
    &&& l[16] != 'r'
    &&& l[16] == 'l' ==> l.len() > 22 && l[22] == 'a'
}

/// All lines are such lines.
pub open spec fn are_step_lines(lines: Seq<Seq<char>>) -> bool {
    forall|i: int| 0 <= i < lines.len() ==> is_step_line(#[trigger] lines[i])
}

impl ParserInput {
    /// The arm of lex state `i` begins by accepting the state's token if it has one, whatever else
    /// the state does. Then it says what to do at the end of the input, if there is something, then
    /// comes what to do on characters, and then the function returns. No line but the first three
    /// of a state with a token accepts one.
    pub proof fn lex_states_accept_their_tokens(
        &self,
        function: Seq<char>,
        table: LexTable,
        i: int,
    )
        requires
            0 <= i < table.states@.len(),
        ensures
            ({
                let state = table.states@[i];
                let steps = self.step_lines(state);
                let accept = accepting_some(
                    match state.accept_action {
                        Some(symbol) => Some(self.id(symbol)),
                        None => None,
                    },
                );
                let eof = going_at_end(
                    match state.eof_action {
                        Some(action) => Some(action.state as nat),
                        None => None,
                    },
                );
                &&& has_block(
                    self.lex_function_lines(function, table),
                    seq![line(3, decimal(i as nat) + " => {"@)] + accept + eof + steps + seq![
                        line(4, "return result;"@),
                        line(3, "}"@),
                    ],
                )
                &&& forall|x: int|
                    0 <= x < (eof + steps).len() ==> !is_accepting(#[trigger] (eof + steps)[x])
            }),
    {
        let state = table.states@[i];
        let lines = self.lex_function_lines(function, table);
        let steps = self.step_lines(state);
        let accept = accepting_some(
            match state.accept_action {
                Some(symbol) => Some(self.id(symbol)),
                None => None,
            },
        );
        let eof = going_at_end(
            match state.eof_action {
                Some(action) => Some(action.state as nat),
                None => None,
            },
        );
        self.lemma_states_block(function, table);
        self.lemma_arm_block(lines, table, table.states@.len(), i);
        assert(self.accept_lines(state) =~= accept);
        assert(self.eof_lines(state) =~= eof);
        let head = seq![line(3, decimal(i as nat) + " => {"@)];
        let tail = seq![line(4, "return result;"@), line(3, "}"@)];
        assert(head + self.lex_state_lines(state) + tail =~= head + accept + eof + steps + tail);
        self.lemma_step_lines(state);
        assert(are_step_lines(eof)) by {
            if state.eof_action is Some {
                let action = state.eof_action->0;
                lemma_level_four("if eof {"@);
                lemma_level_five("state = "@ + decimal(action.state as nat) + ";"@);
                lemma_level_five("lexer.advance(skip);"@);
                lemma_level_five("continue 'next_state;"@);
                lemma_level_four("}"@);
                reveal_strlit("if eof {");
                reveal_strlit("}");
            }
        }
        assert forall|x: int| 0 <= x < (eof + steps).len() implies !is_accepting(
            #[trigger] (eof + steps)[x],
        ) by {
            if x < eof.len() {
                assert((eof + steps)[x] == eof[x]);
            } else {
                assert((eof + steps)[x] == steps[x - eof.len()]);
            }
            lemma_not_accepting((eof + steps)[x]);
        }
    }

    /// What an arm says of characters: first what is looked up, then the other transitions.
    pub open spec fn step_lines(&self, state: LexState) -> Seq<Seq<char>> {
        advance_map_lines(state) + self.transitions_lines(
            state,
            state.advance_actions@.len() as int,
        )
    }

    proof fn lemma_states_block(&self, function: Seq<char>, table: LexTable)
        ensures
            has_block(
                self.lex_function_lines(function, table),
                self.lex_states_lines(table, table.states@.len()),
            ),
    {
        let lines = self.lex_function_lines(function, table);
        let states = self.lex_states_lines(table, table.states@.len());
        assert(lines.len() == states.len() + 15);
        assert forall|x: int| 0 <= x < states.len() implies #[trigger] lines[10 + x]
            == states[x] by {}
        assert(lines.subrange(10, 10 + states.len() as int) =~= states);
        assert(is_block_at(lines, states, 10));
    }

    proof fn lemma_arm_block(&self, lines: Seq<Seq<char>>, table: LexTable, n: nat, i: int)
        requires
            0 <= i < n <= table.states@.len(),
            has_block(lines, self.lex_states_lines(table, n)),
        ensures
            has_block(
                lines,
                seq![line(3, decimal(i as nat) + " => {"@)] + self.lex_state_lines(
                    table.states@[i],
                ) + seq![line(4, "return result;"@), line(3, "}"@)],
            ),
        decreases n,
    {
        let before = self.lex_states_lines(table, (n - 1) as nat);
        let arm = seq![line(3, decimal((n - 1) as nat) + " => {"@)] + self.lex_state_lines(
            table.states@[n - 1],
        ) + seq![line(4, "return result;"@), line(3, "}"@)];
        assert(self.lex_states_lines(table, n) =~= before + arm);
        lemma_peel(lines, before, arm);
        if i < n - 1 {
            self.lemma_arm_block(lines, table, (n - 1) as nat, i);
        }
    }

    /// The lex functions are in the rendered parser: one for tokens, and where the grammar has a
    /// word token, one for keywords.
    pub proof fn lex_functions_are_rendered(&self, name: Seq<char>)
        ensures
            has_block(
                self.parser_lines(name),
                self.lex_function_lines("ts_lex"@, self.main_lex_table),
            ),
            self.syntax_grammar.word_token is Some ==> has_block(
                self.parser_lines(name),
                self.lex_function_lines("ts_lex_keywords"@, self.keyword_lex_table),
            ),
    {
        let all = self.parser_lines(name);
        let sets = self.character_sets_lines(self.large_character_sets@.len());
        let main = self.lex_function_lines("ts_lex"@, self.main_lex_table);
        let keywords = if self.syntax_grammar.word_token is Some {
            self.lex_function_lines("ts_lex_keywords"@, self.keyword_lex_table)
        } else {
            Seq::empty()
        };
        self.sections_are_rendered(name);
        lemma_peel(all, sets + main, keywords);
        lemma_peel(all, sets, main);
    }

    /// Each transition of a state that is not looked up stands in the state's arm: its condition,
    /// if it has one, and within that, that the character is skipped if it is not of the token, and
    /// the state to go to.
    pub proof fn transitions_are_rendered(&self, state: LexState, k: int)
        requires
            leading_count(state) <= k < state.advance_actions@.len(),
        ensures
            ({
                let condition = self.transition_condition(state, k);
                let action = state.advance_actions@[k].1;
                has_block(
                    self.step_lines(state),
                    stepping_if(
                        if condition.has_tests() {
                            Some(self.condition_text(condition))
                        } else {
                            None
                        },
                        action.state as nat,
                        !action.in_main_token,
                    ),
                )
            }),
    {
        let lines = self.step_lines(state);
        let n = state.advance_actions@.len() as int;
        lemma_whole_block(lines);
        lemma_peel(lines, advance_map_lines(state), self.transitions_lines(state, n));
        self.lemma_transition_block(lines, state, n, k);
        let condition = self.transition_condition(state, k);
        let action = state.advance_actions@[k].1;
        assert(self.transition_lines(state, k) =~= stepping_if(
            if condition.has_tests() {
                Some(self.condition_text(condition))
            } else {
                None
            },
            action.state as nat,
            !action.in_main_token,
        ));
    }

    proof fn lemma_transition_block(&self, lines: Seq<Seq<char>>, state: LexState, n: int, k: int)
        requires
            leading_count(state) <= k < n,
            has_block(lines, self.transitions_lines(state, n)),
        ensures
            has_block(lines, self.transition_lines(state, k)),
        decreases n,
    {
        lemma_peel(
            lines,
            self.transitions_lines(state, n - 1),
            self.transition_lines(state, n - 1),
        );
        if k < n - 1 {
            self.lemma_transition_block(lines, state, n - 1, k);
        }
    }

    /// The tests of the transitions come in the order of the transitions.
    pub proof fn transitions_are_in_order(&self, state: LexState, n: int)
        requires
            leading_count(state) < n <= state.advance_actions@.len(),
        ensures
            self.transitions_lines(state, leading_count(state)) == Seq::<Seq<char>>::empty(),
            self.transitions_lines(state, n) == self.transitions_lines(state, n - 1)
                + self.transition_lines(state, n - 1),
    {
    }

    /// No line of what an arm says of characters accepts.
    proof fn lemma_step_lines(&self, state: LexState)
        ensures
            are_step_lines(self.step_lines(state)),
    {
        lemma_map_lines(state);
        self.lemma_transition_lines(state, state.advance_actions@.len() as int);
        lemma_step_lines_concat(
            advance_map_lines(state),
            self.transitions_lines(state, state.advance_actions@.len() as int),
        );
    }

    proof fn lemma_transition_lines(&self, state: LexState, n: int)
        requires
            n <= state.advance_actions@.len(),
        ensures
            are_step_lines(self.transitions_lines(state, n)),
        decreases n - leading_count(state),
    {
        if n > leading_count(state) {
            let k = n - 1;
            let condition = self.transition_condition(state, k);
            let action = state.advance_actions@[k].1;
            self.lemma_transition_lines(state, n - 1);
            if condition.has_tests() {
                let head = seq![line(4, self.condition_text(condition))];
                let tail = seq![line(4, "}"@)];
                self.lemma_condition_begins(condition);
                lemma_level_four(self.condition_text(condition));
                lemma_level_four("}"@);
                reveal_strlit("}");
                lemma_advance(action, 5);
                assert(are_step_lines(head));
                assert(are_step_lines(tail));
                lemma_step_lines_concat(head, advance_lines(action, 5));
                lemma_step_lines_concat(head + advance_lines(action, 5), tail);
            } else {
                lemma_advance(action, 4);
            }
            lemma_step_lines_concat(
                self.transitions_lines(state, n - 1),
                self.transition_lines(state, n - 1),
            );
        }
    }

    /// A condition begins with the word for one.
    proof fn lemma_condition_begins(&self, condition: Condition)
        ensures
            self.condition_text(condition).len() > 1,
            self.condition_text(condition)[0] == 'i',
    {
        reveal_strlit("if (");
        reveal_strlit("if ");
    }
}

/// The lines of a step to another state do not accept.
proof fn lemma_advance(action: AdvanceAction, level: nat)
    requires
        level == 4 || level == 5,
    ensures
        are_step_lines(advance_lines(action, level)),
{
    let target = "state = "@ + decimal(action.state as nat) + ";"@;
    reveal_strlit("skip = true;");
    reveal_strlit("state = ");
    reveal_strlit("lexer.advance(skip);");
    reveal_strlit("continue 'next_state;");
    if level == 4 {
        lemma_level_four("skip = true;"@);
        lemma_level_four(target);
        lemma_level_four("lexer.advance(skip);"@);
        lemma_level_four("continue 'next_state;"@);
    } else {
        lemma_level_five("skip = true;"@);
        lemma_level_five(target);
        lemma_level_five("lexer.advance(skip);"@);
        lemma_level_five("continue 'next_state;"@);
    }
}

/// The lines of what is looked up do not accept.
proof fn lemma_map_lines(state: LexState)
    ensures
        are_step_lines(advance_map_lines(state)),
{
    if leading_count(state) != 0 {
        let rows = advance_map_rows(state, leading_count(state));
        let head = seq![line(4, "const ADVANCE_MAP: &[(i32, StateId)] = &["@)];
        let tail = seq![
            line(4, "];"@),
            line(4, "for &(ch, next) in ADVANCE_MAP {"@),
            line(5, "if lookahead == ch {"@),
            line(6, "state = next;"@),
            line(6, "lexer.advance(skip);"@),
            line(6, "continue 'next_state;"@),
            line(5, "}"@),
            line(4, "}"@),
        ];
        reveal_strlit("const ADVANCE_MAP: &[(i32, StateId)] = &[");
        reveal_strlit("];");
        reveal_strlit("for &(ch, next) in ADVANCE_MAP {");
        reveal_strlit("}");
        lemma_level_four("const ADVANCE_MAP: &[(i32, StateId)] = &["@);
        lemma_level_four("];"@);
        lemma_level_four("for &(ch, next) in ADVANCE_MAP {"@);
        lemma_level_four("}"@);
        lemma_level_five("if lookahead == ch {"@);
        lemma_level_five("}"@);
        lines_are_indented(6, "state = next;"@);
        lines_are_indented(6, "lexer.advance(skip);"@);
        lines_are_indented(6, "continue 'next_state;"@);
        assert(line(6, "state = next;"@)[16] == ' ');
        assert(line(6, "lexer.advance(skip);"@)[16] == ' ');
        assert(line(6, "continue 'next_state;"@)[16] == ' ');
        assert(are_step_lines(head));
        assert(are_step_lines(tail));
        assert forall|x: int| 0 <= x < lines_at(5, rows).len() implies is_step_line(
            #[trigger] lines_at(5, rows)[x],
        ) by {
            lemma_level_five(rows[x]);
        }
        lemma_step_lines_concat(head, lines_at(5, rows));
        lemma_step_lines_concat(head + lines_at(5, rows), tail);
    }
}

/// Where the content of a line at the level of an arm stands.
proof fn lemma_level_four(content: Seq<char>)
    ensures
        line(4, content).len() == 16 + content.len(),
        content.len() > 0 ==> line(4, content)[16] == content[0],
        content.len() > 6 ==> line(4, content)[22] == content[6],
{
    lines_are_indented(4, content);
    let skipped = line(4, content).skip(16);
    if content.len() > 0 {
        assert(skipped[0] == line(4, content)[16]);
    }
    if content.len() > 6 {
        assert(skipped[6] == line(4, content)[22]);
    }
}

/// A deeper line has a blank there.
proof fn lemma_level_five(content: Seq<char>)
    ensures
        line(5, content).len() == 20 + content.len(),
        line(5, content)[16] == ' ',
        is_step_line(line(5, content)),
{
    lines_are_indented(5, content);
}

proof fn lemma_step_lines_concat(a: Seq<Seq<char>>, b: Seq<Seq<char>>)
    requires
        are_step_lines(a),
        are_step_lines(b),
    ensures
        are_step_lines(a + b),
{
    assert forall|x: int| 0 <= x < (a + b).len() implies is_step_line(#[trigger] (a + b)[x]) by {
        if x < a.len() {
            assert((a + b)[x] == a[x]);
        } else {
            assert((a + b)[x] == b[x - a.len()]);
        }
    }
}

/// Such a line does not accept.
proof fn lemma_not_accepting(l: Seq<char>)
    requires
        is_step_line(l),
    ensures
        !is_accepting(l),
{
    reveal_strlit("result = true;");
    reveal_strlit("lexer.mark_end();");
    reveal_strlit("lexer.set_result_symbol(");
    lemma_level_four("result = true;"@);
    lemma_level_four("lexer.mark_end();"@);
    if exists|id: Seq<char>| l == #[trigger] line(4, "lexer.set_result_symbol("@ + id + ");"@) {
        let id = choose|id: Seq<char>|
            l == #[trigger] line(4, "lexer.set_result_symbol("@ + id + ");"@);
        lemma_level_four("lexer.set_result_symbol("@ + id + ");"@);
    }
}

} // verus!
