//! What a rendered parser says of its states: which are alike, how they lex, which words they
//! reserve, and which external tokens they accept.
use vstd::prelude::*;

use crate::order::{first_index, is_first, lemma_first_index};
use crate::render_rust::generator::RustGenerator;
use crate::render_rust::input::{ParserInput, ABI_VERSION_WITH_RESERVED_WORDS};
use crate::render_rust::names::{external_token_id, external_token_identifier};
use crate::render_rust::symbols::longest;
use crate::rules::{Symbol, TokenSet};
use crate::tables::ParseState;
use crate::text::{
    array_lines, concat3, concat5, concat7, count_text, decimal, truth, truth_text, TextList,
};

verus! {

/// The set has a token with the given index.
pub open spec fn has_index(tokens: Seq<Symbol>, index: int) -> bool {
    exists|k: int| 0 <= k < tokens.len() && (#[trigger] tokens[k]).index == index
}

impl ParserInput {
    /// The first state that has the same core as state `i`.
    pub open spec fn primary_state(&self, i: int) -> int {
        first_index(self.states(), |state: ParseState| state.core_id == self.states()[i].core_id)
    }

    /// The first states of the states' cores.
    pub open spec fn primary_state_lines(&self) -> Seq<Seq<char>> {
        array_lines(
            "static TS_PRIMARY_STATE_IDS: [StateId; STATE_COUNT] = ["@,
            Seq::new(
                self.states().len(),
                |i: int|
                    "/* "@ + decimal(i as nat) + " */ "@ + decimal(self.primary_state(i) as nat)
                        + ","@,
            ),
        )
    }

    /// The number of a state's set of reserved words.
    pub open spec fn shown_reserved_word_set_id(&self, i: int) -> nat {
        if self.abi_version >= ABI_VERSION_WITH_RESERVED_WORDS {
            self.reserved_word_set_id(i) as nat
        } else {
            0
        }
    }

    /// The row that says how state `i` lexes.
    pub open spec fn lex_mode_row(&self, i: int) -> Seq<char> {
        let state = self.states()[i];
        if state.at_end_of_extra() {
            "/* "@ + decimal(i as nat)
                + " */ LexMode { lex_state: StateId::MAX, external_lex_state: 0, reserved_word_set_id: 0 },"@
        } else {
            "/* "@ + decimal(i as nat) + " */ LexMode { lex_state: "@ + decimal(
                state.lex_state_id as nat,
            ) + ", external_lex_state: "@ + decimal(state.external_lex_state_id as nat)
                + ", reserved_word_set_id: "@ + decimal(self.shown_reserved_word_set_id(i))
                + " },"@
        }
    }

    /// How the states lex.
    pub open spec fn lex_mode_lines(&self) -> Seq<Seq<char>> {
        array_lines(
            "static TS_LEX_MODES: [LexMode; STATE_COUNT] = ["@,
            Seq::new(self.states().len(), |i: int| self.lex_mode_row(i)),
        )
    }

    /// The rows of a set of reserved words, filled up with zeros.
    pub open spec fn reserved_word_set_rows(&self, i: int) -> Seq<Seq<char>> {
        let set = self.reserved_word_sets()[i];
        Seq::new(
            self.max_reserved_words(),
            |k: int|
                if k < set.len() {
                    "/* set "@ + decimal(i as nat) + " */ "@ + self.id(set[k]) + ","@
                } else {
                    "0,"@
                },
        )
    }

    /// The rows of the first `n` sets of reserved words.
    pub open spec fn reserved_word_rows(&self, n: nat) -> Seq<Seq<char>>
        decreases n,
    {
        if n == 0 {
            Seq::empty()
        } else {
            self.reserved_word_rows((n - 1) as nat) + self.reserved_word_set_rows(n - 1)
        }
    }

    /// The sets of reserved words.
    pub open spec fn reserved_word_lines(&self) -> Seq<Seq<char>> {
        let count = self.reserved_word_sets().len();
        let len = count * self.max_reserved_words();
        array_lines(
            "static TS_RESERVED_WORDS: [Symbol; "@ + decimal(
                if len == 0 {
                    1
                } else {
                    len
                },
            ) + "] = ["@,
            if len == 0 {
                seq!["0,"@]
            } else {
                self.reserved_word_rows(count)
            },
        )
    }

    /// There are sets of reserved words to be rendered.
    pub open spec fn has_reserved_words(&self) -> bool {
        self.abi_version >= ABI_VERSION_WITH_RESERVED_WORDS && self.reserved_word_sets().len() > 1
    }

    /// The identifier of external token `i`.
    pub open spec fn external_id(&self, i: int) -> Seq<char> {
        external_token_identifier(self.syntax_grammar.external_tokens@[i].name@)
    }

    /// The constants of the external tokens.
    pub open spec fn external_constant_lines(&self) -> Seq<Seq<char>> {
        Seq::new(
            self.syntax_grammar.external_tokens@.len(),
            |i: int|
                "const "@ + self.external_id(i) + ": usize = "@ + decimal(i as nat) + ";"@,
        ) + seq![""@]
    }

    /// What the external tokens are reported as.
    pub open spec fn external_symbol_lines(&self) -> Seq<Seq<char>> {
        array_lines(
            "static TS_EXTERNAL_SCANNER_SYMBOL_MAP: [Symbol; EXTERNAL_TOKEN_COUNT] = ["@,
            Seq::new(
                self.syntax_grammar.external_tokens@.len(),
                |i: int|
                    "/* "@ + self.external_id(i) + " */ "@ + self.id(self.scanner_symbol(i)) + ","@,
            ),
        )
    }

    /// The row that says whether external token `j` is accepted in external state `i`.
    pub open spec fn external_state_row(&self, i: int, j: int) -> Seq<char> {
        "/* ["@ + decimal(i as nat) + "]["@ + decimal(j as nat) + "] */ "@ + truth(
            has_index(self.parse_table.external_lex_states@[i]@, j),
        ) + ","@
    }

    /// The rows of the first `n` external states.
    pub open spec fn external_state_rows(&self, n: nat) -> Seq<Seq<char>>
        decreases n,
    {
        if n == 0 {
            Seq::empty()
        } else {
            self.external_state_rows((n - 1) as nat) + Seq::new(
                self.syntax_grammar.external_tokens@.len(),
                |j: int| self.external_state_row(n - 1, j),
            )
        }
    }

    /// Which external tokens are accepted in which external state.
    pub open spec fn external_state_lines(&self) -> Seq<Seq<char>> {
        let count = self.parse_table.external_lex_states@.len();
        let len = count * self.syntax_grammar.external_tokens@.len();
        array_lines(
            "static TS_EXTERNAL_SCANNER_STATES: [bool; "@ + decimal(
                if len == 0 {
                    1
                } else {
                    len
                },
            ) + "] = ["@,
            if len == 0 {
                seq!["false,"@]
            } else {
                self.external_state_rows(count)
            },
        )
    }
}

/// Tests whether a set has a token with the given index.
fn set_has_index(set: &TokenSet, index: usize) -> (r: bool)
    ensures
        r == has_index(set@, index as int),
{
    let mut i: usize = 0;
    while i < set.tokens.len()
        invariant
            i <= set@.len(),
            forall|k: int| 0 <= k < i ==> (#[trigger] set@[k]).index != index,
        decreases set@.len() - i,
    {
        if set.tokens[i].index == index {
            assert(set@[i as int].index == index);
            return true;
        }
        i += 1;
    }
    false
}

impl RustGenerator {
    /// The first state that has the same core as state `i`.
    fn primary_state(&self, i: usize) -> (r: usize)
        requires
            i < self.input.states().len(),
        ensures
            r == self.input.primary_state(i as int),
    {
        let states = &self.input.parse_table.states;
        let core_id: usize = states[i].core_id;
        let ghost pred = |state: ParseState| state.core_id == self.input.states()[i as int].core_id;
        let mut k: usize = 0;
        while states[k].core_id != core_id
            invariant
                k <= i < states@.len(),
                states@ == self.input.states(),
                core_id == states@[i as int].core_id,
                pred == (|state: ParseState|
                    state.core_id == self.input.states()[i as int].core_id),
                forall|j: int| 0 <= j < k ==> !pred(#[trigger] states@[j]),
            decreases i - k,
        {
            k += 1;
        }
        proof {
            assert(is_first(self.input.states(), pred, k as int));
            lemma_first_index(self.input.states(), pred, k as int);
        }
        k
    }

    /// Adds the first states of the states' cores.
    pub fn add_primary_state_id_list(&self, out: &mut TextList)
        requires
            self.wf(),
        ensures
            final(out)@ == old(out)@ + self.input.primary_state_lines(),
    {
        let ghost input = self.input;
        let ghost all = Seq::new(
            input.states().len(),
            |i: int|
                "/* "@ + decimal(i as nat) + " */ "@ + decimal(input.primary_state(i) as nat)
                    + ","@,
        );
        let mut rows: TextList = TextList::new();
        let mut i: usize = 0;
        assert(rows@ =~= all.take(0));
        while i < self.input.parse_table.states.len()
            invariant
                input == self.input,
                all == Seq::new(
                    input.states().len(),
                    |i: int|
                        "/* "@ + decimal(i as nat) + " */ "@ + decimal(
                            input.primary_state(i) as nat,
                        ) + ","@,
                ),
                i <= input.states().len(),
                rows@ == all.take(i as int),
            decreases input.states().len() - i,
        {
            let number: String = count_text(i);
            let primary: String = count_text(self.primary_state(i));
            let row: String = concat5("/* ", number.as_str(), " */ ", primary.as_str(), ",");
            assert(row@ == all[i as int]);
            rows.push(row);
            i += 1;
            assert(rows@ =~= all.take(i as int));
        }
        assert(all.take(i as int) =~= all);
        out.add_array(
            "static TS_PRIMARY_STATE_IDS: [StateId; STATE_COUNT] = [".to_owned(),
            &rows,
        );
    }

    /// The row that says how state `i` lexes.
    fn lex_mode_row(&self, i: usize) -> (r: String)
        requires
            self.wf(),
            i < self.input.states().len(),
        ensures
            r@ == self.input.lex_mode_row(i as int),
    {
        let state: &ParseState = &self.input.parse_table.states[i];
        let number: String = count_text(i);
        if state.is_end_of_non_terminal_extra() {
            concat3(
                "/* ",
                number.as_str(),
                " */ LexMode { lex_state: StateId::MAX, external_lex_state: 0, reserved_word_set_id: 0 },",
            )
        } else {
            let set_id: usize = if self.input.abi_version >= ABI_VERSION_WITH_RESERVED_WORDS {
                self.reserved_word_set_ids_by_parse_state[i]
            } else {
                0
            };
            let lex_state: String = count_text(state.lex_state_id);
            let external_lex_state: String = count_text(state.external_lex_state_id);
            let set: String = count_text(set_id);
            let mut r: String = concat7(
                "/* ",
                number.as_str(),
                " */ LexMode { lex_state: ",
                lex_state.as_str(),
                ", external_lex_state: ",
                external_lex_state.as_str(),
                ", reserved_word_set_id: ",
            );
            r.append(set.as_str());
            r.append(" },");
            r
        }
    }

    /// Adds how the states lex.
    pub fn add_lex_modes(&self, out: &mut TextList)
        requires
            self.wf(),
        ensures
            final(out)@ == old(out)@ + self.input.lex_mode_lines(),
    {
        let ghost input = self.input;
        let ghost all = Seq::new(input.states().len(), |i: int| input.lex_mode_row(i));
        let mut rows: TextList = TextList::new();
        let mut i: usize = 0;
        assert(rows@ =~= all.take(0));
        while i < self.input.parse_table.states.len()
            invariant
                self.wf(),
                input == self.input,
                all == Seq::new(input.states().len(), |i: int| input.lex_mode_row(i)),
                i <= input.states().len(),
                rows@ == all.take(i as int),
            decreases input.states().len() - i,
        {
            rows.push(self.lex_mode_row(i));
            i += 1;
            assert(rows@ =~= all.take(i as int));
        }
        assert(all.take(i as int) =~= all);
        out.add_array("static TS_LEX_MODES: [LexMode; STATE_COUNT] = [".to_owned(), &rows);
    }

    /// Adds the sets of reserved words.
    #[verifier::rlimit(40)]
    pub fn add_reserved_word_sets(&self, out: &mut TextList)
        requires
            self.wf(),
            self.input.abi_version >= ABI_VERSION_WITH_RESERVED_WORDS,
        ensures
            final(out)@ == old(out)@ + self.input.reserved_word_lines(),
    {
        let ghost input = self.input;
        let ghost sets = input.reserved_word_sets();
        let max_size: usize = self.max_reserved_words();
        proof {
            input.lemma_reserved_words(input.states().len());
            assert(self.reserved_word_sets@.len() == sets.len());
        }
        let mut rows: TextList = TextList::new();
        let mut i: usize = 0;
        while i < self.reserved_word_sets.len()
            invariant
                self.wf(),
                input == self.input,
                sets == input.reserved_word_sets(),
                max_size == input.max_reserved_words(),
                input.are_identified(sets),
                self.reserved_word_sets@.len() == sets.len(),
                i <= sets.len(),
                rows@ == input.reserved_word_rows(i as nat),
                rows@.len() == i * max_size,
            decreases sets.len() - i,
        {
            let set: &TokenSet = &self.reserved_word_sets[i];
            assert(sets[i as int] == self.reserved_word_sets@[i as int]@);
            let number: String = count_text(i);
            let ghost before = rows@;
            let ghost added = input.reserved_word_set_rows(i as int);
            proof {
                lemma_longest(sets, i as int);
                assert(input.is_identified(sets[i as int]));
            }
            let mut k: usize = 0;
            assert(rows@ =~= before + added.take(0));
            while k < max_size
                invariant
                    self.wf(),
                    input == self.input,
                    set@ == input.reserved_word_sets()[i as int],
                    max_size == input.max_reserved_words(),
                    input.is_identified(set@),
                    number@ == decimal(i as nat),
                    added == input.reserved_word_set_rows(i as int),
                    k <= max_size,
                    rows@ == before + added.take(k as int),
                decreases max_size - k,
            {
                let row: String = if k < set.tokens.len() {
                    assert(input.has_identifier(set@[k as int]));
                    concat5(
                        "/* set ",
                        number.as_str(),
                        " */ ",
                        self.symbol_id(set.tokens[k]),
                        ",",
                    )
                } else {
                    "0,".to_owned()
                };
                assert(row@ == added[k as int]);
                rows.push(row);
                k += 1;
                assert(rows@ =~= before + added.take(k as int));
            }
            proof {
                assert(added.take(k as int) =~= added);
                assert((i + 1) * max_size == i * max_size + max_size) by (nonlinear_arith);
            }
            i += 1;
        }
        if rows.len() == 0 {
            rows.push("0,".to_owned());
            assert(rows@ =~= seq!["0,"@]);
        }
        let count: String = count_text(rows.len());
        out.add_array(
            concat3("static TS_RESERVED_WORDS: [Symbol; ", count.as_str(), "] = ["),
            &rows,
        );
    }

    /// Adds the constants of the external tokens.
    pub fn add_external_token_constants(&self, out: &mut TextList)
        requires
            self.wf(),
        ensures
            final(out)@ == old(out)@ + self.input.external_constant_lines(),
    {
        let ghost start = out@;
        let ghost input = self.input;
        let ghost all = Seq::new(
            input.syntax_grammar.external_tokens@.len(),
            |i: int|
                "const "@ + input.external_id(i) + ": usize = "@ + decimal(i as nat) + ";"@,
        );
        let mut i: usize = 0;
        assert(out@ =~= start + all.take(0));
        while i < self.input.syntax_grammar.external_tokens.len()
            invariant
                input == self.input,
                all == Seq::new(
                    input.syntax_grammar.external_tokens@.len(),
                    |i: int|
                        "const "@ + input.external_id(i) + ": usize = "@ + decimal(i as nat)
                            + ";"@,
                ),
                i <= input.syntax_grammar.external_tokens@.len(),
                out@ == start + all.take(i as int),
            decreases input.syntax_grammar.external_tokens@.len() - i,
        {
            let id: String = external_token_id(
                self.input.syntax_grammar.external_tokens[i].name.as_str(),
            );
            let number: String = count_text(i);
            let row: String = concat5("const ", id.as_str(), ": usize = ", number.as_str(), ";");
            assert(row@ == all[i as int]);
            out.push(row);
            i += 1;
            assert(out@ =~= start + all.take(i as int));
        }
        assert(all.take(i as int) =~= all);
        out.push("".to_owned());
        assert(out@ =~= start + input.external_constant_lines());
    }

    /// Adds what the external tokens are reported as.
    pub fn add_external_scanner_symbol_map(&self, out: &mut TextList)
        requires
            self.wf(),
        ensures
            final(out)@ == old(out)@ + self.input.external_symbol_lines(),
    {
        let ghost input = self.input;
        let ghost all = Seq::new(
            input.syntax_grammar.external_tokens@.len(),
            |i: int|
                "/* "@ + input.external_id(i) + " */ "@ + input.id(input.scanner_symbol(i)) + ","@,
        );
        let mut rows: TextList = TextList::new();
        let mut i: usize = 0;
        assert(rows@ =~= all.take(0));
        while i < self.input.syntax_grammar.external_tokens.len()
            invariant
                self.wf(),
                input == self.input,
                all == Seq::new(
                    input.syntax_grammar.external_tokens@.len(),
                    |i: int|
                        "/* "@ + input.external_id(i) + " */ "@ + input.id(
                            input.scanner_symbol(i),
                        ) + ","@,
                ),
                i <= input.syntax_grammar.external_tokens@.len(),
                rows@ == all.take(i as int),
            decreases input.syntax_grammar.external_tokens@.len() - i,
        {
            let id: String = external_token_id(
                self.input.syntax_grammar.external_tokens[i].name.as_str(),
            );
            let symbol: Symbol =
                match self.input.syntax_grammar.external_tokens[i].corresponding_internal_token {
                Some(token) => token,
                None => Symbol::external(i),
            };
            assert(symbol == input.scanner_symbol(i as int));
            let row: String = concat5("/* ", id.as_str(), " */ ", self.symbol_id(symbol), ",");
            assert(row@ == all[i as int]);
            rows.push(row);
            i += 1;
            assert(rows@ =~= all.take(i as int));
        }
        assert(all.take(i as int) =~= all);
        out.add_array(
            "static TS_EXTERNAL_SCANNER_SYMBOL_MAP: [Symbol; EXTERNAL_TOKEN_COUNT] = [".to_owned(),
            &rows,
        );
    }

    /// Adds which external tokens are accepted in which external state.
    #[verifier::rlimit(40)]
    pub fn add_external_scanner_states_list(&self, out: &mut TextList)
        requires
            self.wf(),
        ensures
            final(out)@ == old(out)@ + self.input.external_state_lines(),
    {
        let ghost input = self.input;
        let token_count: usize = self.input.syntax_grammar.external_tokens.len();
        let mut rows: TextList = TextList::new();
        let mut i: usize = 0;
        while i < self.input.parse_table.external_lex_states.len()
            invariant
                input == self.input,
                token_count == input.syntax_grammar.external_tokens@.len(),
                i <= input.parse_table.external_lex_states@.len(),
                rows@ == input.external_state_rows(i as nat),
                rows@.len() == i * token_count,
            decreases input.parse_table.external_lex_states@.len() - i,
        {
            let set: &TokenSet = &self.input.parse_table.external_lex_states[i];
            let number: String = count_text(i);
            let ghost before = rows@;
            let ghost added = Seq::new(
                token_count as nat,
                |j: int| input.external_state_row(i as int, j),
            );
            let mut j: usize = 0;
            assert(rows@ =~= before + added.take(0));
            while j < token_count
                invariant
                    *set == input.parse_table.external_lex_states@[i as int],
                    number@ == decimal(i as nat),
                    added == Seq::new(
                        token_count as nat,
                        |j: int| input.external_state_row(i as int, j),
                    ),
                    j <= token_count,
                    rows@ == before + added.take(j as int),
                decreases token_count - j,
            {
                let column: String = count_text(j);
                let row: String = concat7(
                    "/* [",
                    number.as_str(),
                    "][",
                    column.as_str(),
                    "] */ ",
                    truth_text(set_has_index(set, j)),
                    ",",
                );
                assert(row@ == added[j as int]);
                rows.push(row);
                j += 1;
                assert(rows@ =~= before + added.take(j as int));
            }
            proof {
                assert(added.take(j as int) =~= added);
                assert((i + 1) * token_count == i * token_count + token_count)
                    by (nonlinear_arith);
            }
            i += 1;
        }
        if rows.len() == 0 {
            rows.push("false,".to_owned());
            assert(rows@ =~= seq!["false,"@]);
        }
        let count: String = count_text(rows.len());
        out.add_array(
            concat3("static TS_EXTERNAL_SCANNER_STATES: [bool; ", count.as_str(), "] = ["),
            &rows,
        );
    }
}

/// No list is longer than the longest.
pub proof fn lemma_longest(lists: Seq<Seq<Symbol>>, i: int)
    requires
        0 <= i < lists.len(),
    ensures
        lists[i].len() <= longest(lists),
    decreases lists.len(),
{
    if i < lists.len() - 1 {
        lemma_longest(lists.drop_last(), i);
    }
}

impl ParserInput {
    /// All symbols of the list have identifiers.
    pub open spec fn is_identified(&self, symbols: Seq<Symbol>) -> bool {
        forall|k: int| 0 <= k < symbols.len() ==> self.has_identifier(#[trigger] symbols[k])
    }

    /// All symbols of the lists have identifiers.
    pub open spec fn are_identified(&self, lists: Seq<Seq<Symbol>>) -> bool {
        forall|i: int| 0 <= i < lists.len() ==> self.is_identified(#[trigger] lists[i])
    }

    /// All reserved words have identifiers.
    proof fn lemma_reserved_words(&self, n: nat)
        requires
            self.is_consistent(),
            self.abi_version >= ABI_VERSION_WITH_RESERVED_WORDS,
            n <= self.states().len(),
        ensures
            self.are_identified(self.reserved_word_sets_upto(n)),
        decreases n,
    {
        if n > 0 {
            self.lemma_reserved_words((n - 1) as nat);
            let set = self.states()[n - 1].reserved_words@;
            assert forall|k: int| 0 <= k < set.len() implies self.has_identifier(
                #[trigger] set[k],
            ) by {
                assert(self.has_identifier(self.states()[n - 1].reserved_words@[k]));
            }
        }
    }
}

} // verus!
