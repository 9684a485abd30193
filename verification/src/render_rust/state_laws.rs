//! What a rendered parser says of each of its states.
use vstd::prelude::*;

use crate::order::lemma_first_index;
use crate::render_rust::input::ParserInput;
use crate::render_rust::names::{sanitized_identifier, uppercase};
use crate::render_rust::parser_laws::some_first;
use crate::render_rust::symbols::longest;
use crate::rules::{Symbol, SymbolType};
use crate::tables::ParseState;
use crate::text::decimal;
use crate::text_laws::{has_array, lemma_array, lemma_block_contains};

verus! {

impl ParserInput {
    /// The rendered parser says of each external state and each external token whether the token
    /// is valid: it is if and only if a token with its index is in the set of the state, at any
    /// place.
    pub proof fn external_states_say_which_tokens_are_valid(
        &self,
        name: Seq<char>,
        i: int,
        k: int,
        j: int,
    )
        requires
            0 <= i < self.parse_table.external_lex_states@.len(),
            0 <= j < self.syntax_grammar.external_tokens@.len(),
        ensures
            ({
                let count = self.parse_table.external_lex_states@.len();
                let width = self.syntax_grammar.external_tokens@.len();
                let tokens = self.parse_table.external_lex_states@[i].tokens@;
                let rows = self.external_state_rows(count);
                let yes = |j: int|
                    "/* ["@ + decimal(i as nat) + "]["@ + decimal(j as nat) + "] */ true,"@;
                let no = |j: int|
                    "/* ["@ + decimal(i as nat) + "]["@ + decimal(j as nat) + "] */ false,"@;
                &&& has_array(
                    self.parser_lines(name),
                    "static TS_EXTERNAL_SCANNER_STATES: [bool; "@ + decimal(count * width)
                        + "] = ["@,
                    rows,
                )
                &&& rows.len() == count * width
                &&& 0 <= i * width + j < rows.len()
                &&& 0 <= k < tokens.len() && tokens[k].index < width ==> rows[i * width
                    + tokens[k].index] == yes(tokens[k].index as int)
                &&& rows[i * width + j] == yes(j) || rows[i * width + j] == no(j)
                &&& rows[i * width + j] == yes(j) ==> exists|m: int|
                    0 <= m < tokens.len() && (#[trigger] tokens[m]).index == j
            }),
    {
        let count = self.parse_table.external_lex_states@.len();
        let width = self.syntax_grammar.external_tokens@.len();
        let tokens = self.parse_table.external_lex_states@[i].tokens@;
        let rows = self.external_state_rows(count);
        self.further_sections_are_rendered(name);
        self.external_states_are_flat(count, i, j);
        assert(count * width > 0) by (nonlinear_arith)
            requires
                count > 0,
                width > 0,
        ;
        assert(0 <= i * width) by (nonlinear_arith)
            requires
                i >= 0,
        ;
        lemma_array(
            self.parser_lines(name),
            "static TS_EXTERNAL_SCANNER_STATES: [bool; "@ + decimal(count * width) + "] = ["@,
            rows,
        );
        lemma_truth_row("/* ["@ + decimal(i as nat) + "]["@ + decimal(j as nat));
        if 0 <= k < tokens.len() && tokens[k].index < width {
            let x = tokens[k].index as int;
            self.external_states_are_flat(count, i, x);
            lemma_truth_row("/* ["@ + decimal(i as nat) + "]["@ + decimal(x as nat));
            assert(tokens[k].index == x);
        }
    }

    /// The external tokens are declared with their places, and each is reported as its internal
    /// token, or else as itself.
    pub proof fn external_tokens_are_declared(&self, name: Seq<char>, j: int)
        requires
            0 <= j < self.syntax_grammar.external_tokens@.len(),
        ensures
            ({
                let tokens = self.syntax_grammar.external_tokens@;
                let id = "TS_EXTERNAL_TOKEN_"@ + uppercase(sanitized_identifier(tokens[j].name@));
                let symbol = match tokens[j].corresponding_internal_token {
                    Some(symbol) => symbol,
                    None => Symbol { kind: SymbolType::External, index: j as usize },
                };
                let rows = self.external_symbol_rows();
                &&& self.parser_lines(name).contains(
                    "const "@ + id + ": usize = "@ + decimal(j as nat) + ";"@,
                )
                &&& has_array(
                    self.parser_lines(name),
                    "static TS_EXTERNAL_SCANNER_SYMBOL_MAP: [Symbol; EXTERNAL_TOKEN_COUNT] = ["@,
                    rows,
                )
                &&& rows.len() == tokens.len()
                &&& rows[j] == "/* "@ + id + " */ "@ + self.id(symbol) + ","@
            }),
    {
        self.further_sections_are_rendered(name);
        let constant = "const "@ + self.external_id(j) + ": usize = "@ + decimal(j as nat) + ";"@;
        assert(self.external_constant_lines()[j] == constant);
        lemma_block_contains(self.parser_lines(name), self.external_constant_lines(), constant);
        lemma_array(
            self.parser_lines(name),
            "static TS_EXTERNAL_SCANNER_SYMBOL_MAP: [Symbol; EXTERNAL_TOKEN_COUNT] = ["@,
            self.external_symbol_rows(),
        );
    }

    /// The rows that say what the external tokens are reported as.
    pub open spec fn external_symbol_rows(&self) -> Seq<Seq<char>> {
        Seq::new(
            self.syntax_grammar.external_tokens@.len(),
            |i: int|
                "/* "@ + self.external_id(i) + " */ "@ + self.id(self.scanner_symbol(i)) + ","@,
        )
    }

    /// Each state has the row that names the first state with its core: no earlier state has the
    /// same core.
    pub proof fn primary_states_are_listed(&self, name: Seq<char>, i: int)
        requires
            0 <= i < self.parse_table.states@.len(),
        ensures
            ({
                let states = self.parse_table.states@;
                let rows = self.primary_state_rows();
                &&& has_array(
                    self.parser_lines(name),
                    "static TS_PRIMARY_STATE_IDS: [StateId; STATE_COUNT] = ["@,
                    rows,
                )
                &&& rows.len() == states.len()
                &&& exists|k: int|
                    #![trigger states[k]]
                    0 <= k <= i && states[k].core_id == states[i].core_id && (forall|j: int|
                        0 <= j < k ==> (#[trigger] states[j]).core_id != states[i].core_id)
                        && rows[i] == "/* "@ + decimal(i as nat) + " */ "@ + decimal(k as nat)
                        + ","@
            }),
    {
        let states = self.parse_table.states@;
        self.sections_are_rendered(name);
        lemma_array(
            self.parser_lines(name),
            "static TS_PRIMARY_STATE_IDS: [StateId; STATE_COUNT] = ["@,
            self.primary_state_rows(),
        );
        let pred = |state: ParseState| state.core_id == self.states()[i].core_id;
        let k = some_first(self.states(), pred, i);
        lemma_first_index(self.states(), pred, k);
        assert forall|j: int| 0 <= j < k implies (#[trigger] states[j]).core_id
            != states[i].core_id by {
            assert(!pred(self.states()[j]));
        }
        assert(states[k].core_id == states[i].core_id);
    }

    /// The rows that name the first states with the states' cores.
    pub open spec fn primary_state_rows(&self) -> Seq<Seq<char>> {
        Seq::new(
            self.states().len(),
            |i: int|
                "/* "@ + decimal(i as nat) + " */ "@ + decimal(self.primary_state(i) as nat) + ","@,
        )
    }

    /// Each state has the row that says how it lexes. A state with an entry for the end of a
    /// non-terminal extra does not lex; any other has its lex state, its external lex state and
    /// the number of its reserved words, which is 0 before they came to be.
    pub proof fn lex_modes_are_listed(&self, name: Seq<char>, i: int, t: int)
        requires
            0 <= i < self.parse_table.states@.len(),
        ensures
            ({
                let state = self.parse_table.states@[i];
                let entries = state.terminal_entries@;
                let rows = Seq::new(self.parse_table.states@.len(), |i: int| self.lex_mode_row(i));
                &&& has_array(
                    self.parser_lines(name),
                    "static TS_LEX_MODES: [LexMode; STATE_COUNT] = ["@,
                    rows,
                )
                &&& 0 <= t < entries.len() && entries[t].0.kind
                    == SymbolType::EndOfNonTerminalExtra && entries[t].0.index == 0 ==> rows[i]
                    == "/* "@ + decimal(i as nat)
                    + " */ LexMode { lex_state: StateId::MAX, external_lex_state: 0, reserved_word_set_id: 0 },"@
                &&& (forall|u: int|
                    0 <= u < entries.len() ==> (#[trigger] entries[u]).0.kind
                        != SymbolType::EndOfNonTerminalExtra) ==> rows[i] == "/* "@ + decimal(
                    i as nat,
                ) + " */ LexMode { lex_state: "@ + decimal(state.lex_state_id as nat)
                    + ", external_lex_state: "@ + decimal(state.external_lex_state_id as nat)
                    + ", reserved_word_set_id: "@ + decimal(
                    if self.abi_version >= 15 {
                        self.reserved_word_set_id(i) as nat
                    } else {
                        0
                    },
                ) + " },"@
            }),
    {
        let rows = Seq::new(self.parse_table.states@.len(), |i: int| self.lex_mode_row(i));
        self.sections_are_rendered(name);
        assert(rows =~= Seq::new(self.states().len(), |i: int| self.lex_mode_row(i)));
        lemma_array(
            self.parser_lines(name),
            "static TS_LEX_MODES: [LexMode; STATE_COUNT] = ["@,
            rows,
        );
        let state = self.states()[i];
        let entries = state.terminal_entries@;
        if 0 <= t < entries.len() && entries[t].0.kind == SymbolType::EndOfNonTerminalExtra
            && entries[t].0.index == 0 {
            assert(state.terminal_entries@[t].0 == Symbol::end_of_nonterminal_extra());
            assert(state.at_end_of_extra());
        }
    }

    /// The number of a state's reserved words is the place of its set among the sets: there the
    /// set has its words, each in its row, and then zeros. No two sets are the same, the first is
    /// empty, and no set is longer than the declared size, which one of them has.
    pub proof fn reserved_words_are_listed(&self, name: Seq<char>, i: int, k: int)
        requires
            self.abi_version >= 15,
            self.reserved_word_sets().len() > 1,
            0 <= i < self.parse_table.states@.len(),
            0 <= k < self.max_reserved_words(),
        ensures
            ({
                let words = self.parse_table.states@[i].reserved_words.tokens@;
                let count = self.reserved_word_sets().len();
                let width = self.max_reserved_words();
                let set = self.reserved_word_set_id(i);
                let rows = self.reserved_word_rows(count);
                &&& has_array(
                    self.parser_lines(name),
                    "static TS_RESERVED_WORDS: [Symbol; "@ + decimal(count * width) + "] = ["@,
                    rows,
                )
                &&& 0 <= set < count
                &&& rows.len() == count * width
                &&& set * width + k < rows.len()
                &&& words.len() <= width
                &&& rows[set * width + k] == if k < words.len() {
                    "/* set "@ + decimal(set as nat) + " */ "@ + self.id(words[k]) + ","@
                } else {
                    "0,"@
                }
            }),
    {
        let count = self.reserved_word_sets().len();
        let width = self.max_reserved_words();
        let set = self.reserved_word_set_id(i);
        self.further_sections_are_rendered(name);
        self.reserved_word_set_is_found(i);
        self.reserved_words_are_flat(count, set, k);
        self.reserved_word_sizes(i);
        assert(count * width > 0) by (nonlinear_arith)
            requires
                count > 0,
                width > 0,
        ;
        lemma_array(
            self.parser_lines(name),
            "static TS_RESERVED_WORDS: [Symbol; "@ + decimal(count * width) + "] = ["@,
            self.reserved_word_rows(count),
        );
    }

    /// The first set of reserved words is empty, and the others are those of states, each once, in
    /// the order of the states that first have them.
    pub proof fn reserved_word_sets_are_different(&self, a: int, b: int)
        requires
            0 <= a < b < self.reserved_word_sets().len(),
        ensures
            self.reserved_word_sets()[0].len() == 0,
            self.reserved_word_sets()[a] != self.reserved_word_sets()[b],
            exists|i: int|
                0 <= i < self.parse_table.states@.len() && (
                #[trigger] self.parse_table.states@[i]).reserved_words.tokens@
                    == self.reserved_word_sets()[b],
    {
        self.lemma_word_sets(self.states().len());
        assert(self.is_word_set_of_state(self.states().len(), b));
    }

    /// The set at place `b` is that of one of the first `n` states.
    spec fn is_word_set_of_state(&self, n: nat, b: int) -> bool {
        exists|i: int|
            0 <= i < n && (#[trigger] self.parse_table.states@[i]).reserved_words.tokens@
                == self.reserved_word_sets_upto(n)[b]
    }

    proof fn lemma_word_sets(&self, n: nat)
        requires
            n <= self.states().len(),
        ensures
            self.reserved_word_sets_upto(n).len() > 0,
            self.reserved_word_sets_upto(n)[0].len() == 0,
            self.reserved_word_sets_upto(n).no_duplicates(),
            forall|b: int|
                0 < b < self.reserved_word_sets_upto(n).len()
                    ==> #[trigger] self.is_word_set_of_state(n, b),
        decreases n,
    {
        if n > 0 {
            self.lemma_word_sets((n - 1) as nat);
            let before = self.reserved_word_sets_upto((n - 1) as nat);
            let after = self.reserved_word_sets_upto(n);
            let set = self.states()[n - 1].reserved_words@;
            assert forall|b: int| 0 < b < after.len() implies #[trigger] self.is_word_set_of_state(
                n,
                b,
            ) by {
                if b < before.len() {
                    assert(self.is_word_set_of_state((n - 1) as nat, b));
                    let i = choose|i: int|
                        0 <= i < n - 1 && (
                        #[trigger] self.parse_table.states@[i]).reserved_words.tokens@ == before[b];
                    assert(self.parse_table.states@[i].reserved_words.tokens@ == after[b]);
                } else {
                    assert(self.parse_table.states@[n - 1].reserved_words.tokens@ == after[b]);
                }
            }
            if !before.contains(set) {
                assert forall|x: int, y: int|
                    0 <= x < after.len() && 0 <= y < after.len() && x != y implies after[x]
                    != after[y] by {
                    if x < before.len() {
                        assert(before.contains(before[x]));
                    }
                    if y < before.len() {
                        assert(before.contains(before[y]));
                    }
                }
            }
        }
    }

    /// No state reserves more words than the greatest size says, and some state reserves as many,
    /// unless none reserves any.
    pub proof fn reserved_word_sizes(&self, i: int)
        requires
            0 <= i < self.parse_table.states@.len(),
        ensures
            self.parse_table.states@[i].reserved_words.tokens@.len() <= self.max_reserved_words(),
            self.max_reserved_words() == 0 || exists|j: int|
                0 <= j < self.parse_table.states@.len() && (
                #[trigger] self.parse_table.states@[j]).reserved_words.tokens@.len()
                    == self.max_reserved_words(),
    {
        let sets = self.reserved_word_sets();
        self.reserved_word_set_is_found(i);
        self.lemma_word_sets(self.states().len());
        lemma_longest(sets, self.reserved_word_set_id(i));
        let b = choose|b: int| 0 <= b < sets.len() && (#[trigger] sets[b]).len() == longest(sets);
        if b > 0 {
            assert(self.is_word_set_of_state(self.states().len(), b));
        }
    }
}

/// The longest of the lists is one of them, and none is longer.
proof fn lemma_longest(lists: Seq<Seq<Symbol>>, i: int)
    requires
        lists.len() > 0,
    ensures
        0 <= i < lists.len() ==> lists[i].len() <= longest(lists),
        exists|b: int| 0 <= b < lists.len() && (#[trigger] lists[b]).len() == longest(lists),
    decreases lists.len(),
{
    reveal_with_fuel(longest, 2);
    let before = lists.drop_last();
    assert(lists[lists.len() - 1] == lists.last());
    if before.len() > 0 {
        lemma_longest(before, i);
        let b = choose|b: int| 0 <= b < before.len() && (#[trigger] before[b]).len() == longest(
            before,
        );
        assert(lists[b] == before[b]);
        if 0 <= i < before.len() {
            assert(lists[i] == before[i]);
        }
    }
}

/// How a truth value stands behind a comment.
proof fn lemma_truth_row(start: Seq<char>)
    ensures
        start + "] */ "@ + "true"@ + ","@ == start + "] */ true,"@,
        start + "] */ "@ + "false"@ + ","@ == start + "] */ false,"@,
        start + "] */ true,"@ != start + "] */ false,"@,
{
    reveal_strlit("] */ ");
    reveal_strlit("true");
    reveal_strlit("false");
    reveal_strlit(",");
    reveal_strlit("] */ true,");
    reveal_strlit("] */ false,");
    assert(start + "] */ "@ + "true"@ + ","@ =~= start + "] */ true,"@);
    assert(start + "] */ "@ + "false"@ + ","@ =~= start + "] */ false,"@);
    let n = start.len() as int;
    assert((start + "] */ true,"@)[n + 5] == 't');
    assert((start + "] */ false,"@)[n + 5] == 'f');
}

} // verus!
