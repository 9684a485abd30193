//! In which order a rendered parser has what it has, and what it does without.
use vstd::prelude::*;

use crate::nfa::{codepoints, is_canonical, ranges_of, CodepointRange, END};
use crate::render_rust::entries::{lemma_with_entries, lemma_with_entries_begins, with_entries};
use crate::render_rust::input::ParserInput;
use crate::render_rust::lexer::{leading_count, ruled_out, shown_ranges};
use crate::render_rust::lexer_laws::lemma_ranges_exist;
use crate::render_rust::small_table::{group_keys, group_order, members, GroupKey};
use crate::render_rust::table_laws::lemma_groups;
use crate::rules::{symbol_less, symbol_order, Symbol};
use crate::tables::{EntryView, LexState, LexTable, ParseState};

verus! {

impl ParserInput {
    /// The entry is the one without actions, or a token has it in one of the first `n` states.
    pub open spec fn is_used_upto(&self, entry: EntryView, n: int) -> bool {
        ||| entry.actions.len() == 0 && !entry.reusable
        ||| exists|i: int, t: int|
            0 <= i < n && 0 <= t < self.parse_table.states@[i].terminal_entries@.len() && (
            #[trigger] self.parse_table.states@[i].terminal_entries@[t]).1@ == entry
    }

    /// The entry without actions is the first, and the others are those of the tokens, each once.
    pub proof fn entries_are_those_of_tokens(&self, entry: EntryView)
        ensures
            self.entry_list().len() > 0,
            self.entry_list()[0].actions.len() == 0,
            !self.entry_list()[0].reusable,
            self.entry_list().no_duplicates(),
            self.entry_list().contains(entry) <==> self.is_used_upto(
                entry,
                self.parse_table.states@.len() as int,
            ),
    {
        let n = self.states().len();
        self.lemma_entry_list(n);
        self.lemma_entry_list_begins(0, n);
        self.lemma_used(entry, n);
        assert(self.entry_list_upto(0)[0] == self.entry_list()[0]);
    }

    proof fn lemma_used(&self, entry: EntryView, n: nat)
        requires
            n <= self.states().len(),
        ensures
            self.entry_list_upto(n).contains(entry) <==> self.is_used_upto(entry, n as int),
        decreases n,
    {
        if n == 0 {
            let first = EntryView { actions: Seq::empty(), reusable: false };
            assert(self.entry_list_upto(0) =~= seq![first]);
            if entry.actions.len() == 0 && !entry.reusable {
                assert(entry.actions =~= first.actions);
                assert(seq![first][0] == entry);
            }
        } else {
            let state = self.states()[n - 1];
            let new = self.entries_in_order(state);
            self.lemma_used(entry, (n - 1) as nat);
            self.lemma_entry_places(state);
            lemma_with_entries(self.entry_list_upto((n - 1) as nat), new);
            if new.contains(entry) {
                let p = new.index_of(entry);
                let t = self.entry_places(state)[p];
                assert(self.entry_places(state).to_set().contains(t));
                assert(self.parse_table.states@[n - 1].terminal_entries@[t].1@ == entry);
            }
            assert forall|t: int| 0 <= t < state.terminal_entries@.len() && (
            #[trigger] state.terminal_entries@[t]).1@ == entry implies new.contains(entry) by {
                assert(self.entry_places(state).to_set().contains(t));
                let p = self.entry_places(state).index_of(t);
                assert(new[p] == entry);
            }
            if self.is_used_upto(entry, n as int) && !self.is_used_upto(entry, n - 1) {
                let (i, t) = choose|i: int, t: int|
                    0 <= i < n && 0 <= t < self.parse_table.states@[i].terminal_entries@.len() && (
                    #[trigger] self.parse_table.states@[i].terminal_entries@[t]).1@ == entry;
                assert(i == n - 1);
                assert(state.terminal_entries@[t].1@ == entry);
            }
        }
    }

    /// Token `t` of a state comes before token `u`: it has no number while the other has one, or it
    /// has the lesser number, or is the first where these do not tell.
    pub open spec fn comes_before(&self, state: ParseState, t: int, u: int) -> bool {
        let a = state.terminal_entries@[t].0;
        let b = state.terminal_entries@[u].0;
        let numbers = self.symbol_numbers();
        if numbers.contains_key(a) && numbers.contains_key(b) {
            numbers[a] < numbers[b] || (numbers[a] == numbers[b] && t < u)
        } else if numbers.contains_key(a) || numbers.contains_key(b) {
            numbers.contains_key(b)
        } else {
            t < u
        }
    }

    /// An entry that is used before another comes before it: in an earlier state, or in the same
    /// state for a token that comes before all that have the other.
    pub proof fn entries_are_in_order_of_use(&self, i: int, t: int, other: EntryView)
        requires
            0 <= i < self.parse_table.states@.len(),
            0 <= t < self.parse_table.states@[i].terminal_entries@.len(),
            self.is_used_upto(other, self.parse_table.states@.len() as int),
            !self.is_used_upto(other, i),
            forall|u: int|
                0 <= u < self.parse_table.states@[i].terminal_entries@.len() && (
                #[trigger] self.parse_table.states@[i].terminal_entries@[u]).1@ == other
                    ==> self.comes_before(self.parse_table.states@[i], t, u),
        ensures
            self.entry_list().index_of(self.parse_table.states@[i].terminal_entries@[t].1@)
                < self.entry_list().index_of(other),
    {
        let state = self.states()[i];
        let entry = state.terminal_entries@[t].1@;
        let n = self.states().len();
        let list = self.entry_list();
        let before = self.entry_list_upto(i as nat);
        let new = self.entries_in_order(state);
        let places = self.entry_places(state);
        let order = self.entry_order(state);
        self.lemma_used(other, i as nat);
        self.lemma_used(other, n);
        self.lemma_entry_list(n);
        self.lemma_entry_places(state);
        assert(places.to_set().contains(t));
        let p = places.index_of(t);
        assert(places[p] == t);
        let part = new.take(p + 1);
        assert(part[p] == entry);
        assert(!part.contains(other)) by {
            if part.contains(other) {
                let q = part.index_of(other);
                let u = places[q];
                assert(places.to_set().contains(u));
                assert(state.terminal_entries@[u].1@ == other);
                assert(self.comes_before(self.parse_table.states@[i], t, u));
                assert(order(t, u));
                if q < p {
                    assert(order(places[q], places[p]));
                }
            }
        }
        let prefix = with_entries(before, part);
        lemma_with_entries(before, part);
        lemma_with_entries_begins(before, new, p + 1);
        self.lemma_entry_list_begins((i + 1) as nat, n);
        assert(self.entry_list_upto((i + 1) as nat) == with_entries(before, new));
        assert(prefix.contains(entry) && !prefix.contains(other));
        let x = prefix.index_of(entry);
        assert(with_entries(before, new)[x] == entry);
        assert(list[x] == entry);
        let y = list.index_of(other);
        if y < prefix.len() {
            assert(with_entries(before, new)[y] == prefix[y]);
            assert(list[y] == prefix[y]);
        }
        let z = list.index_of(entry);
        assert(list[z] == entry);
    }

    /// A state in compact form has the smaller groups first; of groups with as many symbols those of
    /// tokens first, and of these and the others the one with the lesser value. The symbols of a
    /// group are in ascending order.
    pub proof fn compact_groups_are_in_order(&self, i: int, g: int, h: int, m: int)
        requires
            0 <= g < h < group_keys(self.state_items(i)).len(),
        ensures
            ({
                let a = group_keys(self.state_items(i))[g];
                let b = group_keys(self.state_items(i))[h];
                let size_a = members(self.state_items(i), a).len();
                let size_b = members(self.state_items(i), b).len();
                &&& size_a <= size_b
                &&& size_a == size_b ==> !(a.is_nonterminal && !b.is_nonterminal)
                &&& size_a == size_b && a.is_nonterminal == b.is_nonterminal ==> a.value < b.value
            }),
            ({
                let group = members(self.state_items(i), group_keys(self.state_items(i))[g]);
                0 <= m && m + 1 < group.len() ==> symbol_less(group[m], group[m + 1])
            }),
    {
        let keys = group_keys(self.state_items(i));
        let group = members(self.state_items(i), keys[g]);
        self.compact_state_is_sorted(i, keys[g]);
        assert((group_order(self.state_items(i)))(keys[g], keys[h]));
        if 0 <= m && m + 1 < group.len() {
            assert((symbol_order())(group[m], group[m + 1]));
        }
    }

    /// The groups of a state in compact form have a symbol of an entry each, under the value of the
    /// entry: for a token where its actions stand, and for a non-terminal the next state.
    pub proof fn compact_groups_have_entries(&self, i: int, symbol: Symbol, key: GroupKey)
        ensures
            ({
                let state = self.parse_table.states@[i];
                let is_token = exists|t: int|
                    0 <= t < state.terminal_entries@.len() && (
                    #[trigger] state.terminal_entries@[t]).0 == symbol && !key.is_nonterminal
                        && key.value == self.entry_id(state.terminal_entries@[t].1@);
                let is_variable = exists|t: int|
                    0 <= t < state.nonterminal_entries@.len() && (
                    #[trigger] state.nonterminal_entries@[t]).0 == symbol && key.is_nonterminal
                        && key.value == self.goto_state(i, state.nonterminal_entries@[t].1) as nat;
                members(self.state_items(i), key).contains(symbol) <==> is_token || is_variable
            }),
    {
        let state = self.parse_table.states@[i];
        let items = self.state_items(i);
        let n = state.terminal_entries@.len();
        lemma_groups(items, key);
        assert(members(items, key).to_set().contains(symbol) == members(items, key).contains(symbol));
        if items.contains((symbol, key)) {
            let k = items.index_of((symbol, key));
            if k < n {
                assert(state.terminal_entries@[k].0 == symbol);
            } else {
                assert(state.nonterminal_entries@[k - n].0 == symbol);
            }
        }
        if exists|t: int|
            0 <= t < n && (#[trigger] state.terminal_entries@[t]).0 == symbol && !key.is_nonterminal
                && key.value == self.entry_id(state.terminal_entries@[t].1@) {
            let t = choose|t: int|
                0 <= t < n && (#[trigger] state.terminal_entries@[t]).0 == symbol
                    && !key.is_nonterminal && key.value == self.entry_id(
                    state.terminal_entries@[t].1@,
                );
            assert(items[t] == (symbol, key));
        }
        if exists|t: int|
            0 <= t < state.nonterminal_entries@.len() && (
            #[trigger] state.nonterminal_entries@[t]).0 == symbol && key.is_nonterminal && key.value
                == self.goto_state(i, state.nonterminal_entries@[t].1) as nat {
            let t = choose|t: int|
                0 <= t < state.nonterminal_entries@.len() && (
                #[trigger] state.nonterminal_entries@[t]).0 == symbol && key.is_nonterminal
                    && key.value == self.goto_state(i, state.nonterminal_entries@[t].1) as nat;
            assert(items[n + t] == (symbol, key));
        }
    }

    /// The transition of a lex table uses the large set.
    pub open spec fn transition_uses(&self, table: LexTable, i: int, k: int, ix: int) -> bool {
        &&& 0 <= i < table.states@.len()
        &&& leading_count(table.states@[i]) <= k < table.states@[i].advance_actions@.len()
        &&& self.transition_condition(table.states@[i], k).large_set == Some(ix)
    }

    /// A large set that no transition uses is left out. Those of the keyword lexer count only if
    /// there is a word token.
    pub proof fn unused_sets_are_left_out(&self, ix: int)
        requires
            forall|i: int, k: int| !#[trigger] self.transition_uses(self.main_lex_table, i, k, ix),
            self.syntax_grammar.word_token is None || forall|i: int, k: int|
                !#[trigger] self.transition_uses(self.keyword_lex_table, i, k, ix),
        ensures
            self.character_set_lines(ix).len() == 0,
    {
        self.lemma_unused(self.main_lex_table, ix);
        if self.syntax_grammar.word_token is Some {
            self.lemma_unused(self.keyword_lex_table, ix);
        }
    }

    proof fn lemma_unused(&self, table: LexTable, ix: int)
        requires
            forall|i: int, k: int| !#[trigger] self.transition_uses(table, i, k, ix),
        ensures
            !self.table_uses(table, table.states@.len() as int, ix),
    {
        if self.table_uses(table, table.states@.len() as int, ix) {
            let i = choose|i: int|
                0 <= i < table.states@.len() && self.state_uses(
                    #[trigger] table.states@[i],
                    table.states@[i].advance_actions@.len() as int,
                    ix,
                );
            let state = table.states@[i];
            let k = choose|k: int|
                leading_count(state) <= k < state.advance_actions@.len() && (
                #[trigger] self.transition_condition(state, k)).large_set == Some(ix);
            assert(self.transition_uses(table, i, k, ix));
        }
    }
}

/// What is ruled out for a transition are the characters of all before it.
pub proof fn earlier_transitions_are_ruled_out(state: LexState, n: int, c: int)
    requires
        0 <= n <= state.advance_actions@.len(),
    ensures
        ruled_out(state, n).contains(c) <==> exists|k: int|
            0 <= k < n && (#[trigger] state.advance_actions@[k]).0@.contains(c),
    decreases n,
{
    if n > 0 {
        earlier_transitions_are_ruled_out(state, n - 1, c);
        if state.advance_actions@[n - 1].0@.contains(c) {
            assert(state.advance_actions@[n - 1].0@.contains(c));
        }
    }
}

/// Ranges that have the last code point are shown by the code points that they do not have and by
/// the null character, and others by themselves.
pub proof fn ranges_to_the_end_are_shown_by_the_rest(asserted: Seq<CodepointRange>, c: int)
    requires
        is_canonical(asserted),
    ensures
        !codepoints(asserted).contains(0x10FFFF) ==> shown_ranges(asserted) == (asserted, true),
        codepoints(asserted).contains(0x10FFFF) ==> {
            let (rest, is_included) = shown_ranges(asserted);
            &&& !is_included
            &&& is_canonical(rest)
            &&& codepoints(rest).contains(c) <==> c == 0 || (0 <= c < 0x110000 && !codepoints(
                asserted,
            ).contains(c))
        },
{
    let rest = Set::new(
        |c: int| (0 <= c < 0x110000 && !codepoints(asserted).contains(c)) || c == 0,
    );
    if codepoints(asserted).contains(0x10FFFF) {
        assert(shown_ranges(asserted).0 == ranges_of(rest)) by {
            assert(rest =~= Set::new(
                |c: int| (0 <= c < END && !codepoints(asserted).contains(c)) || c == 0,
            ));
        }
        lemma_ranges_exist(rest);
        assert(codepoints(ranges_of(rest)).contains(c) == rest.contains(c));
    }
}

} // verus!
