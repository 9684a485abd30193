//! What the parse table of every rendered parser gives back.
use vstd::prelude::*;

use crate::order::{is_ascending, is_strict_order, lemma_ascending_exists};
use crate::render_rust::actions::encoded_head;
use crate::render_rust::input::ParserInput;
use crate::render_rust::parse_table::low16;
use crate::render_rust::small_table::{
    group_keys, group_order, has_key, member_set, members, GroupKey,
};
use crate::rules::{lemma_symbol_order, symbol_order, Symbol};

verus! {

/// What is said of a number by groups that begin at a place of a compact table: the value of the
/// first group in which the number is written, and else 0.
pub open spec fn looked_up(table: Seq<u16>, place: int, group_count: nat, number: u16) -> u16
    decreases group_count,
{
    if group_count == 0 {
        0
    } else {
        let size = table[place + 1];
        if table.subrange(place + 2, place + 2 + size).contains(number) {
            table[place]
        } else {
            looked_up(table, place + 2 + size, (group_count - 1) as nat, number)
        }
    }
}

impl ParserInput {
    /// The row of a state gives, for a token with an entry, the place of the head of its list of
    /// actions among the parse actions, where the values of the actions follow.
    pub proof fn table_gives_actions(&self, i: int, t: int)
        requires
            self.is_consistent(),
            self.entry_slots() < u16::MAX,
            0 <= i < self.states().len(),
            0 <= t < self.states()[i].terminal_entries@.len(),
            self.symbol_numbers().contains_key(self.states()[i].terminal_entries@[t].0),
        ensures
            self.symbol_numbers()[self.states()[i].terminal_entries@[t].0] < self.symbols().len(),
            self.table_row(i)[self.symbol_numbers()[self.states()[i].terminal_entries@[t].0] as int]
                == self.entry_id(self.states()[i].terminal_entries@[t].1@),
            ({
                let (symbol, entry) = self.states()[i].terminal_entries@[t];
                let place = self.table_row(i)[self.symbol_numbers()[symbol] as int] as int;
                let codes = self.encoded_actions(entry@.actions);
                &&& place + 1 + codes.len() <= self.action_values().len()
                &&& self.action_values()[place] == encoded_head(entry@)
                &&& self.action_values().subrange(place + 1, place + 1 + codes.len()) == codes
            }),
    {
        let (symbol, entry) = self.states()[i].terminal_entries@[t];
        let number = self.symbol_numbers()[symbol] as int;
        self.symbol_numbers_differ(self.symbols().len());
        assert(self.is_terminal_numbered(i, t, number));
        self.lemma_terminal_numbered(i, t, number);
        self.lemma_entry_list(self.states().len());
        assert(self.entry_list().contains(self.states()[i].terminal_entries@[t].1@));
        self.entry_ids_fit(entry@);
        self.actions_are_found(entry@);
    }

    /// The row of a state gives, for a non-terminal with an entry, the state to go to, if that
    /// has a number of at most sixteen bits.
    pub proof fn table_gives_states(&self, i: int, t: int)
        requires
            self.is_consistent(),
            0 <= i < self.states().len(),
            0 <= t < self.states()[i].nonterminal_entries@.len(),
            self.symbol_numbers().contains_key(self.states()[i].nonterminal_entries@[t].0),
            forall|u: int|
                0 <= u < self.states()[i].terminal_entries@.len() ==> (
                #[trigger] self.states()[i].terminal_entries@[u]).0
                    != self.states()[i].nonterminal_entries@[t].0,
            0 <= self.goto_state(i, self.states()[i].nonterminal_entries@[t].1) <= u16::MAX,
        ensures
            self.symbol_numbers()[self.states()[i].nonterminal_entries@[t].0]
                < self.symbols().len(),
            self.table_row(
                i,
            )[self.symbol_numbers()[self.states()[i].nonterminal_entries@[t].0] as int]
                == self.goto_state(i, self.states()[i].nonterminal_entries@[t].1),
    {
        let (symbol, action) = self.states()[i].nonterminal_entries@[t];
        let number = self.symbol_numbers()[symbol] as int;
        self.symbol_numbers_differ(self.symbols().len());
        assert(self.is_nonterminal_numbered(i, t, number));
        self.lemma_nonterminal_numbered(i, t, number);
        assert forall|u: int| !self.is_terminal_numbered(i, u, number) by {
            if self.is_terminal_numbered(i, u, number) {
                assert(self.symbol_numbers().contains_key(self.states()[i].terminal_entries@[u].0));
            }
        }
    }

    /// A state in compact form begins where the map says.
    pub proof fn small_state_is_found(&self, k: nat, n: nat)
        requires
            k < n <= self.small_state_count(),
        ensures
            ({
                let start = self.small_table_upto(k).len() as int;
                let segment = self.state_segment(self.large_state_count() + k);
                &&& start + segment.len() <= self.small_table_upto(n).len()
                &&& self.small_table_upto(n).subrange(start, start + segment.len()) == segment
            }),
        decreases n,
    {
        let start = self.small_table_upto(k).len() as int;
        let segment = self.state_segment(self.large_state_count() + k);
        let table = self.small_table_upto(n);
        let before = self.small_table_upto((n - 1) as nat);
        if k == n - 1 {
            assert(table.subrange(start, start + segment.len()) =~= segment);
        } else {
            self.small_state_is_found(k, (n - 1) as nat);
            assert(table.subrange(start, start + segment.len()) =~= before.subrange(
                start,
                start + segment.len(),
            ));
        }
    }

    /// The groups of a state in compact form hold its entries, and no others: each symbol is in
    /// the group of what it leads to.
    pub proof fn compact_state_holds_its_entries(&self, i: int, symbol: Symbol, key: GroupKey)
        ensures
            self.state_items(i).contains((symbol, key)) == (group_keys(
                self.state_items(i),
            ).contains(key) && members(self.state_items(i), key).contains(symbol)),
    {
        let items = self.state_items(i);
        lemma_groups(items, key);
        let keys = Set::new(|k: GroupKey| has_key(items, k));
        assert(group_keys(items).contains(key) == keys.contains(key)) by {
            assert(group_keys(items).to_set().contains(key) == group_keys(items).contains(key));
        }
        assert(members(items, key).to_set().contains(symbol) == members(items, key).contains(
            symbol,
        ));
        if items.contains((symbol, key)) {
            let k = items.index_of((symbol, key));
            assert(items[k].1 == key);
        }
    }

    /// What a state in compact form says, where the map says that it begins, is what its row in
    /// full would say, for the symbol with any number. The state has only entries for symbols
    /// with numbers, and all counts fit in sixteen bits.
    pub proof fn compact_state_can_be_looked_up(&self, k: nat, number: int)
        requires
            self.is_consistent(),
            k < self.small_state_count(),
            0 <= number < self.symbols().len() <= 0x1_0000,
            self.state_items(self.large_state_count() + k).len() < 0x1_0000,
            self.has_numbered_entries(self.large_state_count() + k),
            self.has_separate_entries(self.large_state_count() + k),
        ensures
            ({
                let place = self.small_table_upto(k).len() as int;
                looked_up(
                    self.small_table(),
                    place + 1,
                    self.small_table()[place] as nat,
                    low16(number),
                ) == self.table_value(self.large_state_count() + k, number)
            }),
    {
        let i = self.large_state_count() + k;
        let table = self.small_table();
        let place = self.small_table_upto(k).len() as int;
        self.large_states_come_first();
        self.small_state_is_found(k, self.small_state_count());
        let segment = self.state_segment(i);
        assert(table.subrange(place, place + segment.len())[0] == segment[0]);
        let items = self.state_items(i);
        let keys = group_keys(items);
        let terminal_count = self.states()[i].terminal_entries@.len();
        lemma_sizes(items);
        assert(keys.take(0) =~= Seq::<GroupKey>::empty());
        if exists|t: int| self.is_terminal_numbered(i, t, number) {
            let t = choose|t: int| self.is_terminal_numbered(i, t, number);
            self.lemma_terminal_numbered(i, t, number);
            let h = self.lemma_group_of(i, t, number);
            assert(keys[h].value == self.entry_id(self.states()[i].terminal_entries@[t].1@));
            self.lemma_looked_up(i, table, place, 0, h, low16(number));
        } else if exists|t: int| self.is_nonterminal_numbered(i, t, number) {
            let t = choose|t: int| self.is_nonterminal_numbered(i, t, number);
            self.lemma_nonterminal_numbered(i, t, number);
            let h = self.lemma_group_of(i, terminal_count + t, number);
            assert(keys[h].value == self.goto_state(i, self.states()[i].nonterminal_entries@[t].1));
            self.lemma_looked_up(i, table, place, 0, h, low16(number));
        } else {
            assert forall|h: int| 0 <= h < keys.len() implies !self.is_in_group(
                i,
                h,
                low16(number),
            ) by {
                if self.is_in_group(i, h, low16(number)) {
                    let k = self.lemma_item_of(i, h, number);
                    if k < terminal_count {
                        assert(self.is_terminal_numbered(i, k, number));
                    } else {
                        assert(self.is_nonterminal_numbered(i, k - terminal_count, number));
                    }
                }
            }
            self.lemma_looked_up(i, table, place, 0, keys.len() as int, low16(number));
        }
    }

    /// All symbols for which state `i` has entries have numbers.
    pub open spec fn has_numbered_entries(&self, i: int) -> bool {
        forall|k: int|
            0 <= k < self.state_items(i).len() ==> self.symbol_numbers().contains_key(
                (#[trigger] self.state_items(i)[k]).0,
            )
    }

    /// No symbol is both a token and a non-terminal of state `i`.
    pub open spec fn has_separate_entries(&self, i: int) -> bool {
        forall|t: int, u: int|
            0 <= t < self.states()[i].terminal_entries@.len() && 0 <= u
                < self.states()[i].nonterminal_entries@.len() ==> (
            #[trigger] self.states()[i].terminal_entries@[t]).0 != (
            #[trigger] self.states()[i].nonterminal_entries@[u]).0
    }

    /// The number is written in group `h` of state `i`.
    spec fn is_in_group(&self, i: int, h: int, number: u16) -> bool {
        let items = self.state_items(i);
        exists|m: int|
            0 <= m < members(items, group_keys(items)[h]).len() && low16(
                self.table_number(#[trigger] members(items, group_keys(items)[h])[m]) as int,
            ) == number
    }

    /// Where group `g` of state `i` begins.
    pub open spec fn group_start(&self, i: int, g: int) -> int {
        let items = self.state_items(i);
        self.groups_values(items, group_keys(items).take(g)).len() as int + 1
    }

    /// The groups of a state are found in its compact form, one behind another.
    proof fn lemma_segment(&self, i: int)
        ensures
            forall|g: int|
                0 <= g < group_keys(self.state_items(i)).len() ==> {
                    let values = self.group_values(
                        self.state_items(i),
                        group_keys(self.state_items(i))[g],
                    );
                    let start = #[trigger] self.group_start(i, g);
                    &&& start + values.len() <= self.state_segment(i).len()
                    &&& self.state_segment(i).subrange(start, start + values.len()) == values
                    &&& self.group_start(i, g + 1) == start + values.len()
                },
    {
        let items = self.state_items(i);
        let keys = group_keys(items);
        let segment = self.state_segment(i);
        assert forall|g: int| 0 <= g < keys.len() implies {
            let values = self.group_values(items, keys[g]);
            let start = #[trigger] self.group_start(i, g);
            &&& start + values.len() <= segment.len()
            &&& segment.subrange(start, start + values.len()) == values
            &&& self.group_start(i, g + 1) == start + values.len()
        } by {
            let values = self.group_values(items, keys[g]);
            let start = self.group_start(i, g);
            assert(keys.take(g + 1).drop_last() =~= keys.take(g));
            assert(keys.take(g + 1).last() == keys[g]);
            self.lemma_groups_begin(items, keys, g + 1);
            let upto = self.groups_values(items, keys.take(g + 1));
            let all = self.groups_values(items, keys);
            assert forall|x: int| start <= x < start + values.len() implies segment[x] == values[x
                - start] by {
                assert(segment[x] == all[x - 1]);
                assert(all[x - 1] == upto[x - 1]);
            }
            assert(segment.subrange(start, start + values.len()) =~= values);
        }
    }

    /// The values of the first groups begin those of all.
    proof fn lemma_groups_begin(
        &self,
        items: Seq<(Symbol, GroupKey)>,
        keys: Seq<GroupKey>,
        g: int,
    )
        requires
            0 <= g <= keys.len(),
        ensures
            ({
                let upto = self.groups_values(items, keys.take(g));
                let all = self.groups_values(items, keys);
                &&& upto.len() <= all.len()
                &&& forall|x: int| 0 <= x < upto.len() ==> #[trigger] all[x] == upto[x]
            }),
        decreases keys.len(),
    {
        if g == keys.len() {
            assert(keys.take(g) =~= keys);
        } else {
            self.lemma_groups_begin(items, keys.drop_last(), g);
            assert(keys.drop_last().take(g) =~= keys.take(g));
        }
    }

    /// A table holds state `i` in compact form at the given place.
    spec fn holds_segment(&self, i: int, table: Seq<u16>, place: int) -> bool {
        let segment = self.state_segment(i);
        &&& 0 <= place
        &&& place + segment.len() <= table.len()
        &&& table.subrange(place, place + segment.len()) == segment
    }

    /// The values of group `g` of state `i` stand where its group starts, and the next group starts
    /// behind them.
    proof fn lemma_group_values(&self, i: int, table: Seq<u16>, place: int, g: int)
        requires
            self.holds_segment(i, table, place),
            0 <= g < group_keys(self.state_items(i)).len(),
        ensures
            ({
                let items = self.state_items(i);
                let start = place + self.group_start(i, g);
                let values = self.group_values(items, group_keys(items)[g]);
                &&& 0 <= start
                &&& start + values.len() <= table.len()
                &&& place + self.group_start(i, g + 1) == start + values.len()
                &&& forall|x: int|
                    0 <= x < values.len() ==> table[start + x] == #[trigger] values[x]
            }),
    {
        let items = self.state_items(i);
        let segment = self.state_segment(i);
        let within = self.group_start(i, g);
        let start = place + within;
        let values = self.group_values(items, group_keys(items)[g]);
        self.lemma_segment(i);
        let part = segment.subrange(within, within + values.len());
        assert forall|x: int| 0 <= x < values.len() implies table[start + x]
            == #[trigger] values[x] by {
            assert(part[x] == values[x]);
            assert(table.subrange(place, place + segment.len())[within + x] == segment[within + x]);
        }
    }

    /// A state in compact form begins with the number of its groups. Each group is its value, its
    /// size and the numbers of its symbols, of which one without a number of its own has 0; the next
    /// group follows.
    pub proof fn compact_groups_are_written(&self, i: int, g: int, m: int)
        requires
            0 <= g < group_keys(self.state_items(i)).len(),
        ensures
            ({
                let keys = group_keys(self.state_items(i));
                let group = members(self.state_items(i), keys[g]);
                let values = self.state_segment(i);
                let start = self.group_start(i, g);
                &&& values[0] == low16(keys.len() as int)
                &&& self.group_start(i, 0) == 1
                &&& self.group_start(i, g + 1) == start + 2 + group.len()
                &&& self.group_start(i, g + 1) <= values.len()
                &&& values[start] == low16(keys[g].value as int)
                &&& values[start + 1] == low16(group.len() as int)
                &&& 0 <= m < group.len() ==> values[start + 2 + m] == if self.symbol_numbers().contains_key(
                    group[m],
                ) {
                    low16(self.symbol_numbers()[group[m]] as int)
                } else {
                    0
                }
            }),
    {
        let items = self.state_items(i);
        let key = group_keys(items)[g];
        let segment = self.state_segment(i);
        let values = self.group_values(items, key);
        let start = self.group_start(i, g);
        assert(segment.subrange(0, segment.len() as int) =~= segment);
        self.lemma_group_values(i, segment, 0, g);
        assert(segment[start + 0] == values[0]);
        assert(segment[start + 1] == values[1]);
        if 0 <= m < members(items, key).len() {
            assert(segment[start + (m + 2)] == values[m + 2]);
        }
        assert(group_keys(items).take(0) =~= Seq::<GroupKey>::empty());
    }

    /// How group `g` of state `i` is looked at, where a table holds the state.
    proof fn lemma_group(&self, i: int, table: Seq<u16>, place: int, g: int, number: u16)
        requires
            self.holds_segment(i, table, place),
            0 <= g < group_keys(self.state_items(i)).len(),
            members(self.state_items(i), group_keys(self.state_items(i))[g]).len() < 0x1_0000,
        ensures
            ({
                let keys = group_keys(self.state_items(i));
                let start = place + self.group_start(i, g);
                let size = table[start + 1];
                &&& table[start] == low16(keys[g].value as int)
                &&& table.subrange(start + 2, start + 2 + size).contains(number)
                    == self.is_in_group(i, g, number)
                &&& place + self.group_start(i, g + 1) == start + 2 + size
            }),
    {
        let items = self.state_items(i);
        let keys = group_keys(items);
        let start = place + self.group_start(i, g);
        let group = members(items, keys[g]);
        let values = self.group_values(items, keys[g]);
        self.lemma_group_values(i, table, place, g);
        assert(table[start + 0] == values[0] && table[start + 1] == values[1]);
        let numbers = table.subrange(start + 2, start + 2 + group.len());
        assert forall|m: int| 0 <= m < group.len() implies numbers[m] == low16(
            self.table_number(#[trigger] group[m]) as int,
        ) by {
            assert(table[start + (m + 2)] == values[m + 2]);
        }
        if numbers.contains(number) {
            let m = numbers.index_of(number);
            assert(low16(self.table_number(group[m]) as int) == number);
        }
        if self.is_in_group(i, g, number) {
            let m = choose|m: int|
                0 <= m < group.len() && low16(self.table_number(#[trigger] group[m]) as int)
                    == number;
            assert(numbers[m] == number);
        }
    }

    /// A number that is written in group `h` and in none before it, from group `g` on, is looked
    /// up there; one that is written in none, with `h` behind the last, is not found.
    proof fn lemma_looked_up(
        &self,
        i: int,
        table: Seq<u16>,
        place: int,
        g: int,
        h: int,
        number: u16,
    )
        requires
            self.holds_segment(i, table, place),
            0 <= g <= h <= group_keys(self.state_items(i)).len(),
            forall|key: GroupKey| #[trigger]
                members(self.state_items(i), key).len() < 0x1_0000,
            forall|x: int| g <= x < h ==> !self.is_in_group(i, x, number),
            h < group_keys(self.state_items(i)).len() ==> self.is_in_group(i, h, number),
        ensures
            looked_up(
                table,
                place + self.group_start(i, g),
                (group_keys(self.state_items(i)).len() - g) as nat,
                number,
            ) == (if h < group_keys(self.state_items(i)).len() {
                low16(group_keys(self.state_items(i))[h].value as int)
            } else {
                0
            }),
        decreases h - g,
    {
        if g < group_keys(self.state_items(i)).len() {
            self.lemma_group(i, table, place, g, number);
            if g < h {
                assert(!self.is_in_group(i, g, number));
                self.lemma_looked_up(i, table, place, g + 1, h, number);
            }
        }
    }

    /// The symbol of item `k` of state `i` is written in the group of the item's key, and no other
    /// group has its number.
    proof fn lemma_group_of(&self, i: int, k: int, number: int) -> (h: int)
        requires
            self.is_consistent(),
            0 <= i < self.states().len(),
            0 <= number < self.symbols().len() <= 0x1_0000,
            self.has_numbered_entries(i),
            self.has_separate_entries(i),
            0 <= k < self.state_items(i).len(),
            self.has_number(self.state_items(i)[k].0, number),
        ensures
            0 <= h < group_keys(self.state_items(i)).len(),
            group_keys(self.state_items(i))[h] == self.state_items(i)[k].1,
            self.is_in_group(i, h, low16(number)),
            forall|x: int| 0 <= x < h ==> !self.is_in_group(i, x, low16(number)),
    {
        let items = self.state_items(i);
        let (symbol, key) = items[k];
        let keys = group_keys(items);
        assert(items.contains((symbol, key)));
        self.compact_state_holds_its_entries(i, symbol, key);
        let h = keys.index_of(key);
        let group = members(items, key);
        let m = group.index_of(symbol);
        assert(low16(self.table_number(group[m]) as int) == low16(number));
        assert forall|x: int| 0 <= x < h implies !self.is_in_group(i, x, low16(number)) by {
            if self.is_in_group(i, x, low16(number)) {
                let other = self.lemma_item_of(i, x, number);
                self.symbol_numbers_differ(self.symbols().len());
                assert(items[other].0 == symbol);
                self.lemma_one_item(i, k, other);
                lemma_groups(items, key);
                assert((group_order(items))(keys[x], keys[h]));
            }
        }
        h
    }

    /// A number that is written in a group is that of an item with the group's key.
    proof fn lemma_item_of(&self, i: int, h: int, number: int) -> (k: int)
        requires
            self.is_consistent(),
            0 <= h < group_keys(self.state_items(i)).len(),
            0 <= number < self.symbols().len() <= 0x1_0000,
            self.has_numbered_entries(i),
            self.is_in_group(i, h, low16(number)),
        ensures
            0 <= k < self.state_items(i).len(),
            self.state_items(i)[k].1 == group_keys(self.state_items(i))[h],
            self.has_number(self.state_items(i)[k].0, number),
    {
        let items = self.state_items(i);
        let key = group_keys(items)[h];
        let group = members(items, key);
        let m = choose|m: int|
            0 <= m < group.len() && low16(self.table_number(#[trigger] group[m]) as int) == low16(
                number,
            );
        let symbol = group[m];
        assert(group.contains(symbol));
        assert(group_keys(items).contains(key));
        self.compact_state_holds_its_entries(i, symbol, key);
        let k = items.index_of((symbol, key));
        assert(items[k] == (symbol, key));
        self.symbol_numbers_differ(self.symbols().len());
        assert(self.symbol_numbers().contains_key(items[k].0));
        assert(self.table_number(symbol) < self.symbols().len());
        k
    }

    /// No symbol has two items.
    proof fn lemma_one_item(&self, i: int, a: int, b: int)
        requires
            self.is_consistent(),
            0 <= i < self.states().len(),
            self.has_separate_entries(i),
            0 <= a < self.state_items(i).len(),
            0 <= b < self.state_items(i).len(),
            self.state_items(i)[a].0 == self.state_items(i)[b].0,
        ensures
            a == b,
    {
        let state = self.states()[i];
        let n = state.terminal_entries@.len();
        assert(state.wf());
        if a < n && b < n {
            if a < b {
                assert(state.terminal_entries@[a].0 != state.terminal_entries@[b].0);
            } else if b < a {
                assert(state.terminal_entries@[b].0 != state.terminal_entries@[a].0);
            }
        } else if a >= n && b >= n {
            if a < b {
                assert(state.nonterminal_entries@[a - n].0 != state.nonterminal_entries@[b - n].0);
            } else if b < a {
                assert(state.nonterminal_entries@[b - n].0 != state.nonterminal_entries@[a - n].0);
            }
        } else if a < n {
            assert(self.states()[i].terminal_entries@[a].0
                != self.states()[i].nonterminal_entries@[b - n].0);
        } else {
            assert(self.states()[i].terminal_entries@[b].0
                != self.states()[i].nonterminal_entries@[a - n].0);
        }
    }

    /// A state in compact form has no group twice, and no symbol twice in a group; the groups are
    /// in the order of their sizes.
    pub proof fn compact_state_is_sorted(&self, i: int, key: GroupKey)
        ensures
            is_ascending(group_keys(self.state_items(i)), group_order(self.state_items(i))),
            is_ascending(members(self.state_items(i), key), symbol_order()),
    {
        lemma_groups(self.state_items(i), key);
    }
}

/// There are at most as many groups as items, and as many members.
proof fn lemma_sizes(items: Seq<(Symbol, GroupKey)>)
    ensures
        group_keys(items).len() <= items.len(),
        forall|key: GroupKey| #[trigger] members(items, key).len() <= items.len(),
{
    broadcast use vstd::seq_lib::seq_to_set_is_finite;

    let all_keys = items.map_values(|item: (Symbol, GroupKey)| item.1);
    let keys = group_keys(items);
    lemma_groups(items, items[0].1);
    assert forall|k: GroupKey| keys.to_set().contains(k) implies all_keys.to_set().contains(k) by {
        let j = choose|j: int| 0 <= j < items.len() && (#[trigger] items[j]).1 == k;
        assert(all_keys[j] == k);
    }
    assert(keys.no_duplicates());
    keys.unique_seq_to_set();
    vstd::set_lib::lemma_len_subset(keys.to_set(), all_keys.to_set());
    all_keys.lemma_cardinality_of_set();
    let all_symbols = items.map_values(|item: (Symbol, GroupKey)| item.0);
    all_symbols.lemma_cardinality_of_set();
    assert forall|key: GroupKey| #[trigger] members(items, key).len() <= items.len() by {
        let group = members(items, key);
        lemma_groups(items, key);
        assert forall|s: Symbol| group.to_set().contains(s) implies all_symbols.to_set().contains(
            s,
        ) by {
            let j = items.index_of((s, key));
            assert(items[j] == (s, key));
            assert(all_symbols[j] == s);
        }
        lemma_symbol_order();
        assert(group.no_duplicates());
        group.unique_seq_to_set();
        vstd::set_lib::lemma_len_subset(group.to_set(), all_symbols.to_set());
    }
}

/// The keys and the members of groups can be put in order.
pub proof fn lemma_groups(items: Seq<(Symbol, GroupKey)>, key: GroupKey)
    ensures
        is_ascending(group_keys(items), group_order(items)),
        group_keys(items).to_set() == Set::new(|k: GroupKey| has_key(items, k)),
        is_ascending(members(items, key), symbol_order()),
        members(items, key).to_set() == member_set(items, key),
{
    broadcast use vstd::seq_lib::seq_to_set_is_finite;

    let all_keys = items.map_values(|item: (Symbol, GroupKey)| item.1);
    let keys = Set::new(|k: GroupKey| has_key(items, k));
    assert forall|k: GroupKey| keys.contains(k) == all_keys.to_set().contains(k) by {
        if has_key(items, k) {
            let j = choose|j: int| 0 <= j < items.len() && (#[trigger] items[j]).1 == k;
            assert(all_keys[j] == k);
        }
        if all_keys.contains(k) {
            let j = all_keys.index_of(k);
            assert(items[j].1 == k);
        }
    }
    assert(keys =~= all_keys.to_set());
    assert(is_strict_order(group_order(items)));
    lemma_ascending_exists(keys, group_order(items));
    let all_symbols = items.map_values(|item: (Symbol, GroupKey)| item.0);
    assert forall|s: Symbol| member_set(items, key).contains(s) implies all_symbols.to_set().contains(
        s,
    ) by {
        let j = items.index_of((s, key));
        assert(items[j] == (s, key));
        assert(all_symbols[j] == s);
    }
    vstd::set_lib::lemma_set_subset_finite(all_symbols.to_set(), member_set(items, key));
    lemma_symbol_order();
    lemma_ascending_exists(member_set(items, key), symbol_order());
}

} // verus!
