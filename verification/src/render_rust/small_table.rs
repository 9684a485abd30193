//! The compact part of the parse table.
use vstd::prelude::*;

use crate::order::{
    ascending, is_ascending, is_strict_order, lemma_ascending_is, lemma_insert_ascending,
};
use crate::render_rust::entries::ActionLists;
use crate::render_rust::generator::RustGenerator;
use crate::render_rust::input::ParserInput;
use crate::render_rust::parse_table::{low16, low16_of};
use crate::rules::{insert_symbol, lemma_symbol_order, symbol_order, Symbol};
use crate::tables::{GotoAction, ParseState, ParseTableEntry};
use crate::text::{array_lines, concat3, concat5, count_text, decimal, decimal_text, TextList};

verus! {

/// What the symbols of a group have in common: a number of a list of actions, or a state.
pub struct GroupKey {
    pub value: nat,
    pub is_nonterminal: bool,
}

/// The key is one of an item.
pub open spec fn has_key(items: Seq<(Symbol, GroupKey)>, key: GroupKey) -> bool {
    exists|k: int| 0 <= k < items.len() && (#[trigger] items[k]).1 == key
}

/// The symbols with the given key.
pub open spec fn member_set(items: Seq<(Symbol, GroupKey)>, key: GroupKey) -> Set<Symbol> {
    Set::new(|symbol: Symbol| items.contains((symbol, key)))
}

/// The symbols with the given key, in ascending order.
pub open spec fn members(items: Seq<(Symbol, GroupKey)>, key: GroupKey) -> Seq<Symbol> {
    ascending(member_set(items, key), symbol_order())
}

/// Groups are ordered by their sizes; of one size, those of tokens come first, and of one kind,
/// those with lesser values.
pub open spec fn group_order(items: Seq<(Symbol, GroupKey)>) -> spec_fn(GroupKey, GroupKey) -> bool {
    |a: GroupKey, b: GroupKey|
        {
            let m = members(items, a).len();
            let n = members(items, b).len();
            ||| m < n
            ||| m == n && !a.is_nonterminal && b.is_nonterminal
            ||| m == n && a.is_nonterminal == b.is_nonterminal && a.value < b.value
        }
}

/// The keys of the groups, in order.
pub open spec fn group_keys(items: Seq<(Symbol, GroupKey)>) -> Seq<GroupKey> {
    ascending(Set::new(|key: GroupKey| has_key(items, key)), group_order(items))
}

impl ParserInput {
    /// The symbols for which state `i` has entries, with what they lead to.
    pub open spec fn state_items(&self, i: int) -> Seq<(Symbol, GroupKey)> {
        let state = self.states()[i];
        Seq::new(
            state.terminal_entries@.len(),
            |k: int|
                (
                    state.terminal_entries@[k].0,
                    GroupKey {
                        value: self.entry_id(state.terminal_entries@[k].1@),
                        is_nonterminal: false,
                    },
                ),
        ) + Seq::new(
            state.nonterminal_entries@.len(),
            |k: int|
                (
                    state.nonterminal_entries@[k].0,
                    GroupKey {
                        value: self.goto_state(i, state.nonterminal_entries@[k].1) as nat,
                        is_nonterminal: true,
                    },
                ),
        )
    }

    /// A group as it is stored: its value, its size and the numbers of its symbols.
    pub open spec fn group_values(&self, items: Seq<(Symbol, GroupKey)>, key: GroupKey) -> Seq<
        u16,
    > {
        seq![low16(key.value as int), low16(members(items, key).len() as int)] + members(
            items,
            key,
        ).map_values(|symbol: Symbol| low16(self.table_number(symbol) as int))
    }

    /// The groups with the given keys as they are stored.
    pub open spec fn groups_values(
        &self,
        items: Seq<(Symbol, GroupKey)>,
        keys: Seq<GroupKey>,
    ) -> Seq<u16>
        decreases keys.len(),
    {
        if keys.len() == 0 {
            Seq::empty()
        } else {
            self.groups_values(items, keys.drop_last()) + self.group_values(items, keys.last())
        }
    }

    /// State `i` as it is stored in compact form: the number of its groups, and the groups.
    pub open spec fn state_segment(&self, i: int) -> Seq<u16> {
        let items = self.state_items(i);
        seq![low16(group_keys(items).len() as int)] + self.groups_values(items, group_keys(items))
    }

    /// The first `n` of the states in compact form.
    pub open spec fn small_table_upto(&self, n: nat) -> Seq<u16>
        decreases n,
    {
        if n == 0 {
            Seq::empty()
        } else {
            self.small_table_upto((n - 1) as nat) + self.state_segment(
                self.large_state_count() + n - 1,
            )
        }
    }

    /// The number of states in compact form.
    pub open spec fn small_state_count(&self) -> nat {
        (self.states().len() - self.large_state_count()) as nat
    }

    /// The states in compact form.
    pub open spec fn small_table(&self) -> Seq<u16> {
        self.small_table_upto(self.small_state_count())
    }

    /// The compact part of the parse table, and where each state begins in it.
    pub open spec fn small_table_lines(&self) -> Seq<Seq<char>> {
        if self.small_state_count() == 0 {
            Seq::empty()
        } else {
            array_lines(
                "static TS_SMALL_PARSE_TABLE: [u16; "@ + decimal(self.small_table().len())
                    + "] = ["@,
                Seq::new(
                    self.small_table().len(),
                    |i: int|
                        "/* "@ + decimal(i as nat) + " */ "@ + decimal(
                            self.small_table()[i] as nat,
                        ) + ","@,
                ),
            ) + array_lines(
                "static TS_SMALL_PARSE_TABLE_MAP: [u32; "@ + decimal(self.small_state_count())
                    + "] = ["@,
                Seq::new(
                    self.small_state_count(),
                    |i: int|
                        "/* "@ + decimal((i + self.large_state_count()) as nat) + " */ "@
                            + decimal(self.small_table_upto(i as nat).len()) + ","@,
                ),
            )
        }
    }
}

/// Symbols with one key.
pub struct Group {
    pub value: usize,
    pub is_nonterminal: bool,
    pub symbols: Vec<Symbol>,
}

impl Group {
    /// What the symbols have in common.
    pub open spec fn key(&self) -> GroupKey {
        GroupKey { value: self.value as nat, is_nonterminal: self.is_nonterminal }
    }
}

/// A symbol with what it leads to.
pub struct Item {
    pub symbol: Symbol,
    pub value: usize,
    pub is_nonterminal: bool,
}

impl View for Item {
    type V = (Symbol, GroupKey);

    open spec fn view(&self) -> (Symbol, GroupKey) {
        (
            self.symbol,
            GroupKey { value: self.value as nat, is_nonterminal: self.is_nonterminal },
        )
    }
}

/// What the items say.
pub open spec fn item_views(items: Seq<Item>) -> Seq<(Symbol, GroupKey)> {
    items.map_values(|item: Item| item@)
}

/// The keys of a list of groups.
pub open spec fn keys_of(groups: Seq<Group>) -> Seq<GroupKey> {
    groups.map_values(|group: Group| group.key())
}

/// Each group has the symbols with its key.
pub open spec fn are_groups(groups: Seq<Group>, items: Seq<(Symbol, GroupKey)>) -> bool {
    &&& keys_of(groups).no_duplicates()
    &&& forall|g: int|
        0 <= g < groups.len() ==> has_members(#[trigger] groups[g], items)
}

/// The group has the symbols with its key, in ascending order.
pub open spec fn has_members(group: Group, items: Seq<(Symbol, GroupKey)>) -> bool {
    &&& is_ascending(group.symbols@, symbol_order())
    &&& group.symbols@.to_set() == member_set(items, group.key())
}

proof fn lemma_members(group: Group, items: Seq<(Symbol, GroupKey)>)
    requires
        has_members(group, items),
    ensures
        group.symbols@ == members(items, group.key()),
{
    lemma_symbol_order();
    lemma_ascending_is(group.symbols@, member_set(items, group.key()), symbol_order());
}

proof fn lemma_group_order(items: Seq<(Symbol, GroupKey)>)
    ensures
        is_strict_order(group_order(items)),
{
}

/// What one more item adds.
proof fn lemma_next_item(items: Seq<(Symbol, GroupKey)>, n: int)
    requires
        0 <= n < items.len(),
    ensures
        forall|key: GroupKey| #[trigger]
            has_key(items.take(n + 1), key) == (has_key(items.take(n), key) || key == items[n].1),
        forall|key: GroupKey| #[trigger]
            member_set(items.take(n + 1), key) == (if key == items[n].1 {
                member_set(items.take(n), key).insert(items[n].0)
            } else {
                member_set(items.take(n), key)
            }),
{
    let before = items.take(n);
    let after = items.take(n + 1);
    assert(after =~= before.push(items[n]));
    assert forall|key: GroupKey| #[trigger] has_key(after, key) == (has_key(before, key) || key
        == items[n].1) by {
        if has_key(before, key) {
            let k = choose|k: int| 0 <= k < before.len() && (#[trigger] before[k]).1 == key;
            assert(after[k].1 == key);
        }
        if key == items[n].1 {
            assert(after[n].1 == key);
        }
        if has_key(after, key) && key != items[n].1 {
            let k = choose|k: int| 0 <= k < after.len() && (#[trigger] after[k]).1 == key;
            assert(before[k].1 == key);
        }
    }
    assert forall|key: GroupKey| #[trigger] member_set(after, key) == (if key == items[n].1 {
        member_set(before, key).insert(items[n].0)
    } else {
        member_set(before, key)
    }) by {
        assert forall|s: Symbol| after.contains((s, key)) == (before.contains((s, key)) || (s, key)
            == items[n]) by {
            if before.contains((s, key)) {
                assert(after[before.index_of((s, key))] == (s, key));
            }
            if (s, key) == items[n] {
                assert(after[n] == (s, key));
            }
            if after.contains((s, key)) && (s, key) != items[n] {
                assert(before[after.index_of((s, key))] == (s, key));
            }
        }
        if key == items[n].1 {
            assert(member_set(after, key) =~= member_set(before, key).insert(items[n].0));
        } else {
            assert(member_set(after, key) =~= member_set(before, key));
        }
    }
}

/// Puts an item in its group.
#[verifier::rlimit(40)]
fn add_item(groups: &mut Vec<Group>, item: &Item, Ghost(items): Ghost<Seq<(Symbol, GroupKey)>>, Ghost(n): Ghost<int>)
    requires
        0 <= n < items.len(),
        item@ == items[n],
        are_groups(old(groups)@, items.take(n)),
        forall|key: GroupKey| #[trigger]
            keys_of(old(groups)@).contains(key) == has_key(items.take(n), key),
    ensures
        are_groups(final(groups)@, items.take(n + 1)),
        forall|key: GroupKey| #[trigger]
            keys_of(final(groups)@).contains(key) == has_key(items.take(n + 1), key),
{
    let ghost before = groups@;
    let ghost key = item@.1;
    proof {
        lemma_next_item(items, n);
    }
    let mut g: usize = 0;
    while g < groups.len() && !(groups[g].value == item.value && groups[g].is_nonterminal
        == item.is_nonterminal)
        invariant
            g <= groups@.len(),
            key == item@.1,
            groups@ == before,
            forall|j: int| 0 <= j < g ==> #[trigger] keys_of(before)[j] != key,
        decreases groups@.len() - g,
    {
        assert(keys_of(before)[g as int] == before[g as int].key());
        g += 1;
    }
    if g < groups.len() {
        let mut group: Group = groups.remove(g);
        assert(has_members(before[g as int], items.take(n)));
        insert_symbol(&mut group.symbols, item.symbol);
        groups.insert(g, group);
        proof {
            assert(before[g as int].key() == key);
            assert(keys_of(groups@) =~= keys_of(before));
            assert forall|j: int| 0 <= j < groups@.len() implies has_members(
                #[trigger] groups@[j],
                items.take(n + 1),
            ) by {
                if j != g {
                    assert(groups@[j] == before[j]);
                    assert(has_members(before[j], items.take(n)));
                    assert(keys_of(before)[j] != keys_of(before)[g as int]);
                }
            }
            assert(keys_of(before)[g as int] == key);
            assert(keys_of(before).contains(key));
        }
    } else {
        let mut symbols: Vec<Symbol> = Vec::new();
        symbols.push(item.symbol);
        groups.push(
            Group { value: item.value, is_nonterminal: item.is_nonterminal, symbols },
        );
        proof {
            let keys = keys_of(groups@);
            assert(keys =~= keys_of(before).push(key));
            assert(!keys_of(before).contains(key));
            assert(!has_key(items.take(n), key));
            assert(member_set(items.take(n), key) =~= Set::<Symbol>::empty()) by {
                assert forall|s: Symbol| !items.take(n).contains((s, key)) by {
                    if items.take(n).contains((s, key)) {
                        assert(items.take(n)[items.take(n).index_of((s, key))].1 == key);
                    }
                }
            }
            assert(symbols@.to_set() =~= Set::<Symbol>::empty().insert(item.symbol)) by {
                assert(symbols@[0] == item.symbol);
            }
            assert forall|j: int| 0 <= j < groups@.len() implies has_members(
                #[trigger] groups@[j],
                items.take(n + 1),
            ) by {
                if j < before.len() {
                    assert(groups@[j] == before[j]);
                    assert(has_members(before[j], items.take(n)));
                    assert(keys_of(before)[j] != key);
                }
            }
            assert forall|k: GroupKey| #[trigger] keys.contains(k) == has_key(
                items.take(n + 1),
                k,
            ) by {
                assert(keys_of(before).contains(k) == has_key(items.take(n), k));
                if keys_of(before).contains(k) {
                    assert(keys[keys_of(before).index_of(k)] == k);
                }
                if k == key {
                    assert(keys[before.len() as int] == k);
                }
                if keys.contains(k) && k != key {
                    assert(keys_of(before)[keys.index_of(k)] == k);
                }
            }
            assert(keys.no_duplicates()) by {
                assert forall|a: int, b: int|
                    0 <= a < keys.len() && 0 <= b < keys.len() && a != b implies keys[a]
                    != keys[b] by {
                    if a < before.len() {
                        assert(keys_of(before)[a] == keys[a]);
                    }
                    if b < before.len() {
                        assert(keys_of(before)[b] == keys[b]);
                    }
                }
            }
        }
    }
}

/// Group `a` comes before group `b`.
fn is_group_less(a: &Group, b: &Group, Ghost(items): Ghost<Seq<(Symbol, GroupKey)>>) -> (r: bool)
    requires
        has_members(*a, items),
        has_members(*b, items),
    ensures
        r == (group_order(items))(a.key(), b.key()),
{
    proof {
        lemma_members(*a, items);
        lemma_members(*b, items);
    }
    let m: usize = a.symbols.len();
    let n: usize = b.symbols.len();
    m < n || (m == n && ((!a.is_nonterminal && b.is_nonterminal) || (a.is_nonterminal
        == b.is_nonterminal && a.value < b.value)))
}

/// Groups items by what they lead to.
#[verifier::rlimit(40)]
fn group_items(items: &Vec<Item>) -> (r: Vec<Group>)
    ensures
        keys_of(r@) == group_keys(item_views(items@)),
        forall|g: int|
            0 <= g < r@.len() ==> (#[trigger] r@[g]).symbols@ == members(
                item_views(items@),
                r@[g].key(),
            ),
{
    let ghost all = item_views(items@);
    let ghost lt = group_order(all);
    let mut groups: Vec<Group> = Vec::new();
    let mut i: usize = 0;
    assert(keys_of(groups@) =~= Seq::<GroupKey>::empty());
    while i < items.len()
        invariant
            i <= items@.len(),
            all == item_views(items@),
            are_groups(groups@, all.take(i as int)),
            forall|key: GroupKey| #[trigger]
                keys_of(groups@).contains(key) == has_key(all.take(i as int), key),
        decreases items@.len() - i,
    {
        add_item(&mut groups, &items[i], Ghost(all), Ghost(i as int));
        i += 1;
    }
    assert(all.take(i as int) =~= all);
    let mut sorted: Vec<Group> = Vec::new();
    assert(keys_of(sorted@) =~= Seq::<GroupKey>::empty());
    while groups.len() > 0
        invariant
            all == item_views(items@),
            lt == group_order(all),
            are_groups(groups@, all),
            is_ascending(keys_of(sorted@), lt),
            forall|g: int| 0 <= g < sorted@.len() ==> has_members(#[trigger] sorted@[g], all),
            forall|key: GroupKey| #[trigger]
                has_key(all, key) == (keys_of(groups@).contains(key) || keys_of(
                    sorted@,
                ).to_set().contains(key)),
            forall|key: GroupKey|
                !(#[trigger] keys_of(groups@).contains(key) && keys_of(sorted@).contains(key)),
        decreases groups@.len(),
    {
        let ghost before = groups@;
        let ghost q = keys_of(sorted@);
        let ghost sorted_before = sorted@;
        let group: Group = groups.pop().unwrap();
        let ghost key = group.key();
        assert(has_members(before[before.len() - 1], all));
        let mut k: usize = 0;
        while k < sorted.len() && is_group_less(&sorted[k], &group, Ghost(all))
            invariant
                k <= sorted@.len(),
                sorted@ == sorted_before,
                lt == group_order(all),
                q == keys_of(sorted@),
                key == group.key(),
                has_members(group, all),
                forall|g: int| 0 <= g < sorted@.len() ==> has_members(#[trigger] sorted@[g], all),
                forall|j: int| 0 <= j < k ==> lt(#[trigger] q[j], key),
            decreases sorted@.len() - k,
        {
            assert(q[k as int] == sorted@[k as int].key());
            k += 1;
        }
        proof {
            lemma_group_order(all);
            assert(keys_of(before)[before.len() - 1] == key);
            assert(keys_of(before).contains(key));
            assert(!q.contains(key));
            if k < q.len() {
                assert(q[k as int] == sorted@[k as int].key());
                assert(lt(q[k as int], key) || q[k as int] == key || lt(key, q[k as int]));
            }
            lemma_insert_ascending(q, k as int, key, lt);
        }
        sorted.insert(k, group);
        proof {
            let keys = keys_of(sorted@);
            assert(keys =~= q.insert(k as int, key));
            assert(keys_of(groups@) =~= keys_of(before).drop_last());
            assert forall|g: int| 0 <= g < sorted@.len() implies has_members(
                #[trigger] sorted@[g],
                all,
            ) by {
                if g < k {
                    assert(sorted@[g] == sorted_before[g]);
                } else if g > k {
                    assert(sorted@[g] == sorted_before[g - 1]);
                }
            }
            assert forall|g: int| 0 <= g < groups@.len() implies has_members(
                #[trigger] groups@[g],
                all,
            ) by {
                assert(groups@[g] == before[g]);
            }
            assert(keys_of(groups@).no_duplicates()) by {
                assert forall|a: int, b: int|
                    0 <= a < groups@.len() && 0 <= b < groups@.len() && a != b implies keys_of(
                    groups@,
                )[a] != keys_of(groups@)[b] by {
                    assert(keys_of(before)[a] != keys_of(before)[b]);
                }
            }
            assert forall|x: GroupKey| #[trigger] keys_of(groups@).contains(x) == (keys_of(
                before,
            ).contains(x) && x != key) by {
                if keys_of(groups@).contains(x) {
                    let a = keys_of(groups@).index_of(x);
                    assert(keys_of(before)[a] == x);
                    assert(keys_of(before)[a] != keys_of(before)[before.len() - 1]);
                }
                if keys_of(before).contains(x) && x != key {
                    let a = keys_of(before).index_of(x);
                    assert(keys_of(groups@)[a] == x);
                }
            }
            assert forall|x: GroupKey| #[trigger] has_key(all, x) == (keys_of(groups@).contains(x)
                || keys.to_set().contains(x)) by {
                assert(keys_of(groups@).contains(x) == (keys_of(before).contains(x) && x != key));
            }
            assert forall|x: GroupKey| !(#[trigger] keys_of(groups@).contains(x)
                && keys.contains(x)) by {
                if keys.contains(x) {
                    assert(keys.to_set().contains(x));
                    assert(q.to_set().insert(key).contains(x));
                }
                assert(!(keys_of(before).contains(x) && q.contains(x)));
            }
        }
    }
    proof {
        let keys = Set::new(|key: GroupKey| has_key(all, key));
        assert forall|key: GroupKey| keys_of(sorted@).to_set().contains(key) == keys.contains(
            key,
        ) by {
            assert(!keys_of(groups@).contains(key));
            assert(has_key(all, key) == keys_of(sorted@).to_set().contains(key));
        }
        assert(keys_of(sorted@).to_set() =~= keys);
        lemma_group_order(all);
        lemma_ascending_is(keys_of(sorted@), keys, lt);
        assert forall|g: int| 0 <= g < sorted@.len() implies (#[trigger] sorted@[g]).symbols@
            == members(all, sorted@[g].key()) by {
            lemma_members(sorted@[g], all);
        }
    }
    sorted
}

impl RustGenerator {
    /// The symbols for which state `i` has entries.
    fn state_items(&self, i: usize, lists: &ActionLists) -> (r: Vec<Item>)
        requires
            self.wf(),
            i < self.input.states().len(),
            lists.wf(),
            lists@ == self.input.entry_list(),
        ensures
            item_views(r@) == self.input.state_items(i as int),
    {
        let state: &ParseState = &self.input.parse_table.states[i];
        let ghost all = self.input.state_items(i as int);
        let ghost terminal_count = state.terminal_entries@.len();
        proof {
            self.input.lemma_entry_list(self.input.states().len());
        }
        let mut items: Vec<Item> = Vec::new();
        let mut k: usize = 0;
        while k < state.terminal_entries.len()
            invariant
                self.wf(),
                i < self.input.states().len(),
                lists.wf(),
                lists@ == self.input.entry_list(),
                *state == self.input.states()[i as int],
                terminal_count == state.terminal_entries@.len(),
                all == self.input.state_items(i as int),
                forall|t: int|
                    0 <= t < state.terminal_entries@.len() ==> lists@.contains(
                        (#[trigger] state.terminal_entries@[t]).1@,
                    ),
                k <= terminal_count,
                item_views(items@) == all.take(k as int),
            decreases terminal_count - k,
        {
            let entry: &ParseTableEntry = &state.terminal_entries[k].1;
            assert(lists@.contains(state.terminal_entries@[k as int].1@));
            let value: usize = self.entry_number(entry, lists);
            let item: Item = Item {
                symbol: state.terminal_entries[k].0,
                value,
                is_nonterminal: false,
            };
            assert(item@ == all[k as int]);
            let ghost before = item_views(items@);
            items.push(item);
            k += 1;
            assert(item_views(items@) =~= before.push(item@));
            assert(all.take(k as int) =~= all.take(k - 1).push(all[k - 1]));
        }
        let mut k: usize = 0;
        while k < state.nonterminal_entries.len()
            invariant
                self.wf(),
                i < self.input.states().len(),
                *state == self.input.states()[i as int],
                terminal_count == state.terminal_entries@.len(),
                all == self.input.state_items(i as int),
                k <= state.nonterminal_entries@.len(),
                item_views(items@) == all.take(terminal_count + k),
            decreases state.nonterminal_entries@.len() - k,
        {
            let (symbol, action): (Symbol, GotoAction) = state.nonterminal_entries[k];
            let item: Item = Item {
                symbol,
                value: self.goto_state(i, action),
                is_nonterminal: true,
            };
            assert(item@ == all[terminal_count + k]);
            let ghost before = item_views(items@);
            items.push(item);
            k += 1;
            assert(item_views(items@) =~= before.push(item@));
            assert(all.take(terminal_count + k) =~= all.take(terminal_count + k - 1).push(
                all[terminal_count + k - 1],
            ));
        }
        assert(all.take(terminal_count + k) =~= all);
        items
    }

    /// Stores state `i` in compact form.
    fn add_segment(&self, i: usize, lists: &ActionLists, table: &mut Vec<u16>)
        requires
            self.wf(),
            i < self.input.states().len(),
            lists.wf(),
            lists@ == self.input.entry_list(),
        ensures
            final(table)@ == old(table)@ + self.input.state_segment(i as int),
    {
        let ghost input = self.input;
        let items: Vec<Item> = self.state_items(i, lists);
        let groups: Vec<Group> = group_items(&items);
        let ghost all = self.input.state_items(i as int);
        let ghost keys = group_keys(all);
        let ghost start = table@;
        table.push(low16_of(groups.len()));
        let ghost head = table@;
        let mut g: usize = 0;
        assert(keys.take(0) =~= Seq::<GroupKey>::empty());
        assert(table@ =~= head + input.groups_values(all, keys.take(0)));
        while g < groups.len()
            invariant
                self.wf(),
                input == self.input,
                keys == keys_of(groups@),
                forall|g: int|
                    0 <= g < groups@.len() ==> (#[trigger] groups@[g]).symbols@ == members(
                        all,
                        groups@[g].key(),
                    ),
                g <= groups@.len(),
                table@ == head + input.groups_values(all, keys.take(g as int)),
            decreases groups@.len() - g,
        {
            let group: &Group = &groups[g];
            let ghost before = table@;
            let ghost values = input.group_values(all, group.key());
            assert(group.symbols@ == members(all, group.key()));
            table.push(low16_of(group.value));
            table.push(low16_of(group.symbols.len()));
            let mut k: usize = 0;
            assert(table@ =~= before + values.take(2));
            while k < group.symbols.len()
                invariant
                    self.wf(),
                    input == self.input,
                    group.symbols@ == members(all, group.key()),
                    values == input.group_values(all, group.key()),
                    k <= group.symbols@.len(),
                    table@ == before + values.take(k + 2),
                decreases group.symbols@.len() - k,
            {
                let symbol: Symbol = group.symbols[k];
                table.push(low16_of(self.table_number(symbol)));
                assert(values[k + 2] == low16(input.table_number(symbol) as int));
                k += 1;
                assert(table@ =~= before + values.take(k + 2));
            }
            proof {
                assert(values.take(k + 2) =~= values);
                assert(keys.take(g + 1).drop_last() =~= keys.take(g as int));
                assert(keys.take(g + 1).last() == group.key());
                assert(table@ =~= head + input.groups_values(all, keys.take(g + 1)));
            }
            g += 1;
        }
        assert(keys.take(g as int) =~= keys);
        assert(table@ =~= start + self.input.state_segment(i as int));
    }

    /// Adds the compact part of the parse table.
    #[verifier::rlimit(40)]
    pub fn add_small_table(&self, lists: &ActionLists, out: &mut TextList)
        requires
            self.wf(),
            lists.wf(),
            lists@ == self.input.entry_list(),
        ensures
            final(out)@ == old(out)@ + self.input.small_table_lines(),
    {
        if self.large_state_count == self.input.parse_table.states.len() {
            assert(out@ + self.input.small_table_lines() =~= out@);
            return;
        }
        let ghost input = self.input;
        let ghost count = input.small_state_count();
        let mut table: Vec<u16> = Vec::new();
        let mut map_rows: TextList = TextList::new();
        let ghost all_map_rows = Seq::new(
            count,
            |i: int|
                "/* "@ + decimal((i + input.large_state_count()) as nat) + " */ "@ + decimal(
                    input.small_table_upto(i as nat).len(),
                ) + ","@,
        );
        let mut i: usize = self.large_state_count;
        assert(map_rows@ =~= all_map_rows.take(0));
        while i < self.input.parse_table.states.len()
            invariant
                self.wf(),
                lists.wf(),
                lists@ == input.entry_list(),
                input == self.input,
                count == input.small_state_count(),
                all_map_rows == Seq::new(
                    count,
                    |i: int|
                        "/* "@ + decimal((i + input.large_state_count()) as nat) + " */ "@
                            + decimal(input.small_table_upto(i as nat).len()) + ","@,
                ),
                self.large_state_count <= i <= input.states().len(),
                table@ == input.small_table_upto((i - self.large_state_count) as nat),
                map_rows@ == all_map_rows.take(i - self.large_state_count),
            decreases input.states().len() - i,
        {
            let number: String = count_text(i);
            let start: String = count_text(table.len());
            let row: String = concat5("/* ", number.as_str(), " */ ", start.as_str(), ",");
            assert(row@ == all_map_rows[i - self.large_state_count]);
            map_rows.push(row);
            self.add_segment(i, lists, &mut table);
            i += 1;
            assert(map_rows@ =~= all_map_rows.take(i - self.large_state_count));
        }
        assert(all_map_rows.take(i - self.large_state_count) =~= all_map_rows);
        let mut rows: TextList = TextList::new();
        let ghost all_rows = Seq::new(
            table@.len(),
            |i: int| "/* "@ + decimal(i as nat) + " */ "@ + decimal(table@[i] as nat) + ","@,
        );
        let mut k: usize = 0;
        assert(rows@ =~= all_rows.take(0));
        while k < table.len()
            invariant
                all_rows == Seq::new(
                    table@.len(),
                    |i: int| "/* "@ + decimal(i as nat) + " */ "@ + decimal(table@[i] as nat) + ","@,
                ),
                k <= table@.len(),
                rows@ == all_rows.take(k as int),
            decreases table@.len() - k,
        {
            let number: String = count_text(k);
            let value: String = decimal_text(table[k] as u64);
            let row: String = concat5("/* ", number.as_str(), " */ ", value.as_str(), ",");
            assert(row@ == all_rows[k as int]);
            rows.push(row);
            k += 1;
            assert(rows@ =~= all_rows.take(k as int));
        }
        assert(all_rows.take(k as int) =~= all_rows);
        let len: String = count_text(table.len());
        let ghost start = out@;
        out.add_array(concat3("static TS_SMALL_PARSE_TABLE: [u16; ", len.as_str(), "] = ["), &rows);
        let map_len: String = count_text(map_rows.len());
        out.add_array(
            concat3("static TS_SMALL_PARSE_TABLE_MAP: [u32; ", map_len.as_str(), "] = ["),
            &map_rows,
        );
        assert(out@ =~= start + input.small_table_lines());
    }
}

} // verus!
