//! The lists of parse actions, and their numbers.
use vstd::prelude::*;

use crate::order::{
    ascending, is_ascending, is_strict_order, lemma_ascending_exists, lemma_ascending_is,
    lemma_insert_ascending,
};
use crate::render_rust::generator::RustGenerator;
use crate::render_rust::input::ParserInput;
use crate::rules::Symbol;
use crate::tables::{EntryView, ParseAction, ParseState, ParseTableEntry};

verus! {

/// The number of values that an action is stored as: two for a reduction, and else one.
pub open spec fn code_len(action: ParseAction) -> nat {
    if action is Reduce {
        2
    } else {
        1
    }
}

/// The number of values that actions are stored as.
pub open spec fn codes_len(actions: Seq<ParseAction>) -> nat
    decreases actions.len(),
{
    if actions.len() == 0 {
        0
    } else {
        codes_len(actions.drop_last()) + code_len(actions.last())
    }
}

/// The number of places that the first `k` lists of actions take: one for the head of each list,
/// and one for each value that an action is stored as.
pub open spec fn entry_offset(list: Seq<EntryView>, k: int) -> nat
    decreases k,
{
    if k <= 0 {
        0
    } else {
        entry_offset(list, k - 1) + 1 + codes_len(list[k - 1].actions)
    }
}

/// `list` with the new entries that it does not hold yet behind it.
pub open spec fn with_entries(list: Seq<EntryView>, new: Seq<EntryView>) -> Seq<EntryView>
    decreases new.len(),
{
    if new.len() == 0 {
        list
    } else {
        let before = with_entries(list, new.drop_last());
        if before.contains(new.last()) {
            before
        } else {
            before.push(new.last())
        }
    }
}

/// `a` begins `b`.
pub open spec fn begins(a: Seq<EntryView>, b: Seq<EntryView>) -> bool {
    a.len() <= b.len() && forall|i: int| 0 <= i < a.len() ==> #[trigger] a[i] == b[i]
}

/// The places of a list of indices.
pub open spec fn places(indices: Seq<usize>) -> Seq<int> {
    indices.map_values(|i: usize| i as int)
}

impl ParserInput {
    /// Where the entry of a symbol is put in order: symbols without a number come first.
    pub open spec fn entry_rank(&self, symbol: Symbol) -> nat {
        if self.symbol_numbers().contains_key(symbol) {
            1 + self.symbol_numbers()[symbol]
        } else {
            0
        }
    }

    /// The order of a state's entries by the numbers of their symbols.
    pub open spec fn entry_order(&self, state: ParseState) -> spec_fn(int, int) -> bool {
        |a: int, b: int|
            {
                let x = self.entry_rank(state.terminal_entries@[a].0);
                let y = self.entry_rank(state.terminal_entries@[b].0);
                x < y || (x == y && a < b)
            }
    }

    /// The places of a state's entries, in the order of their symbols' numbers.
    pub open spec fn entry_places(&self, state: ParseState) -> Seq<int> {
        ascending(
            Set::new(|k: int| 0 <= k < state.terminal_entries@.len()),
            self.entry_order(state),
        )
    }

    /// A state's entries, in the order of their symbols' numbers.
    pub open spec fn entries_in_order(&self, state: ParseState) -> Seq<EntryView> {
        self.entry_places(state).map_values(|k: int| state.terminal_entries@[k].1@)
    }

    /// The different entries of the first `n` states in the order of their first use, after the
    /// entry without actions.
    pub open spec fn entry_list_upto(&self, n: nat) -> Seq<EntryView>
        decreases n,
    {
        if n == 0 {
            seq![EntryView { actions: Seq::empty(), reusable: false }]
        } else {
            with_entries(
                self.entry_list_upto((n - 1) as nat),
                self.entries_in_order(self.states()[n - 1]),
            )
        }
    }

    /// The different entries of all states.
    pub open spec fn entry_list(&self) -> Seq<EntryView> {
        self.entry_list_upto(self.states().len())
    }

    /// The number of an entry: the place of its list among the places of all lists.
    pub open spec fn entry_id(&self, entry: EntryView) -> nat {
        entry_offset(self.entry_list(), self.entry_list().index_of(entry))
    }

    /// The number of places that all lists of actions take.
    pub open spec fn entry_slots(&self) -> nat {
        entry_offset(self.entry_list(), self.entry_list().len() as int)
    }

    proof fn lemma_entry_order(&self, state: ParseState)
        ensures
            is_strict_order(self.entry_order(state)),
    {
    }
}

/// Entries are added behind those that are there, each once.
pub proof fn lemma_with_entries(list: Seq<EntryView>, new: Seq<EntryView>)
    ensures
        begins(list, with_entries(list, new)),
        list.no_duplicates() ==> with_entries(list, new).no_duplicates(),
        forall|e: EntryView| #[trigger]
            with_entries(list, new).contains(e) == (list.contains(e) || new.contains(e)),
    decreases new.len(),
{
    let after = with_entries(list, new);
    if new.len() > 0 {
        let before = with_entries(list, new.drop_last());
        lemma_with_entries(list, new.drop_last());
        assert forall|e: EntryView| #[trigger] after.contains(e) == (list.contains(e)
            || new.contains(e)) by {
            assert(before.contains(e) == (list.contains(e) || new.drop_last().contains(e)));
            if new.contains(e) {
                let k = new.index_of(e);
                if k < new.len() - 1 {
                    assert(new.drop_last()[k] == e);
                }
            }
            if new.drop_last().contains(e) {
                assert(new[new.drop_last().index_of(e)] == e);
            }
            if before.contains(e) {
                assert(after[before.index_of(e)] == e);
            }
            assert(new[new.len() - 1] == new.last());
            if !before.contains(new.last()) {
                assert(after[before.len() as int] == new.last());
                if after.contains(e) && e != new.last() {
                    assert(before[after.index_of(e)] == e);
                }
            }
        }
        if list.no_duplicates() && !before.contains(new.last()) {
            assert forall|i: int, j: int|
                0 <= i < after.len() && 0 <= j < after.len() && i != j implies after[i]
                != after[j] by {
                if i < before.len() {
                    assert(before.contains(before[i]));
                }
                if j < before.len() {
                    assert(before.contains(before[j]));
                }
            }
        }
    }
}

/// Where one list begins another, their entries have the same offsets.
pub proof fn lemma_begins_offset(a: Seq<EntryView>, b: Seq<EntryView>, k: int)
    requires
        begins(a, b),
        k <= a.len(),
    ensures
        entry_offset(a, k) == entry_offset(b, k),
    decreases k,
{
    if k > 0 {
        lemma_begins_offset(a, b, k - 1);
    }
}

/// Later lists have greater offsets.
pub proof fn lemma_offset_increases(list: Seq<EntryView>, j: int, k: int)
    requires
        0 <= j < k,
    ensures
        entry_offset(list, j) + 1 + codes_len(list[j].actions) <= entry_offset(list, k),
    decreases k,
{
    if j < k - 1 {
        lemma_offset_increases(list, j, k - 1);
    }
}

impl ParserInput {
    /// The entries of the first states begin those of all.
    pub proof fn lemma_entry_list_begins(&self, n: nat, m: nat)
        requires
            n <= m,
        ensures
            begins(self.entry_list_upto(n), self.entry_list_upto(m)),
        decreases m,
    {
        if n < m {
            self.lemma_entry_list_begins(n, (m - 1) as nat);
            lemma_with_entries(
                self.entry_list_upto((m - 1) as nat),
                self.entries_in_order(self.states()[m - 1]),
            );
        }
    }

    /// The entries are different, and hold those of every state.
    pub proof fn lemma_entry_list(&self, n: nat)
        requires
            n <= self.states().len(),
        ensures
            self.entry_list_upto(n).len() > 0,
            self.entry_list_upto(n).no_duplicates(),
            forall|i: int, k: int|
                0 <= i < n && 0 <= k < self.states()[i].terminal_entries@.len()
                    ==> self.entry_list_upto(n).contains(
                    (#[trigger] self.states()[i].terminal_entries@[k]).1@,
                ),
        decreases n,
    {
        if n > 0 {
            let before = self.entry_list_upto((n - 1) as nat);
            let state = self.states()[n - 1];
            let new = self.entries_in_order(state);
            self.lemma_entry_list((n - 1) as nat);
            lemma_with_entries(before, new);
            self.lemma_entry_places(state);
            assert forall|i: int, k: int|
                0 <= i < n && 0 <= k < self.states()[i].terminal_entries@.len() implies
                self.entry_list_upto(n).contains(
                (#[trigger] self.states()[i].terminal_entries@[k]).1@,
            ) by {
                let e = self.states()[i].terminal_entries@[k].1@;
                if i < n - 1 {
                    assert(before.contains(e));
                } else {
                    let places = self.entry_places(state);
                    assert(places.to_set().contains(k));
                    let p = places.index_of(k);
                    assert(new[p] == e);
                    assert(new.contains(e));
                }
            }
        }
    }

    /// All places of a state are in its places in order.
    pub proof fn lemma_entry_places(&self, state: ParseState)
        ensures
            self.entry_places(state).to_set() == Set::new(
                |k: int| 0 <= k < state.terminal_entries@.len(),
            ),
            is_ascending(self.entry_places(state), self.entry_order(state)),
    {
        let n = state.terminal_entries@.len() as int;
        vstd::set_lib::lemma_int_range(0, n);
        assert(vstd::set_lib::set_int_range(0, n) =~= Set::new(|k: int| 0 <= k < n));
        self.lemma_entry_order(state);
        lemma_ascending_exists(
            Set::new(|k: int| 0 <= k < state.terminal_entries@.len()),
            self.entry_order(state),
        );
    }
}

/// A list has at least as many values as one that begins it.
proof fn lemma_codes_len(actions: Seq<ParseAction>, k: int)
    requires
        0 <= k <= actions.len(),
    ensures
        codes_len(actions.take(k)) <= codes_len(actions),
    decreases actions.len(),
{
    if k < actions.len() {
        lemma_codes_len(actions.drop_last(), k);
        assert(actions.drop_last().take(k) =~= actions.take(k));
    } else {
        assert(actions.take(k) =~= actions);
    }
}

/// The number of values that actions are stored as.
fn count_codes(actions: &Vec<ParseAction>) -> (n: usize)
    requires
        codes_len(actions@) <= usize::MAX,
    ensures
        n == codes_len(actions@),
{
    let mut n: usize = 0;
    let mut i: usize = 0;
    assert(actions@.take(0) =~= Seq::<ParseAction>::empty());
    while i < actions.len()
        invariant
            codes_len(actions@) <= usize::MAX,
            i <= actions@.len(),
            n == codes_len(actions@.take(i as int)),
        decreases actions@.len() - i,
    {
        let len: usize = match actions[i] {
            ParseAction::Reduce { .. } => 2,
            _ => 1,
        };
        proof {
            assert(actions@.take(i + 1).drop_last() =~= actions@.take(i as int));
            assert(actions@.take(i + 1).last() == actions@[i as int]);
            lemma_codes_len(actions@, i + 1);
        }
        n += len;
        i += 1;
    }
    assert(actions@.take(i as int) =~= actions@);
    n
}

/// The lists of parse actions so far, with their offsets.
pub struct ActionLists<'a> {
    pub entries: Vec<(usize, &'a ParseTableEntry)>,
    pub next_index: usize,
}

impl<'a> View for ActionLists<'a> {
    type V = Seq<EntryView>;

    open spec fn view(&self) -> Seq<EntryView> {
        self.entries@.map_values(|e: (usize, &'a ParseTableEntry)| e.1@)
    }
}

impl<'a> ActionLists<'a> {
    /// The lists are different, and have the offsets that their lengths give.
    pub open spec fn wf(&self) -> bool {
        &&& self@.no_duplicates()
        &&& self.next_index == entry_offset(self@, self@.len() as int)
        &&& forall|k: int| 0 <= k < self.entries@.len() ==> #[trigger] self.has_offset(k)
    }

    /// The list at place `k` has the offset that the lengths of those before it give.
    pub open spec fn has_offset(&self, k: int) -> bool {
        self.entries@[k].0 == entry_offset(self@, k)
    }

    /// No lists.
    pub fn new() -> (r: Self)
        ensures
            r.wf(),
            r@ == Seq::<EntryView>::empty(),
    {
        let r: ActionLists = ActionLists { entries: Vec::new(), next_index: 0 };
        assert(r@ =~= Seq::<EntryView>::empty());
        r
    }

    /// The offset of an entry.
    pub fn find(&self, entry: &ParseTableEntry) -> (r: Option<usize>)
        requires
            self.wf(),
        ensures
            match r {
                Some(id) => self@.contains(entry@) && id == entry_offset(
                    self@,
                    self@.index_of(entry@),
                ),
                None => !self@.contains(entry@),
            },
    {
        let mut i: usize = 0;
        while i < self.entries.len()
            invariant
                self.wf(),
                i <= self.entries@.len(),
                forall|j: int| 0 <= j < i ==> #[trigger] self@[j] != entry@,
            decreases self.entries@.len() - i,
        {
            let (offset, other) = self.entries[i];
            assert(self@[i as int] == other@);
            if other.equals(entry) {
                assert(self.has_offset(i as int));
                assert(self@[self@.index_of(entry@)] == entry@);
                assert(self@.index_of(entry@) == i);
                return Some(offset);
            }
            i += 1;
        }
        None
    }

    /// The offset of an entry, which is added if it is not there yet.
    pub fn get_parse_action_list_id(&mut self, entry: &'a ParseTableEntry) -> (id: usize)
        requires
            old(self).wf(),
            !old(self)@.contains(entry@) ==> old(self).next_index + 1 + codes_len(entry@.actions)
                <= usize::MAX,
        ensures
            final(self).wf(),
            final(self)@ == with_entries(old(self)@, seq![entry@]),
            id == entry_offset(final(self)@, final(self)@.index_of(entry@)),
    {
        let ghost before = self@;
        let ghost lists_before = *self;
        proof {
            assert(seq![entry@].drop_last() =~= Seq::<EntryView>::empty());
            assert(seq![entry@].last() == entry@);
            reveal_with_fuel(with_entries, 2);
        }
        match self.find(entry) {
            Some(id) => id,
            None => {
                let id: usize = self.next_index;
                self.next_index = self.next_index + (1 + count_codes(&entry.actions));
                self.entries.push((id, entry));
                proof {
                    lemma_with_entries(before, seq![entry@]);
                    assert(self@ =~= before.push(entry@));
                    assert forall|k: int| 0 <= k <= before.len() implies #[trigger] entry_offset(
                        self@,
                        k,
                    ) == entry_offset(before, k) by {
                        lemma_begins_offset(before, self@, k);
                    }
                    assert forall|k: int| 0 <= k < self.entries@.len() implies #[trigger]
                        self.has_offset(k) by {
                        if k < before.len() {
                            assert(lists_before.has_offset(k));
                        }
                    }
                    assert(self@[before.len() as int] == entry@);
                    assert(entry_offset(self@, before.len() as int + 1) == entry_offset(
                        self@,
                        before.len() as int,
                    ) + 1 + codes_len(entry@.actions));
                    let k = self@.index_of(entry@);
                    assert(self@[k] == entry@);
                    assert(k == before.len());
                }
                id
            },
        }
    }
}

impl RustGenerator {
    /// Where the entry of a symbol is put in order.
    fn rank(&self, symbol: Symbol) -> (r: Option<usize>)
        requires
            self.wf(),
        ensures
            match r {
                Some(n) => self.input.entry_rank(symbol) == n + 1,
                None => self.input.entry_rank(symbol) == 0,
            },
    {
        match self.symbol_order.get(symbol) {
            Some(n) => {
                assert(self.symbol_order@.contains_key(symbol));
                assert(self.symbol_order@[symbol] == self.input.symbol_numbers()[symbol]);
                Some(*n)
            },
            None => {
                assert(!self.symbol_order@.contains_key(symbol));
                None
            },
        }
    }

    /// The places of a state's entries, in the order of their symbols' numbers.
    fn sorted_entries(&self, state: &ParseState) -> (r: Vec<usize>)
        requires
            self.wf(),
        ensures
            places(r@) == self.input.entry_places(*state),
            forall|i: int| 0 <= i < r@.len() ==> #[trigger] r@[i] < state.terminal_entries@.len(),
    {
        let ghost lt = self.input.entry_order(*state);
        let mut list: Vec<usize> = Vec::new();
        let mut i: usize = 0;
        proof {
            assert(places(list@).to_set() =~= Set::new(|k: int| 0 <= k < 0));
        }
        while i < state.terminal_entries.len()
            invariant
                self.wf(),
                lt == self.input.entry_order(*state),
                i <= state.terminal_entries@.len(),
                is_ascending(places(list@), lt),
                places(list@).to_set() == Set::new(|k: int| 0 <= k < i),
                forall|j: int| 0 <= j < list@.len() ==> #[trigger] list@[j] < i,
            decreases state.terminal_entries@.len() - i,
        {
            let ghost q = places(list@);
            let mut k: usize = 0;
            while k < list.len() && self.is_before(state, list[k], i)
                invariant
                    self.wf(),
                    lt == self.input.entry_order(*state),
                    i < state.terminal_entries@.len(),
                    k <= list@.len(),
                    q == places(list@),
                    forall|j: int| 0 <= j < list@.len() ==> #[trigger] list@[j] < i,
                    forall|j: int| 0 <= j < k ==> lt(#[trigger] q[j], i as int),
                decreases list@.len() - k,
            {
                assert(q[k as int] == list@[k as int]);
                k += 1;
            }
            proof {
                self.input.lemma_entry_order(*state);
                if k < q.len() {
                    assert(q[k as int] == list@[k as int]);
                    assert(lt(q[k as int], i as int) || q[k as int] == i || lt(i as int, q[k as int]));
                }
                lemma_insert_ascending(q, k as int, i as int, lt);
            }
            list.insert(k, i);
            proof {
                assert(places(list@) =~= q.insert(k as int, i as int));
                assert(places(list@).to_set() =~= Set::new(|k: int| 0 <= k < i + 1));
            }
            i += 1;
        }
        proof {
            self.input.lemma_entry_order(*state);
            lemma_ascending_is(
                places(list@),
                Set::new(|k: int| 0 <= k < state.terminal_entries@.len()),
                lt,
            );
        }
        list
    }

    /// The entry at place `a` comes before the one at place `b`.
    fn is_before(&self, state: &ParseState, a: usize, b: usize) -> (r: bool)
        requires
            self.wf(),
            a < state.terminal_entries@.len(),
            b < state.terminal_entries@.len(),
        ensures
            r == (self.input.entry_order(*state))(a as int, b as int),
    {
        let x: Option<usize> = self.rank(state.terminal_entries[a].0);
        let y: Option<usize> = self.rank(state.terminal_entries[b].0);
        match (x, y) {
            (Some(m), Some(n)) => m < n || (m == n && a < b),
            (None, Some(_)) => true,
            (Some(_), None) => false,
            (None, None) => a < b,
        }
    }

    /// Adds the entries of state `i`.
    fn register_state<'a>(&'a self, i: usize, lists: &mut ActionLists<'a>)
        requires
            self.wf(),
            i < self.input.states().len(),
            old(lists).wf(),
            old(lists)@ == self.input.entry_list_upto(i as nat),
        ensures
            final(lists).wf(),
            final(lists)@ == self.input.entry_list_upto((i + 1) as nat),
    {
        let state: &'a ParseState = &self.input.parse_table.states[i];
        let order: Vec<usize> = self.sorted_entries(state);
        let ghost before = lists@;
        let ghost new = self.input.entries_in_order(*state);
        let mut k: usize = 0;
        while k < order.len()
            invariant
                self.wf(),
                i < self.input.states().len(),
                *state == self.input.states()[i as int],
                before == self.input.entry_list_upto(i as nat),
                new == self.input.entries_in_order(*state),
                places(order@) == self.input.entry_places(*state),
                forall|j: int|
                    0 <= j < order@.len() ==> #[trigger] order@[j] < state.terminal_entries@.len(),
                k <= order@.len(),
                lists.wf(),
                lists@ == with_entries(before, new.take(k as int)),
            decreases order@.len() - k,
        {
            let entry: &'a ParseTableEntry = &state.terminal_entries[order[k]].1;
            let ghost so_far = lists@;
            proof {
                assert(places(order@)[k as int] == order@[k as int]);
                assert(new[k as int] == entry@);
                assert(new.take(k + 1).drop_last() =~= new.take(k as int));
                assert(new.take(k + 1).last() == entry@);
                assert(seq![entry@].drop_last() =~= Seq::<EntryView>::empty());
                assert(seq![entry@].last() == entry@);
                reveal_with_fuel(with_entries, 2);
                if !so_far.contains(entry@) {
                    self.lemma_room(i as int, k + 1);
                    assert(with_entries(before, new.take(k + 1)) == so_far.push(entry@));
                    assert(begins(so_far, so_far.push(entry@)));
                    lemma_begins_offset(so_far, so_far.push(entry@), so_far.len() as int);
                }
            }
            lists.get_parse_action_list_id(entry);
            k += 1;
        }
        assert(new.take(k as int) =~= new);
    }

    /// There is room for the entries.
    proof fn lemma_room(&self, i: int, k: int)
        requires
            self.wf(),
            0 <= i < self.input.states().len(),
            0 <= k <= self.input.entries_in_order(self.input.states()[i]).len(),
        ensures
            ({
                let list = with_entries(
                    self.input.entry_list_upto(i as nat),
                    self.input.entries_in_order(self.input.states()[i]).take(k),
                );
                entry_offset(list, list.len() as int) <= usize::MAX
            }),
    {
        let before = self.input.entry_list_upto(i as nat);
        let new = self.input.entries_in_order(self.input.states()[i]);
        let list = with_entries(before, new.take(k));
        let all = self.input.entry_list();
        lemma_with_entries_begins(before, new, k);
        self.input.lemma_entry_list_begins((i + 1) as nat, self.input.states().len());
        assert(begins(list, all));
        lemma_begins_offset(list, all, list.len() as int);
        if list.len() < all.len() {
            lemma_offset_increases(all, list.len() as int, all.len() as int);
        }
    }

    /// The lists of parse actions of all states.
    pub fn collect_entries<'a>(&'a self, empty: &'a ParseTableEntry) -> (lists: ActionLists<'a>)
        requires
            self.wf(),
            empty@ == (EntryView { actions: Seq::<ParseAction>::empty(), reusable: false }),
        ensures
            lists.wf(),
            lists@ == self.input.entry_list(),
    {
        let mut lists: ActionLists<'a> = ActionLists::new();
        proof {
            assert(seq![empty@].drop_last() =~= Seq::<EntryView>::empty());
            assert(seq![empty@].last() == empty@);
            reveal_with_fuel(with_entries, 2);
        }
        lists.get_parse_action_list_id(empty);
        assert(lists@ =~= seq![empty@]);
        let mut i: usize = 0;
        while i < self.input.parse_table.states.len()
            invariant
                self.wf(),
                i <= self.input.states().len(),
                lists.wf(),
                lists@ == self.input.entry_list_upto(i as nat),
            decreases self.input.states().len() - i,
        {
            self.register_state(i, &mut lists);
            i += 1;
        }
        lists
    }
}

/// Adding some of the entries begins adding all.
pub proof fn lemma_with_entries_begins(list: Seq<EntryView>, new: Seq<EntryView>, k: int)
    requires
        0 <= k <= new.len(),
    ensures
        begins(with_entries(list, new.take(k)), with_entries(list, new)),
    decreases new.len(),
{
    if k == new.len() {
        assert(new.take(k) =~= new);
    } else {
        lemma_with_entries_begins(list, new.drop_last(), k);
        assert(new.drop_last().take(k) =~= new.take(k));
    }
}

} // verus!
