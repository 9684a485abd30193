//! The generator: what a parser is rendered from, with all that was worked out from it.
use vstd::prelude::*;

use crate::order::{
    insert_text, is_ascending, is_first, is_text_less, lemma_ascending_is, lemma_first_index,
    lemma_insert_ascending, lemma_text_order, is_strict_order, text_order,
};
use crate::render_rust::init::{alias_views, AliasIds};
use crate::render_rust::input::{
    ParserInput, ABI_VERSION_WITH_RESERVED_WORDS, SMALL_STATE_THRESHOLD,
};
use crate::rules::{symbol_less, symbol_order, Alias, AliasView, Symbol, SymbolMap, TokenSet};
use crate::text::{concat2, concat3, count_text, TextList};

verus! {

/// The sets of tokens of a list.
pub open spec fn token_views(list: Seq<TokenSet>) -> Seq<Seq<Symbol>> {
    list.map_values(|set: TokenSet| set@)
}

/// The identifiers of a list of supertypes.
pub open spec fn supertype_list_ids(list: Seq<(String, usize)>) -> Seq<Seq<char>> {
    list.map_values(|e: (String, usize)| e.0@)
}

/// The first key of which a condition holds is the least symbol of which it holds.
proof fn lemma_least(keys: Seq<Symbol>, pred: spec_fn(Symbol) -> bool, k: int)
    requires
        is_ascending(keys, symbol_order()),
        forall|s: Symbol| #[trigger] pred(s) ==> keys.contains(s),
        0 <= k < keys.len(),
        forall|j: int| 0 <= j < k ==> !pred(#[trigger] keys[j]),
    ensures
        forall|s: Symbol| #[trigger] pred(s) ==> !symbol_less(s, keys[k]),
{
    let lt = symbol_order();
    assert forall|s: Symbol| #[trigger] pred(s) implies !symbol_less(s, keys[k]) by {
        let j = keys.index_of(s);
        assert(keys[j] == s);
        if k < j {
            assert(lt(keys[k], keys[j]));
        }
    }
}

impl ParserInput {
    /// The identifiers of the symbols, and of the aliases that no symbol is shown as.
    pub fn collect_shown_ids(
        &self,
        symbol_ids: &SymbolMap<String>,
        alias_ids: &AliasIds,
        unique_aliases: &Vec<Alias>,
    ) -> (r: TextList)
        requires
            self.is_consistent(),
            symbol_ids.wf(),
            symbol_ids@ == self.symbol_ids(),
            alias_ids.wf(),
            forall|a: AliasView| #[trigger]
                alias_ids@.contains_key(a) == self.aliases().contains(a),
            forall|a: AliasView|
                alias_ids@.contains_key(a) ==> #[trigger] alias_ids@[a] == self.alias_id(a),
            alias_views(unique_aliases@) == self.unique_aliases(),
            forall|k: int|
                0 <= k < unique_aliases@.len() ==> self.aliases().contains(
                    (#[trigger] unique_aliases@[k])@,
                ),
        ensures
            r@ == self.shown_ids(),
    {
        let ghost all = self.shown_ids();
        let ghost symbols = self.symbols();
        proof {
            self.lemma_symbol_ids();
            assert(unique_aliases@.len() == alias_views(unique_aliases@).len());
        }
        let mut r: TextList = TextList::new();
        let mut i: usize = 0;
        assert(r@ =~= all.take(0));
        while i < self.parse_table.symbols.len()
            invariant
                symbols == self.symbols(),
                symbol_ids.wf(),
                symbol_ids@ == self.symbol_ids(),
                forall|s: Symbol|
                    #[trigger] self.symbol_ids().contains_key(s) == self.has_identifier(s),
                all == self.shown_ids(),
                i <= symbols.len(),
                r@ == all.take(i as int),
            decreases symbols.len() - i,
        {
            assert(symbols.contains(symbols[i as int]));
            assert(symbol_ids@.contains_key(symbols[i as int]));
            let id: &String = symbol_ids.get(self.parse_table.symbols[i]).unwrap();
            assert(all[i as int] == id@);
            r.push(id.clone());
            i += 1;
            assert(r@ =~= all.take(i as int));
        }
        let mut k: usize = 0;
        while k < unique_aliases.len()
            invariant
                symbols == self.symbols(),
                alias_ids.wf(),
                forall|a: AliasView| #[trigger]
                    alias_ids@.contains_key(a) == self.aliases().contains(a),
                forall|a: AliasView|
                    alias_ids@.contains_key(a) ==> #[trigger] alias_ids@[a] == self.alias_id(a),
                alias_views(unique_aliases@) == self.unique_aliases(),
                unique_aliases@.len() == self.unique_aliases().len(),
                forall|k: int|
                    0 <= k < unique_aliases@.len() ==> self.aliases().contains(
                        (#[trigger] unique_aliases@[k])@,
                    ),
                all == self.shown_ids(),
                k <= unique_aliases@.len(),
                r@ == all.take(symbols.len() + k),
            decreases unique_aliases@.len() - k,
        {
            assert(self.aliases().contains(unique_aliases@[k as int]@));
            assert(alias_ids@.contains_key(unique_aliases@[k as int]@));
            assert(alias_views(unique_aliases@)[k as int] == unique_aliases@[k as int]@);
            let id: &String = alias_ids.get(&unique_aliases[k]).unwrap();
            assert(all[symbols.len() + k] == id@);
            r.push(id.clone());
            k += 1;
            assert(r@ =~= all.take(symbols.len() + k));
        }
        assert(all.take(symbols.len() + k) =~= all);
        r
    }

    /// The field is one of the first `i` productions, or one of the first `j` of the next.
    spec fn is_field_before(&self, i: int, j: int, name: Seq<char>) -> bool {
        exists|a: int, b: int|
            #[trigger] self.has_field_at(a, b, name) && (a < i || (a == i && b < j))
    }

    /// The names of the fields.
    pub fn collect_field_names(&self) -> (r: TextList)
        ensures
            r@ == self.field_names(),
    {
        let mut names: TextList = TextList::new();
        let ghost infos = self.infos();
        let mut i: usize = 0;
        while i < self.parse_table.production_infos.len()
            invariant
                infos == self.infos(),
                i <= infos.len(),
                is_ascending(names@, text_order()),
                forall|x: Seq<char>| #[trigger]
                    names@.to_set().contains(x) == self.is_field_before(i as int, 0, x),
            decreases infos.len() - i,
        {
            let fields = &self.parse_table.production_infos[i].field_map;
            let mut j: usize = 0;
            while j < fields.len()
                invariant
                    infos == self.infos(),
                    i < infos.len(),
                    fields == infos[i as int].field_map,
                    j <= fields@.len(),
                    is_ascending(names@, text_order()),
                    forall|x: Seq<char>| #[trigger]
                        names@.to_set().contains(x) == self.is_field_before(i as int, j as int, x),
                decreases fields@.len() - j,
            {
                let ghost before = names@.to_set();
                insert_text(&mut names, fields[j].0.as_str());
                proof {
                    let new = fields@[j as int].0@;
                    assert forall|x: Seq<char>| #[trigger]
                        names@.to_set().contains(x) == self.is_field_before(i as int, j + 1, x) by {
                        assert(before.contains(x) == self.is_field_before(i as int, j as int, x));
                        if self.is_field_before(i as int, j + 1, x) {
                            let (a, b) = choose|a: int, b: int| #[trigger]
                                self.has_field_at(a, b, x) && (a < i || (a == i && b < j + 1));
                            assert(self.has_field_at(a, b, x));
                        }
                        if self.is_field_before(i as int, j as int, x) {
                            let (a, b) = choose|a: int, b: int| #[trigger]
                                self.has_field_at(a, b, x) && (a < i || (a == i && b < j));
                            assert(self.has_field_at(a, b, x));
                        }
                        if x == new {
                            assert(self.has_field_at(i as int, j as int, x));
                        }
                    }
                }
                j += 1;
            }
            proof {
                let n = fields@.len() as int;
                assert forall|x: Seq<char>| self.is_field_before(i + 1, 0, x)
                    == self.is_field_before(i as int, n, x) by {
                    if self.is_field_before(i + 1, 0, x) {
                        let (a, b) = choose|a: int, b: int| #[trigger]
                            self.has_field_at(a, b, x) && (a < i + 1 || (a == i + 1 && b < 0));
                        assert(self.has_field_at(a, b, x));
                    }
                    if self.is_field_before(i as int, n, x) {
                        let (a, b) = choose|a: int, b: int| #[trigger]
                            self.has_field_at(a, b, x) && (a < i || (a == i && b < n));
                        assert(self.has_field_at(a, b, x));
                    }
                }
            }
            i += 1;
        }
        proof {
            let all = Set::new(
                |name: Seq<char>| exists|i: int, j: int| self.has_field_at(i, j, name),
            );
            assert forall|x: Seq<char>| names@.to_set().contains(x) == all.contains(x) by {
                if all.contains(x) {
                    let (a, b) = choose|a: int, b: int| self.has_field_at(a, b, x);
                    assert(self.has_field_at(a, b, x));
                }
            }
            assert(names@.to_set() =~= all);
            lemma_text_order();
            lemma_ascending_is(names@, all, text_order());
        }
        names
    }

    /// The identifiers of the large sets of characters.
    pub fn name_large_sets(&self, symbol_ids: &SymbolMap<String>) -> (r: TextList)
        requires
            self.is_consistent(),
            symbol_ids.wf(),
            symbol_ids@ == self.symbol_ids(),
        ensures
            r@.len() == self.large_character_sets@.len(),
            forall|i: int| 0 <= i < r@.len() ==> #[trigger] r@[i] == self.large_set_id(i),
    {
        proof {
            self.lemma_symbol_ids();
        }
        let mut names: TextList = TextList::new();
        let mut i: usize = 0;
        while i < self.large_character_sets.len()
            invariant
                self.is_consistent(),
                symbol_ids.wf(),
                symbol_ids@ == self.symbol_ids(),
                forall|s: Symbol|
                    #[trigger] self.symbol_ids().contains_key(s) == self.has_identifier(s),
                i <= self.large_character_sets@.len(),
                names@.len() == i,
                forall|k: int| 0 <= k < i ==> #[trigger] names@[k] == self.large_set_id(k),
            decreases self.large_character_sets@.len() - i,
        {
            let symbol: Option<Symbol> = self.large_character_sets[i].0;
            let mut count: usize = 0;
            let mut k: usize = 0;
            while k < i
                invariant
                    k <= i < self.large_character_sets@.len(),
                    count <= k,
                    count == self.earlier_large_sets(symbol, k as nat),
                decreases i - k,
            {
                let is_same: bool = match (self.large_character_sets[k].0, symbol) {
                    (Some(a), Some(b)) => a == b,
                    (None, None) => true,
                    _ => false,
                };
                if is_same {
                    count += 1;
                }
                k += 1;
            }
            let number: String = count_text(count + 1);
            let name: String = match symbol {
                Some(symbol) => {
                    assert(self.has_identifier(self.large_character_sets@[i as int].0->0));
                    let id: &String = symbol_ids.get(symbol).unwrap();
                    concat3(id.to_uppercase().as_str(), "_CHARACTER_SET_", number.as_str())
                },
                None => concat2("EXTRAS_CHARACTER_SET_", number.as_str()),
            };
            names.push(name);
            i += 1;
        }
        names
    }

    /// The sets of reserved words, and the place of each state's set.
    pub fn collect_reserved_words(&self) -> (r: (Vec<TokenSet>, Vec<usize>))
        ensures
            token_views(r.0@) == self.reserved_word_sets(),
            r.1@.len() == self.states().len(),
            forall|i: int|
                0 <= i < r.1@.len() ==> #[trigger] r.1@[i] == self.reserved_word_set_id(i),
    {
        let mut sets: Vec<TokenSet> = Vec::new();
        sets.push(TokenSet::new());
        let mut ids: Vec<usize> = Vec::new();
        assert(token_views(sets@) =~= seq![Seq::<Symbol>::empty()]);
        let mut i: usize = 0;
        while i < self.parse_table.states.len()
            invariant
                i <= self.states().len(),
                token_views(sets@) == self.reserved_word_sets_upto(i as nat),
                ids@.len() == i,
                forall|k: int|
                    0 <= k < i ==> is_first(
                        token_views(sets@),
                        |set: Seq<Symbol>| set == self.states()[k].reserved_words@,
                        #[trigger] ids@[k] as int,
                    ),
            decreases self.states().len() - i,
        {
            let words: &TokenSet = &self.parse_table.states[i].reserved_words;
            let mut k: usize = 0;
            while k < sets.len() && !sets[k].equals(words)
                invariant
                    k <= sets@.len(),
                    forall|j: int| 0 <= j < k ==> token_views(sets@)[j] != words@,
                decreases sets@.len() - k,
            {
                assert(token_views(sets@)[k as int] == sets@[k as int]@);
                k += 1;
            }
            let ghost before = token_views(sets@);
            if k == sets.len() {
                assert(!before.contains(words@));
                sets.push(words.clone());
                assert(token_views(sets@) =~= before.push(words@));
            } else {
                assert(before[k as int] == words@);
            }
            ids.push(k);
            proof {
                assert forall|m: int| 0 <= m < i + 1 implies is_first(
                    token_views(sets@),
                    |set: Seq<Symbol>| set == self.states()[m].reserved_words@,
                    #[trigger] ids@[m] as int,
                ) by {
                    let pred = |set: Seq<Symbol>| set == self.states()[m].reserved_words@;
                    if m < i {
                        assert(is_first(before, pred, ids@[m] as int));
                        assert forall|j: int| 0 <= j < ids@[m] implies !pred(
                            #[trigger] token_views(sets@)[j],
                        ) by {
                            assert(!pred(before[j]));
                        }
                    }
                }
            }
            i += 1;
        }
        proof {
            assert forall|m: int| 0 <= m < ids@.len() implies #[trigger] ids@[m]
                == self.reserved_word_set_id(m) by {
                lemma_first_index(
                    token_views(sets@),
                    |set: Seq<Symbol>| set == self.states()[m].reserved_words@,
                    ids@[m] as int,
                );
            }
        }
        (sets, ids)
    }

    /// The number of states that are stored in full.
    pub fn count_large_states(&self) -> (n: usize)
        ensures
            n == self.large_state_count(),
            n <= self.states().len(),
    {
        let half: usize = self.parse_table.symbols.len() / 2;
        let threshold: usize = if half < SMALL_STATE_THRESHOLD {
            half
        } else {
            SMALL_STATE_THRESHOLD
        };
        let mut n: usize = 0;
        while n < self.parse_table.states.len()
            invariant_except_break
                threshold == self.small_state_threshold(),
                n <= self.states().len(),
                forall|i: int| 0 <= i < n ==> #[trigger] self.is_large_state(i),
            ensures
                self.is_large_state_count(n as int),
            decreases self.states().len() - n,
        {
            let terminals: usize = self.parse_table.states[n].terminal_entries.len();
            let nonterminals: usize = self.parse_table.states[n].nonterminal_entries.len();
            let is_large: bool = n <= 1 || terminals > threshold || nonterminals > threshold
                - terminals;
            assert(is_large == self.is_large_state(n as int));
            if !is_large {
                break;
            }
            n += 1;
        }
        proof {
            let c = self.large_state_count();
            assert(self.is_large_state_count(c));
            if c < n {
                assert(self.is_large_state(c));
            } else if n < c {
                assert(self.is_large_state(n as int));
            }
        }
        n
    }

    /// How large the numbers of the symbols get.
    pub proof fn lemma_next_symbol_number(&self, n: nat)
        requires
            n <= self.symbols().len(),
        ensures
            1 <= self.next_symbol_number(n) <= n + 1,
            self.symbols().take(n as int).contains(Symbol::end()) ==> self.next_symbol_number(n)
                <= n,
        decreases n,
    {
        if n > 0 {
            self.lemma_next_symbol_number((n - 1) as nat);
            let shorter = self.symbols().take(n - 1);
            let longer = self.symbols().take(n as int);
            if longer.contains(Symbol::end()) && self.symbols()[n - 1] != Symbol::end() {
                let k = longer.index_of(Symbol::end());
                assert(shorter[k] == Symbol::end());
            }
        }
    }

    /// No two symbols have one number, and the numbers are less than the number of symbols.
    pub proof fn symbol_numbers_differ(&self, n: nat)
        requires
            n <= self.symbols().len(),
        ensures
            forall|s: Symbol| #[trigger]
                self.symbol_numbers_upto(n).contains_key(s) ==> self.symbol_numbers_upto(n)[s]
                    < self.next_symbol_number(n),
            forall|s: Symbol, t: Symbol|
                #![trigger self.symbol_numbers_upto(n).contains_key(s), self.symbol_numbers_upto(n).contains_key(t)]
                self.symbol_numbers_upto(n).contains_key(s) && self.symbol_numbers_upto(
                    n,
                ).contains_key(t) && self.symbol_numbers_upto(n)[s] == self.symbol_numbers_upto(n)[t]
                    ==> s == t,
            self.symbols().contains(Symbol::end()) ==> self.next_symbol_number(self.symbols().len())
                <= self.symbols().len(),
        decreases n,
    {
        if n > 0 {
            let before = self.symbol_numbers_upto((n - 1) as nat);
            let after = self.symbol_numbers_upto(n);
            self.symbol_numbers_differ((n - 1) as nat);
            assert forall|s: Symbol| #[trigger] after.contains_key(s) implies after[s]
                < self.next_symbol_number(n) by {
                if s != self.symbols()[n - 1] {
                    assert(before.contains_key(s));
                }
                if before.contains_key(s) {
                    assert(before[s] < self.next_symbol_number((n - 1) as nat));
                }
            }
            assert forall|s: Symbol, t: Symbol|
                #![trigger after.contains_key(s), after.contains_key(t)]
                after.contains_key(s) && after.contains_key(t) && after[s] == after[t] implies s
                == t by {
                assert(before.contains_key(s) || s == self.symbols()[n - 1]);
                assert(before.contains_key(t) || t == self.symbols()[n - 1]);
                if before.contains_key(s) {
                    assert(before[s] < self.next_symbol_number((n - 1) as nat));
                }
                if before.contains_key(t) {
                    assert(before[t] < self.next_symbol_number((n - 1) as nat));
                }
            }
        }
        if self.symbols().contains(Symbol::end()) {
            self.lemma_next_symbol_number(self.symbols().len());
            assert(self.symbols().take(self.symbols().len() as int) =~= self.symbols());
        }
    }

    /// The numbers of all symbols.
    pub fn number_symbols(&self) -> (r: SymbolMap<usize>)
        requires
            self.symbols().contains(Symbol::end()),
        ensures
            r.wf(),
            self.are_symbol_numbers(r@),
    {
        let mut numbers: SymbolMap<usize> = SymbolMap::new();
        numbers.insert(Symbol::end(), 0);
        let mut next: usize = 1;
        let mut i: usize = 0;
        while i < self.parse_table.symbols.len()
            invariant
                self.symbols().contains(Symbol::end()),
                i <= self.symbols().len(),
                next == self.next_symbol_number(i as nat),
                numbers.wf(),
                forall|s: Symbol| #[trigger]
                    numbers@.contains_key(s) == self.symbol_numbers_upto(i as nat).contains_key(s),
                forall|s: Symbol|
                    numbers@.contains_key(s) ==> #[trigger] numbers@[s] == self.symbol_numbers_upto(
                        i as nat,
                    )[s],
            decreases self.symbols().len() - i,
        {
            let symbol: Symbol = self.parse_table.symbols[i];
            if symbol != Symbol::end() {
                proof {
                    self.lemma_next_symbol_number(i as nat);
                    let k = self.symbols().index_of(Symbol::end());
                    assert(self.symbols()[k] == Symbol::end());
                    if k < i {
                        assert(self.symbols().take(i as int)[k] == Symbol::end());
                    }
                }
                numbers.insert(symbol, next);
                next += 1;
            }
            i += 1;
        }
        numbers
    }

    /// The numbers are those of all symbols.
    pub open spec fn are_symbol_numbers(&self, numbers: Map<Symbol, usize>) -> bool {
        &&& forall|s: Symbol| #[trigger]
            numbers.contains_key(s) == self.symbol_numbers().contains_key(s)
        &&& forall|s: Symbol|
            numbers.contains_key(s) ==> #[trigger] numbers[s] == self.symbol_numbers()[s]
    }

    /// One of the first `n` supertypes has the given identifier.
    spec fn is_supertype_id_before(&self, n: int, id: Seq<char>) -> bool {
        exists|k: int|
            0 <= k < n && self.is_supertype_with_id(
                id,
                #[trigger] self.supertype_symbol_map.entries@[k].0,
            )
    }

    /// The supertype at place `k` is the first with the given identifier.
    pub open spec fn is_first_supertype(&self, k: int, id: Seq<char>) -> bool {
        &&& 0 <= k < self.supertype_symbol_map.entries@.len()
        &&& self.is_supertype_with_id(id, self.supertype_symbol_map.entries@[k].0)
        &&& forall|j: int|
            0 <= j < k ==> !self.is_supertype_with_id(
                id,
                #[trigger] self.supertype_symbol_map.entries@[j].0,
            )
    }

    /// The first supertype with an identifier is the least.
    pub proof fn lemma_first_supertype(&self, k: int, id: Seq<char>)
        requires
            self.supertype_symbol_map.wf(),
            self.is_first_supertype(k, id),
        ensures
            self.supertype(id) == self.supertype_symbol_map.entries@[k].0,
    {
        let map = self.supertype_symbol_map;
        let pred = |s: Symbol| self.is_supertype_with_id(id, s);
        assert forall|s: Symbol| #[trigger] pred(s) implies map.keys().contains(s) by {
            assert(map@.contains_key(s));
        }
        assert forall|j: int| 0 <= j < k implies !pred(#[trigger] map.keys()[j]) by {
            assert(!self.is_supertype_with_id(id, map.entries@[j].0));
        }
        assert(pred(map.keys()[k]));
        lemma_least(map.keys(), pred, k);
        let least = map.entries@[k].0;
        assert(self.is_supertype_with_id(id, least) && forall|other: Symbol| #[trigger]
            self.is_supertype_with_id(id, other) ==> !symbol_less(other, least)) by {
            assert forall|other: Symbol| #[trigger]
                self.is_supertype_with_id(id, other) implies !symbol_less(other, least) by {
                assert(pred(other));
            }
        }
        let found = self.supertype(id);
        assert(pred(found));
        assert(!symbol_less(found, least));
        assert(!symbol_less(least, found));
        if found.kind.rank() == least.kind.rank() {
            assert(found.kind == least.kind);
        }
    }

    /// The identifiers of the supertypes, and the places of the supertypes.
    #[verifier::rlimit(40)]
    pub fn collect_supertypes(&self, symbol_ids: &SymbolMap<String>) -> (r: Vec<(String, usize)>)
        requires
            self.is_consistent(),
            symbol_ids.wf(),
            symbol_ids@ == self.symbol_ids(),
        ensures
            supertype_list_ids(r@) == self.supertype_ids(),
            forall|m: int|
                0 <= m < r@.len() ==> {
                    &&& (#[trigger] r@[m]).1 < self.supertype_symbol_map.entries@.len()
                    &&& self.supertype_symbol_map.entries@[r@[m].1 as int].0 == self.supertype(
                        r@[m].0@,
                    )
                },
    {
        let ghost lt = text_order();
        let ghost entries = self.supertype_symbol_map.entries@;
        let mut list: Vec<(String, usize)> = Vec::new();
        proof {
            lemma_text_order();
            assert(supertype_list_ids(list@) =~= Seq::<Seq<char>>::empty());
        }
        if self.abi_version >= ABI_VERSION_WITH_RESERVED_WORDS {
            let mut i: usize = 0;
            while i < self.supertype_symbol_map.entries.len()
                invariant
                    self.is_consistent(),
                    self.abi_version >= ABI_VERSION_WITH_RESERVED_WORDS,
                    symbol_ids.wf(),
                    symbol_ids@ == self.symbol_ids(),
                    lt == text_order(),
                    is_strict_order(lt),
                    entries == self.supertype_symbol_map.entries@,
                    i <= entries.len(),
                    is_ascending(supertype_list_ids(list@), lt),
                    forall|id: Seq<char>| #[trigger]
                        supertype_list_ids(list@).to_set().contains(id)
                            == self.is_supertype_id_before(i as int, id),
                    forall|m: int|
                        0 <= m < list@.len() ==> self.is_first_supertype(
                            (#[trigger] list@[m]).1 as int,
                            list@[m].0@,
                        ),
                decreases entries.len() - i,
            {
                let symbol: Symbol = self.supertype_symbol_map.entries[i].0;
                proof {
                    self.supertype_symbol_map.lemma_entry(i as int);
                }
                let ghost q = supertype_list_ids(list@);
                match symbol_ids.get(symbol) {
                    Some(id) => {
                        let mut k: usize = 0;
                        while k < list.len() && is_text_less(list[k].0.as_str(), id.as_str())
                            invariant
                                k <= list@.len(),
                                lt == text_order(),
                                q == supertype_list_ids(list@),
                                forall|j: int| 0 <= j < k ==> lt(#[trigger] q[j], id@),
                            decreases list@.len() - k,
                        {
                            k += 1;
                        }
                        proof {
                            if k < q.len() {
                                assert(lt(q[k as int], id@) || q[k as int] == id@ || lt(
                                    id@,
                                    q[k as int],
                                ));
                            }
                        }
                        if k < list.len() && list[k].0 == *id {
                            proof {
                                assert(q[k as int] == id@);
                                assert forall|x: Seq<char>| #[trigger]
                                    q.to_set().contains(x) == self.is_supertype_id_before(
                                        i + 1,
                                        x,
                                    ) by {
                                    assert(q.to_set().contains(x) == self.is_supertype_id_before(
                                        i as int,
                                        x,
                                    ));
                                    if x == id@ {
                                        assert(q.to_set().contains(x));
                                        assert(self.is_supertype_with_id(x, entries[i as int].0));
                                    }
                                }
                            }
                        } else {
                            let ghost before = list@;
                            proof {
                                assert(!q.to_set().contains(id@)) by {
                                    if q.contains(id@) {
                                        let m = q.index_of(id@);
                                        if m < k {
                                            assert(lt(q[m], id@));
                                        } else if k < m {
                                            assert(lt(q[k as int], q[m]));
                                        }
                                    }
                                }
                                assert(!self.is_supertype_id_before(i as int, id@));
                                lemma_insert_ascending(q, k as int, id@, lt);
                            }
                            list.insert(k, (id.clone(), i));
                            proof {
                                let q1 = supertype_list_ids(list@);
                                assert(q1 =~= q.insert(k as int, id@));
                                assert(self.is_supertype_with_id(id@, entries[i as int].0));
                                assert(self.is_first_supertype(i as int, id@));
                                assert forall|x: Seq<char>| #[trigger]
                                    q1.to_set().contains(x) == self.is_supertype_id_before(
                                        i + 1,
                                        x,
                                    ) by {
                                    assert(q.to_set().contains(x) == self.is_supertype_id_before(
                                        i as int,
                                        x,
                                    ));
                                }
                                assert forall|m: int|
                                    0 <= m < list@.len() implies self.is_first_supertype(
                                    (#[trigger] list@[m]).1 as int,
                                    list@[m].0@,
                                ) by {
                                    if m < k {
                                        assert(list@[m] == before[m]);
                                    } else if m > k {
                                        assert(list@[m] == before[m - 1]);
                                    }
                                }
                            }
                        }
                    },
                    None => {
                        proof {
                            assert forall|x: Seq<char>| #[trigger]
                                q.to_set().contains(x) == self.is_supertype_id_before(i + 1, x) by {
                                assert(q.to_set().contains(x) == self.is_supertype_id_before(
                                    i as int,
                                    x,
                                ));
                            }
                        }
                    },
                }
                i += 1;
            }
        }
        proof {
            let all = Set::new(
                |id: Seq<char>| exists|s: Symbol| self.is_supertype_with_id(id, s),
            );
            let q = supertype_list_ids(list@);
            assert forall|id: Seq<char>| q.to_set().contains(id) == all.contains(id) by {
                if all.contains(id) {
                    let s = choose|s: Symbol| self.is_supertype_with_id(id, s);
                    let k = self.supertype_symbol_map.keys().index_of(s);
                    assert(self.supertype_symbol_map.keys()[k] == s);
                    assert(entries[k].0 == s);
                }
            }
            assert(q.to_set() =~= all);
            lemma_ascending_is(q, all, lt);
            assert forall|m: int| 0 <= m < list@.len() implies {
                &&& (#[trigger] list@[m]).1 < entries.len()
                &&& entries[list@[m].1 as int].0 == self.supertype(list@[m].0@)
            } by {
                self.lemma_first_supertype(list@[m].1 as int, list@[m].0@);
            }
        }
        list
    }
}

/// A parser to be rendered, with all that was worked out from it.
pub struct RustGenerator {
    pub language_name: String,
    pub input: ParserInput,
    pub symbol_ids: SymbolMap<String>,
    pub symbol_map: SymbolMap<Symbol>,
    pub symbol_order: SymbolMap<usize>,
    pub alias_ids: AliasIds,
    pub unique_aliases: Vec<Alias>,
    pub shown_ids: TextList,
    pub field_names: TextList,
    pub large_set_names: TextList,
    pub reserved_word_sets: Vec<TokenSet>,
    pub reserved_word_set_ids_by_parse_state: Vec<usize>,
    pub supertypes: Vec<(String, usize)>,
    pub large_state_count: usize,
}

impl RustGenerator {
    /// Symbols and aliases have the identifiers and numbers that follow from the input.
    pub open spec fn knows_symbols(&self) -> bool {
        &&& self.symbol_ids.wf()
        &&& self.symbol_ids@ == self.input.symbol_ids()
        &&& self.symbol_map.wf()
        &&& self.symbol_map@ == self.input.symbol_map()
        &&& self.input.shows_symbols(self.symbol_map@)
        &&& self.symbol_order.wf()
        &&& self.input.are_symbol_numbers(self.symbol_order@)
        &&& self.alias_ids.wf()
        &&& forall|a: AliasView| #[trigger]
            self.alias_ids@.contains_key(a) == self.input.aliases().contains(a)
        &&& forall|a: AliasView|
            self.alias_ids@.contains_key(a) ==> #[trigger] self.alias_ids@[a]
                == self.input.alias_id(a)
        &&& alias_views(self.unique_aliases@) == self.input.unique_aliases()
        &&& forall|k: int|
            0 <= k < self.unique_aliases@.len() ==> self.input.aliases().contains(
                (#[trigger] self.unique_aliases@[k])@,
            )
    }

    /// The symbols and aliases that are shown have the identifiers that follow from the input.
    pub open spec fn knows_shown_ids(&self) -> bool {
        self.shown_ids@ == self.input.shown_ids()
    }

    /// Sets and supertypes are those that follow from the input.
    pub open spec fn knows_sets(&self) -> bool {
        &&& self.large_set_names@.len() == self.input.large_character_sets@.len()
        &&& forall|i: int|
            0 <= i < self.large_set_names@.len() ==> #[trigger] self.large_set_names@[i]
                == self.input.large_set_id(i)
        &&& token_views(self.reserved_word_sets@) == self.input.reserved_word_sets()
        &&& self.reserved_word_set_ids_by_parse_state@.len() == self.input.states().len()
        &&& forall|i: int|
            0 <= i < self.input.states().len() ==> #[trigger]
                self.reserved_word_set_ids_by_parse_state@[i] == self.input.reserved_word_set_id(i)
        &&& supertype_list_ids(self.supertypes@) == self.input.supertype_ids()
        &&& forall|m: int|
            0 <= m < self.supertypes@.len() ==> {
                &&& (#[trigger] self.supertypes@[m]).1
                    < self.input.supertype_symbol_map.entries@.len()
                &&& self.input.supertype_symbol_map.entries@[self.supertypes@[m].1 as int].0
                    == self.input.supertype(self.supertypes@[m].0@)
            }
    }

    /// All that was worked out follows from the input, and the input can be rendered.
    pub open spec fn wf(&self) -> bool {
        &&& self.input.is_valid()
        &&& self.knows_symbols()
        &&& self.knows_shown_ids()
        &&& self.field_names@ == self.input.field_names()
        &&& self.knows_sets()
        &&& self.large_state_count == self.input.large_state_count()
        &&& self.large_state_count <= self.input.states().len()
    }

    /// Works out what the sections share.
    pub fn init(language_name: String, input: ParserInput) -> (r: Self)
        requires
            input.is_valid(),
        ensures
            r.wf(),
            r.input == input,
            r.language_name == language_name,
    {
        let symbol_ids: SymbolMap<String> = input.assign_symbol_ids();
        let symbol_map: SymbolMap<Symbol> = input.map_symbols();
        let (alias_ids, unique_aliases) = input.collect_aliases(&symbol_ids, &symbol_map);
        let shown_ids: TextList = input.collect_shown_ids(
            &symbol_ids,
            &alias_ids,
            &unique_aliases,
        );
        let field_names: TextList = input.collect_field_names();
        let large_set_names: TextList = input.name_large_sets(&symbol_ids);
        let (reserved_word_sets, reserved_word_set_ids_by_parse_state) =
            input.collect_reserved_words();
        let supertypes: Vec<(String, usize)> = input.collect_supertypes(&symbol_ids);
        let large_state_count: usize = input.count_large_states();
        let symbol_order: SymbolMap<usize> = input.number_symbols();
        RustGenerator {
            language_name,
            input,
            symbol_ids,
            symbol_map,
            symbol_order,
            alias_ids,
            unique_aliases,
            shown_ids,
            field_names,
            large_set_names,
            reserved_word_sets,
            reserved_word_set_ids_by_parse_state,
            supertypes,
            large_state_count,
        }
    }

    /// The identifier of a symbol.
    pub fn symbol_id(&self, symbol: Symbol) -> (r: &str)
        requires
            self.wf(),
            self.input.has_identifier(symbol),
        ensures
            r@ == self.input.id(symbol),
    {
        proof {
            self.input.lemma_symbol_ids();
            assert(self.symbol_ids@.contains_key(symbol));
        }
        self.symbol_ids.get(symbol).unwrap().as_str()
    }

    /// The identifier of what a symbol is shown as.
    pub fn public_symbol_id(&self, symbol: Symbol) -> (r: &str)
        requires
            self.wf(),
            self.input.symbols().contains(symbol),
        ensures
            r@ == self.input.id(self.input.symbol_map()[symbol]),
    {
        assert(self.symbol_map@.contains_key(symbol));
        let shown: Symbol = *self.symbol_map.get(symbol).unwrap();
        self.symbol_id(shown)
    }

    /// The identifier of an alias of a production.
    pub fn alias_id(&self, alias: &Alias) -> (r: &str)
        requires
            self.wf(),
            self.input.aliases().contains(alias@),
        ensures
            r@ == self.input.alias_id(alias@),
    {
        assert(self.alias_ids@.contains_key(alias@));
        self.alias_ids.get(alias).unwrap().as_str()
    }
}

} // verus!
