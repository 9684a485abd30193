//! Works out the names and numbers that the sections of a rendered parser share.
use vstd::prelude::*;

use crate::grammars::VariableType;
use crate::order::{
    ascending, is_ascending, is_first, is_same_text, lemma_ascending_is, lemma_first_index,
    lemma_insert_ascending,
};
use crate::render_rust::input::{
    free_identifier, identifier_prefix, is_free_suffix, suffixed, ParserInput,
};
use crate::render_rust::names::sanitize_identifier;
use crate::rules::{
    alias_order, lemma_alias_order, lemma_symbol_order, symbol_less, symbol_order, Alias, AliasView,
    Symbol, SymbolMap, SymbolType,
};
use crate::text::{concat2, concat3, count_text, decimal, lemma_decimal_injective, TextList};

verus! {

/// Different numbers make different identifiers.
proof fn lemma_suffixed_injective(base: Seq<char>, j: nat, k: nat)
    requires
        suffixed(base, j) == suffixed(base, k),
    ensures
        j == k,
{
    crate::text::lemma_decimal_nonempty(j);
    crate::text::lemma_decimal_nonempty(k);
    if j > 0 && k > 0 {
        let head = base + "_"@;
        assert((head + decimal(j)).skip(head.len() as int) =~= decimal(j));
        assert((head + decimal(k)).skip(head.len() as int) =~= decimal(k));
        lemma_decimal_injective(j, k);
    } else if j > 0 {
        assert(suffixed(base, j).len() > suffixed(base, k).len());
    } else if k > 0 {
        assert(suffixed(base, k).len() > suffixed(base, j).len());
    }
}

/// There are no more taken identifiers with one base than there are taken identifiers.
proof fn lemma_taken_suffixes(base: Seq<char>, used: Seq<Seq<char>>, k: nat)
    requires
        forall|j: nat| j < k ==> used.contains(#[trigger] suffixed(base, j)),
    ensures
        k <= used.len(),
{
    let taken = Seq::new(k, |j: int| suffixed(base, j as nat));
    assert(taken.no_duplicates()) by {
        assert forall|a: int, b: int| 0 <= a < taken.len() && 0 <= b < taken.len() && a != b implies taken[a]
            != taken[b] by {
            if taken[a] == taken[b] {
                lemma_suffixed_injective(base, a as nat, b as nat);
            }
        }
    }
    taken.unique_seq_to_set();
    used.lemma_cardinality_of_set();
    assert(taken.to_set().subset_of(used.to_set())) by {
        assert forall|x: Seq<char>| taken.to_set().contains(x) implies used.to_set().contains(x) by {
            let j = choose|j: int| 0 <= j < taken.len() && taken[j] == x;
            assert(suffixed(base, j as nat) == x);
        }
    }
    vstd::set_lib::lemma_len_subset(taken.to_set(), used.to_set());
}

/// A free suffix is the one that `free_identifier` takes.
proof fn lemma_free_identifier(base: Seq<char>, used: Set<Seq<char>>, k: nat)
    requires
        is_free_suffix(base, used, k),
    ensures
        free_identifier(base, used) == suffixed(base, k),
{
    let c = choose|c: nat| is_free_suffix(base, used, c);
    assert(is_free_suffix(base, used, c));
    if c < k {
        assert(used.contains(suffixed(base, c)));
    } else if k < c {
        assert(used.contains(suffixed(base, k)));
    }
}

/// Some number makes an identifier free, whatever finite list of identifiers is in use.
proof fn some_free_suffix(base: Seq<char>, used: Seq<Seq<char>>, k: nat) -> (free: nat)
    requires
        forall|j: nat| j < k ==> used.contains(#[trigger] suffixed(base, j)),
    ensures
        is_free_suffix(base, used.to_set(), free),
    decreases used.len() + 1 - k,
{
    lemma_taken_suffixes(base, used, k);
    if used.contains(suffixed(base, k)) {
        lemma_taken_suffixes(base, used, k + 1);
        some_free_suffix(base, used, k + 1)
    } else {
        assert(is_free_suffix(base, used.to_set(), k));
        k
    }
}

/// The least number with which an identifier is free is the one that it gets.
pub proof fn lemma_free_suffix(base: Seq<char>, used: Seq<Seq<char>>) -> (k: nat)
    ensures
        is_free_suffix(base, used.to_set(), k),
        free_identifier(base, used.to_set()) == suffixed(base, k),
{
    let k = some_free_suffix(base, used, 0);
    lemma_free_identifier(base, used.to_set(), k);
    k
}

/// A free identifier is not in use, and begins as it should.
pub proof fn free_identifier_is_unused(base: Seq<char>, used: Seq<Seq<char>>)
    ensures
        !used.contains(free_identifier(base, used.to_set())),
        base.is_prefix_of(free_identifier(base, used.to_set())),
{
    let k = some_free_suffix(base, used, 0);
    let chosen = choose|k: nat| is_free_suffix(base, used.to_set(), k);
    assert(is_free_suffix(base, used.to_set(), chosen));
    assert(suffixed(base, chosen).take(base.len() as int) =~= base);
}

/// The text is one of the list.
pub fn has_text(list: &TextList, s: &String) -> (r: bool)
    ensures
        r == list@.contains(s@),
{
    let mut i: usize = 0;
    while i < list.lines.len()
        invariant
            i <= list@.len(),
            forall|j: int| 0 <= j < i ==> list@[j] != s@,
        decreases list@.len() - i,
    {
        if list.lines[i] == *s {
            assert(list@[i as int] == s@);
            return true;
        }
        assert(list@[i as int] == list.lines@[i as int]@);
        i += 1;
    }
    false
}

impl ParserInput {
    /// The name and the kind of a symbol.
    pub fn metadata_for_symbol(&self, symbol: Symbol) -> (r: (&str, VariableType))
        requires
            self.is_known(symbol),
        ensures
            (r.0@, r.1) == self.symbol_metadata(symbol),
    {
        match symbol.kind {
            SymbolType::NonTerminal => {
                let variable = &self.syntax_grammar.variables[symbol.index];
                (variable.name.as_str(), variable.kind)
            },
            SymbolType::Terminal => {
                let variable = &self.lexical_grammar.variables[symbol.index];
                (variable.name.as_str(), variable.kind)
            },
            SymbolType::External => {
                let token = &self.syntax_grammar.external_tokens[symbol.index];
                (token.name.as_str(), token.kind)
            },
            _ => ("end", VariableType::Hidden),
        }
    }

    /// The identifier of a symbol, apart from those that are in use.
    pub fn assign_symbol_id(&self, symbol: Symbol, used_identifiers: &TextList) -> (r: String)
        requires
            self.is_known(symbol),
        ensures
            r@ == self.new_identifier(symbol, used_identifiers@.to_set()),
    {
        if symbol == Symbol::end() {
            return "ts_builtin_sym_end".to_owned();
        }
        let (name, kind): (&str, VariableType) = self.metadata_for_symbol(symbol);
        let part: String = sanitize_identifier(name).to_uppercase();
        Self::unused_identifier(kind, part.as_str(), used_identifiers)
    }

    /// The identifier of a symbol of the given kind with the given part of an identifier as its
    /// name, apart from those that are in use.
    pub fn unused_identifier(kind: VariableType, part: &str, used_identifiers: &TextList) -> (r:
        String)
        ensures
            r@ == free_identifier(identifier_prefix(kind) + part@, used_identifiers@.to_set()),
    {
        let prefix: &str = match kind {
            VariableType::Auxiliary => "AUX_SYM_",
            VariableType::Anonymous => "ANON_SYM_",
            VariableType::Hidden | VariableType::Named => "SYM_",
        };
        let base: String = concat2(prefix, part);
        let ghost used = used_identifiers@;
        let used_count: usize = used_identifiers.len();
        let mut id: String = base.clone();
        let mut suffix_number: usize = 0;
        while has_text(used_identifiers, &id)
            invariant
                used == used_identifiers@,
                used_count == used.len(),
                id@ == suffixed(base@, suffix_number as nat),
                forall|j: nat|
                    j < suffix_number ==> used.contains(#[trigger] suffixed(base@, j)),
                suffix_number <= used.len(),
            decreases used.len() - suffix_number,
        {
            proof {
                lemma_taken_suffixes(base@, used, (suffix_number + 1) as nat);
            }
            suffix_number += 1;
            id = concat3(base.as_str(), "_", count_text(suffix_number).as_str());
        }
        proof {
            assert(is_free_suffix(base@, used.to_set(), suffix_number as nat));
            lemma_free_identifier(base@, used.to_set(), suffix_number as nat);
        }
        id
    }

    /// The symbols that have identifiers.
    pub proof fn lemma_symbol_ids_upto(&self, n: nat)
        requires
            n <= self.symbols().len(),
        ensures
            self.identifiers(n).len() == n,
            forall|s: Symbol|
                #[trigger] self.symbol_ids_upto(n).contains_key(s) == self.symbols().take(
                    n as int,
                ).contains(s),
        decreases n,
    {
        if n > 0 {
            self.lemma_symbol_ids_upto((n - 1) as nat);
            let shorter = self.symbols().take(n - 1);
            let longer = self.symbols().take(n as int);
            assert(longer =~= shorter.push(self.symbols()[n - 1]));
            assert forall|s: Symbol| #[trigger]
                self.symbol_ids_upto(n).contains_key(s) == longer.contains(s) by {
                assert(self.symbol_ids_upto((n - 1) as nat).contains_key(s) == shorter.contains(s));
                if shorter.contains(s) {
                    let k = shorter.index_of(s);
                    assert(longer[k] == s);
                }
                if s == self.symbols()[n - 1] {
                    assert(longer[n - 1] == s);
                }
                if longer.contains(s) && s != self.symbols()[n - 1] {
                    let k = longer.index_of(s);
                    assert(shorter[k] == s);
                }
            }
        }
    }

    /// The symbols that have identifiers.
    pub proof fn lemma_symbol_ids(&self)
        requires
            self.symbols().contains(Symbol::end()),
        ensures
            forall|s: Symbol|
                #[trigger] self.symbol_ids().contains_key(s) == self.has_identifier(s),
            self.symbol_ids_upto(self.symbols().len()).contains_key(Symbol::end()),
    {
        self.lemma_symbol_ids_upto(self.symbols().len());
        assert(self.symbols().take(self.symbols().len() as int) =~= self.symbols());
    }

    /// The identifiers of all symbols.
    pub fn assign_symbol_ids(&self) -> (ids: SymbolMap<String>)
        requires
            self.is_consistent(),
        ensures
            ids.wf(),
            ids@ == self.symbol_ids(),
    {
        let mut used_identifiers: TextList = TextList::new();
        let mut ids: SymbolMap<String> = SymbolMap::new();
        let symbols = &self.parse_table.symbols;
        let mut i: usize = 0;
        while i < symbols.len()
            invariant
                self.is_consistent(),
                symbols@ == self.symbols(),
                i <= symbols@.len(),
                used_identifiers@ == self.identifiers(i as nat),
                ids.wf(),
                ids@ == self.symbol_ids_upto(i as nat),
            decreases symbols@.len() - i,
        {
            let id: String = self.assign_symbol_id(symbols[i], &used_identifiers);
            ids.insert(symbols[i], id.clone());
            used_identifiers.push(id);
            i += 1;
        }
        proof {
            self.lemma_symbol_ids();
        }
        match ids.get(Symbol::end()) {
            Some(end_id) => {
                let id: String = end_id.clone();
                ids.insert(Symbol::end_of_nonterminal_extra(), id);
            },
            None => {},
        }
        ids
    }

    /// Each symbol of the parser is shown as a symbol of the parser.
    pub open spec fn shows_symbols(&self, map: Map<Symbol, Symbol>) -> bool {
        forall|s: Symbol|
            self.symbols().contains(s) ==> #[trigger] map.contains_key(s) && self.symbols().contains(
                map[s],
            )
    }

    /// What a symbol is shown as.
    fn public_symbol(&self, symbol: Symbol, earlier: &SymbolMap<Symbol>) -> (r: Symbol)
        requires
            self.is_consistent(),
            self.symbols().contains(symbol),
            earlier.wf(),
        ensures
            r == self.shown_as(symbol, earlier@),
            self.symbols().contains(r),
    {
        let ghost symbols = self.symbols();
        match self.default_aliases.get(symbol) {
            Some(alias) => {
                let ghost plain = self.is_plainly(alias@);
                let ghost default = self.is_by_default(alias@);
                let mut mapping: Symbol = symbol;
                let mut i: usize = 0;
                while i < self.parse_table.symbols.len()
                    invariant
                        self.is_consistent(),
                        symbols == self.symbols(),
                        symbols.contains(symbol),
                        self.default_alias(symbol) == Some(alias@),
                        plain == self.is_plainly(alias@),
                        default == self.is_by_default(alias@),
                        i <= symbols.len(),
                        forall|j: int| 0 <= j < i ==> !plain(#[trigger] symbols[j]),
                        symbols.contains(mapping),
                        default(mapping),
                        !symbol_less(symbol, mapping),
                        forall|j: int|
                            0 <= j < i && default(#[trigger] symbols[j]) ==> !symbol_less(
                                symbols[j],
                                mapping,
                            ),
                    decreases symbols.len() - i,
                {
                    let other: Symbol = self.parse_table.symbols[i];
                    assert(symbols[i as int] == other);
                    assert(symbols.contains(other));
                    match self.default_aliases.get(other) {
                        Some(other_alias) => {
                            if other.is_less(&mapping) && other_alias.equals(alias) {
                                mapping = other;
                            }
                        },
                        None => {
                            let (name, kind): (&str, VariableType) = self.metadata_for_symbol(other);
                            if is_same_text(name, alias.value.as_str()) && kind == alias.kind() {
                                proof {
                                    assert(plain(other));
                                    assert(is_first(symbols, plain, i as int));
                                    lemma_first_index(symbols, plain, i as int);
                                    assert(symbols.any(plain));
                                }
                                return other;
                            }
                            assert(!plain(other));
                        },
                    }
                    i += 1;
                }
                proof {
                    assert(!symbols.any(plain));
                    assert(self.is_least_symbol(default, mapping)) by {
                        assert forall|other: Symbol| #[trigger]
                            symbols.contains(other) && default(other) implies !symbol_less(
                            other,
                            mapping,
                        ) by {
                            let j = symbols.index_of(other);
                            assert(symbols[j] == other);
                        }
                    }
                    let chosen = choose|s: Symbol| self.is_least_symbol(default, s);
                    assert(self.is_least_symbol(default, chosen));
                    lemma_symbol_order();
                    let lt = symbol_order();
                    assert(lt(chosen, mapping) || chosen == mapping || lt(mapping, chosen));
                }
                mapping
            },
            None => {
                if symbol.is_terminal() {
                    let ghost k = symbols.index_of(symbol);
                    assert(symbols[k] == symbol);
                    let (name, kind): (&str, VariableType) = self.metadata_for_symbol(symbol);
                    let ghost same = self.has_metadata(self.symbol_metadata(symbol));
                    let mut i: usize = 0;
                    while i < self.parse_table.symbols.len()
                        invariant
                            self.is_consistent(),
                            symbols == self.symbols(),
                            earlier.wf(),
                            0 <= k < symbols.len(),
                            symbols[k] == symbol,
                            symbol.is_terminal(),
                            self.default_alias(symbol) is None,
                            (name@, kind) == self.symbol_metadata(symbol),
                            same == self.has_metadata(self.symbol_metadata(symbol)),
                            i <= k,
                            forall|j: int| 0 <= j < i ==> !same(#[trigger] symbols[j]),
                        decreases symbols.len() - i,
                    {
                        let other: Symbol = self.parse_table.symbols[i];
                        assert(symbols[i as int] == other);
                        let (other_name, other_kind): (&str, VariableType) =
                            self.metadata_for_symbol(other);
                        if is_same_text(other_name, name) && other_kind == kind {
                            proof {
                                assert(same(other));
                                assert(is_first(symbols, same, i as int));
                                lemma_first_index(symbols, same, i as int);
                            }
                            match earlier.get(other) {
                                Some(mapped) => {
                                    if *mapped == symbol {
                                        return symbol;
                                    }
                                },
                                None => {},
                            }
                            return other;
                        }
                        assert(!same(other));
                        assert(same(symbol));
                        i += 1;
                    }
                }
                symbol
            },
        }
    }

    /// What each symbol is shown as.
    pub fn map_symbols(&self) -> (map: SymbolMap<Symbol>)
        requires
            self.is_consistent(),
        ensures
            map.wf(),
            map@ == self.symbol_map(),
            self.shows_symbols(map@),
    {
        let mut map: SymbolMap<Symbol> = SymbolMap::new();
        let symbols = &self.parse_table.symbols;
        let mut i: usize = 0;
        while i < symbols.len()
            invariant
                self.is_consistent(),
                symbols@ == self.symbols(),
                i <= symbols@.len(),
                map.wf(),
                map@ == self.symbol_map_upto(i as nat),
                forall|j: int|
                    0 <= j < i ==> map@.contains_key(#[trigger] self.symbols()[j])
                        && self.symbols().contains(map@[self.symbols()[j]]),
            decreases symbols@.len() - i,
        {
            assert(self.symbols().contains(self.symbols()[i as int]));
            let shown: Symbol = self.public_symbol(symbols[i], &map);
            map.insert(symbols[i], shown);
            i += 1;
        }
        assert forall|s: Symbol| self.symbols().contains(s) implies #[trigger] map@.contains_key(s)
            && self.symbols().contains(map@[s]) by {
            let k = self.symbols().index_of(s);
            assert(self.symbols()[k] == s);
        }
        map
    }
}

/// What the aliases of a list say.
pub open spec fn alias_views(list: Seq<Alias>) -> Seq<AliasView> {
    list.map_values(|alias: Alias| alias@)
}

/// Adds an alias to an ascending list.
fn insert_alias(list: &mut Vec<Alias>, new: &Alias)
    requires
        is_ascending(alias_views(old(list)@), alias_order()),
    ensures
        is_ascending(alias_views(final(list)@), alias_order()),
        alias_views(final(list)@).to_set() == alias_views(old(list)@).to_set().insert(new@),
{
    let ghost q = alias_views(list@);
    let ghost lt = alias_order();
    proof {
        lemma_alias_order();
    }
    let mut i: usize = 0;
    while i < list.len() && list[i].is_less(new)
        invariant
            i <= list@.len(),
            alias_views(list@) == q,
            lt == alias_order(),
            forall|j: int| 0 <= j < i ==> lt(#[trigger] q[j], new@),
        decreases list@.len() - i,
    {
        assert(q[i as int] == list@[i as int]@);
        i += 1;
    }
    if i < list.len() && list[i].equals(new) {
        assert(q[i as int] == new@);
        assert(q.to_set().insert(new@) =~= q.to_set());
    } else {
        proof {
            if i < q.len() {
                assert(q[i as int] == list@[i as int]@);
                assert(lt(q[i as int], new@) || q[i as int] == new@ || lt(new@, q[i as int]));
            }
            lemma_insert_ascending(q, i as int, new@, lt);
        }
        list.insert(i, new.clone());
        assert(alias_views(list@) =~= q.insert(i as int, new@));
    }
}

/// The identifiers of aliases.
pub struct AliasIds {
    pub entries: Vec<(Alias, String)>,
}

impl View for AliasIds {
    type V = Map<AliasView, Seq<char>>;

    open spec fn view(&self) -> Map<AliasView, Seq<char>> {
        Map::new(
            |alias: AliasView| self.has(alias),
            |alias: AliasView| self.entries@[self.place(alias)].1@,
        )
    }
}

impl AliasIds {
    /// The alias has an identifier.
    pub open spec fn has(&self, alias: AliasView) -> bool {
        exists|i: int| 0 <= i < self.entries@.len() && (#[trigger] self.entries@[i]).0@ == alias
    }

    /// The place of an alias among the entries.
    pub open spec fn place(&self, alias: AliasView) -> int {
        choose|i: int| 0 <= i < self.entries@.len() && (#[trigger] self.entries@[i]).0@ == alias
    }

    /// No alias has two entries.
    pub open spec fn wf(&self) -> bool {
        forall|i: int, j: int|
            0 <= i < j < self.entries@.len() ==> (#[trigger] self.entries@[i]).0@ != (
            #[trigger] self.entries@[j]).0@
    }

    /// No identifiers.
    fn new() -> (r: Self)
        ensures
            r.wf(),
            r@ == Map::<AliasView, Seq<char>>::empty(),
    {
        let r: AliasIds = AliasIds { entries: Vec::new() };
        assert(r@ =~= Map::<AliasView, Seq<char>>::empty());
        r
    }

    /// The identifier of an alias.
    pub fn get(&self, alias: &Alias) -> (r: Option<&String>)
        requires
            self.wf(),
        ensures
            match r {
                Some(id) => self@.contains_key(alias@) && self@[alias@] == id@,
                None => !self@.contains_key(alias@),
            },
    {
        let mut i: usize = 0;
        while i < self.entries.len()
            invariant
                self.wf(),
                i <= self.entries@.len(),
                forall|j: int| 0 <= j < i ==> (#[trigger] self.entries@[j]).0@ != alias@,
            decreases self.entries@.len() - i,
        {
            if self.entries[i].0.equals(alias) {
                assert(self.entries@[i as int].0@ == alias@);
                assert(self.place(alias@) == i);
                return Some(&self.entries[i].1);
            }
            i += 1;
        }
        None
    }

    /// Gives an alias an identifier that has none yet.
    fn insert_new(&mut self, alias: Alias, id: String)
        requires
            old(self).wf(),
            !old(self)@.contains_key(alias@),
        ensures
            final(self).wf(),
            final(self)@ == old(self)@.insert(alias@, id@),
    {
        let ghost before = *self;
        self.entries.push((alias, id));
        let ghost n = before.entries@.len() as int;
        proof {
            assert(self.entries@[n].0@ == alias@);
            assert forall|a: AliasView| self.has(a) == (before.has(a) || a == alias@) by {
                if before.has(a) {
                    assert(self.entries@[before.place(a)].0@ == a);
                }
                if self.has(a) && a != alias@ {
                    assert(before.entries@[self.place(a)].0@ == a);
                }
            }
            assert forall|a: AliasView| before.has(a) implies #[trigger] self@[a] == before@[a] by {
                assert(self.entries@[before.place(a)].0@ == a);
                assert(self.entries@[self.place(a)].0@ == a);
                assert(self.place(a) == before.place(a));
            }
            assert(self.place(alias@) == n);
            assert(self@ =~= before@.insert(alias@, id@));
        }
    }
}

impl ParserInput {
    /// The symbols that are shown as the alias says.
    pub fn symbols_for_alias(&self, alias: &Alias) -> (r: Vec<Symbol>)
        requires
            self.is_consistent(),
        ensures
            r@ == self.symbols_with_alias(alias@),
            forall|i: int| 0 <= i < r@.len() ==> self.symbols().contains(#[trigger] r@[i]),
    {
        let ghost symbols = self.symbols();
        let ghost pred = self.is_aliased_as(alias@);
        let mut result: Vec<Symbol> = Vec::new();
        let mut i: usize = 0;
        proof {
            reveal(Seq::filter);
            assert(symbols.take(0).filter(pred) =~= Seq::<Symbol>::empty());
        }
        while i < self.parse_table.symbols.len()
            invariant
                self.is_consistent(),
                symbols == self.symbols(),
                pred == self.is_aliased_as(alias@),
                i <= symbols.len(),
                result@ == symbols.take(i as int).filter(pred),
                forall|j: int| 0 <= j < result@.len() ==> symbols.contains(#[trigger] result@[j]),
            decreases symbols.len() - i,
        {
            let symbol: Symbol = self.parse_table.symbols[i];
            proof {
                reveal(Seq::filter);
                assert(symbols.take(i + 1).drop_last() =~= symbols.take(i as int));
                assert(symbols.take(i + 1).last() == symbol);
                assert(symbols[i as int] == symbol);
            }
            match self.default_aliases.get(symbol) {
                Some(default_alias) => {
                    if default_alias.equals(alias) {
                        result.push(symbol);
                    }
                },
                None => {
                    let (name, kind): (&str, VariableType) = self.metadata_for_symbol(symbol);
                    if is_same_text(name, alias.value.as_str()) && kind == alias.kind() {
                        result.push(symbol);
                    }
                },
            }
            i += 1;
        }
        assert(symbols.take(i as int) =~= symbols);
        result
    }

    /// The alias is one of the first `i` productions, or one of the first `j` aliases of the next.
    spec fn is_alias_before(&self, i: int, j: int, alias: AliasView) -> bool {
        exists|a: int, b: int|
            #[trigger] self.has_alias_at(a, b, alias) && (a < i || (a == i && b < j))
    }

    /// The identifier of an alias, and whether it is that of a symbol.
    fn alias_identifier(
        &self,
        alias: &Alias,
        symbol_ids: &SymbolMap<String>,
        symbol_map: &SymbolMap<Symbol>,
    ) -> (r: (String, bool))
        requires
            self.is_consistent(),
            symbol_ids.wf(),
            symbol_ids@ == self.symbol_ids(),
            symbol_map.wf(),
            symbol_map@ == self.symbol_map(),
            self.shows_symbols(symbol_map@),
        ensures
            r.0@ == self.alias_id(alias@),
            r.1 == (self.symbols_with_alias(alias@).len() > 0),
    {
        let existing: Vec<Symbol> = self.symbols_for_alias(alias);
        if existing.len() > 0 {
            let symbol: Symbol = existing[0];
            proof {
                self.lemma_symbol_ids();
                assert(self.symbols().contains(symbol));
                assert(symbol_map@.contains_key(symbol));
                assert(symbol_ids@.contains_key(symbol_map@[symbol]));
            }
            let shown: Symbol = *symbol_map.get(symbol).unwrap();
            (symbol_ids.get(shown).unwrap().clone(), true)
        } else {
            let name: String = sanitize_identifier(alias.value.as_str()).to_uppercase();
            if alias.is_named {
                (concat2("ALIAS_SYM_", name.as_str()), false)
            } else {
                (concat2("ANON_ALIAS_SYM_", name.as_str()), false)
            }
        }
    }

    /// The identifiers of the aliases, and those aliases that no symbol is shown as.
    #[verifier::rlimit(40)]
    pub fn collect_aliases(
        &self,
        symbol_ids: &SymbolMap<String>,
        symbol_map: &SymbolMap<Symbol>,
    ) -> (r: (AliasIds, Vec<Alias>))
        requires
            self.is_consistent(),
            symbol_ids.wf(),
            symbol_ids@ == self.symbol_ids(),
            symbol_map.wf(),
            symbol_map@ == self.symbol_map(),
            self.shows_symbols(symbol_map@),
        ensures
            r.0.wf(),
            forall|a: AliasView| #[trigger] r.0@.contains_key(a) == self.aliases().contains(a),
            forall|a: AliasView| r.0@.contains_key(a) ==> #[trigger] r.0@[a] == self.alias_id(a),
            alias_views(r.1@) == self.unique_aliases(),
            forall|k: int| 0 <= k < r.1@.len() ==> self.aliases().contains((#[trigger] r.1@[k])@),
    {
        let mut ids: AliasIds = AliasIds::new();
        let mut unique: Vec<Alias> = Vec::new();
        let ghost infos = self.infos();
        let mut i: usize = 0;
        proof {
            assert(alias_views(unique@).to_set() =~= Set::<AliasView>::empty());
        }
        while i < self.parse_table.production_infos.len()
            invariant
                self.is_consistent(),
                symbol_ids.wf(),
                symbol_ids@ == self.symbol_ids(),
                symbol_map.wf(),
                symbol_map@ == self.symbol_map(),
                self.shows_symbols(symbol_map@),
                infos == self.infos(),
                i <= infos.len(),
                ids.wf(),
                forall|a: AliasView| #[trigger]
                    ids@.contains_key(a) == self.is_alias_before(i as int, 0, a),
                forall|a: AliasView| ids@.contains_key(a) ==> #[trigger] ids@[a] == self.alias_id(a),
                is_ascending(alias_views(unique@), alias_order()),
                forall|a: AliasView| #[trigger]
                    alias_views(unique@).to_set().contains(a) == (ids@.contains_key(a)
                        && self.symbols_with_alias(a).len() == 0),
            decreases infos.len() - i,
        {
            let sequence = &self.parse_table.production_infos[i].alias_sequence;
            let mut j: usize = 0;
            while j < sequence.len()
                invariant
                    self.is_consistent(),
                    symbol_ids.wf(),
                    symbol_ids@ == self.symbol_ids(),
                    symbol_map.wf(),
                    symbol_map@ == self.symbol_map(),
                    self.shows_symbols(symbol_map@),
                    infos == self.infos(),
                    i < infos.len(),
                    sequence == infos[i as int].alias_sequence,
                    j <= sequence@.len(),
                    ids.wf(),
                    forall|a: AliasView| #[trigger]
                        ids@.contains_key(a) == self.is_alias_before(i as int, j as int, a),
                    forall|a: AliasView|
                        ids@.contains_key(a) ==> #[trigger] ids@[a] == self.alias_id(a),
                    is_ascending(alias_views(unique@), alias_order()),
                    forall|a: AliasView| #[trigger]
                        alias_views(unique@).to_set().contains(a) == (ids@.contains_key(a)
                            && self.symbols_with_alias(a).len() == 0),
                decreases sequence@.len() - j,
            {
                let ghost ids_before = ids@;
                match &sequence[j] {
                    Some(alias) => {
                        proof {
                            self.lemma_alias_before(i as int, j as int, alias@);
                        }
                        match ids.get(alias) {
                            Some(_) => {
                                assert(ids_before.insert(alias@, ids_before[alias@]) =~= ids_before);
                            },
                            None => {
                                let (id, is_shown): (String, bool) = self.alias_identifier(
                                    alias,
                                    symbol_ids,
                                    symbol_map,
                                );
                                if !is_shown {
                                    insert_alias(&mut unique, alias);
                                }
                                ids.insert_new(alias.clone(), id);
                            },
                        }
                    },
                    None => {
                        proof {
                            self.lemma_no_alias_before(i as int, j as int);
                        }
                    },
                }
                j += 1;
            }
            proof {
                self.lemma_next_info(i as int);
            }
            i += 1;
        }
        proof {
            assert forall|a: AliasView| #[trigger]
                ids@.contains_key(a) == self.aliases().contains(a) by {
                if self.aliases().contains(a) {
                    let (x, y) = choose|x: int, y: int| self.has_alias_at(x, y, a);
                    assert(self.has_alias_at(x, y, a));
                }
            }
            let all = Set::new(
                |alias: AliasView|
                    self.aliases().contains(alias) && self.symbols_with_alias(alias).len() == 0,
            );
            assert(alias_views(unique@).to_set() =~= all);
            lemma_alias_order();
            lemma_ascending_is(alias_views(unique@), all, alias_order());
            assert forall|k: int| 0 <= k < unique@.len() implies self.aliases().contains(
                (#[trigger] unique@[k])@,
            ) by {
                assert(alias_views(unique@)[k] == unique@[k]@);
                assert(alias_views(unique@).to_set().contains(unique@[k]@));
            }
        }
        (ids, unique)
    }

    proof fn lemma_alias_before(&self, i: int, j: int, alias: AliasView)
        requires
            self.has_alias_at(i, j, alias),
        ensures
            forall|a: AliasView| #[trigger]
                self.is_alias_before(i, j + 1, a) == (self.is_alias_before(i, j, a) || a == alias),
    {
        assert forall|a: AliasView| #[trigger]
            self.is_alias_before(i, j + 1, a) == (self.is_alias_before(i, j, a) || a == alias) by {
            if self.is_alias_before(i, j + 1, a) && a != alias {
                let (x, y) = choose|x: int, y: int| #[trigger]
                    self.has_alias_at(x, y, a) && (x < i || (x == i && y < j + 1));
                assert(self.has_alias_at(x, y, a) && (x < i || (x == i && y < j)));
            }
            if self.is_alias_before(i, j, a) {
                let (x, y) = choose|x: int, y: int| #[trigger]
                    self.has_alias_at(x, y, a) && (x < i || (x == i && y < j));
                assert(self.has_alias_at(x, y, a) && (x < i || (x == i && y < j + 1)));
            }
            if a == alias {
                assert(self.has_alias_at(i, j, a));
            }
        }
    }

    proof fn lemma_no_alias_before(&self, i: int, j: int)
        requires
            0 <= i < self.infos().len(),
            0 <= j < self.infos()[i].alias_sequence@.len(),
            self.infos()[i].alias_sequence@[j] is None,
        ensures
            forall|a: AliasView| #[trigger]
                self.is_alias_before(i, j + 1, a) == self.is_alias_before(i, j, a),
    {
        assert forall|a: AliasView| #[trigger]
            self.is_alias_before(i, j + 1, a) == self.is_alias_before(i, j, a) by {
            if self.is_alias_before(i, j + 1, a) {
                let (x, y) = choose|x: int, y: int| #[trigger]
                    self.has_alias_at(x, y, a) && (x < i || (x == i && y < j + 1));
                assert(self.has_alias_at(x, y, a) && (x < i || (x == i && y < j)));
            }
            if self.is_alias_before(i, j, a) {
                let (x, y) = choose|x: int, y: int| #[trigger]
                    self.has_alias_at(x, y, a) && (x < i || (x == i && y < j));
                assert(self.has_alias_at(x, y, a) && (x < i || (x == i && y < j + 1)));
            }
        }
    }

    proof fn lemma_next_info(&self, i: int)
        requires
            0 <= i < self.infos().len(),
        ensures
            forall|a: AliasView| #[trigger]
                self.is_alias_before(i + 1, 0, a) == self.is_alias_before(
                    i,
                    self.infos()[i].alias_sequence@.len() as int,
                    a,
                ),
    {
        let n = self.infos()[i].alias_sequence@.len() as int;
        assert forall|a: AliasView| #[trigger]
            self.is_alias_before(i + 1, 0, a) == self.is_alias_before(i, n, a) by {
            if self.is_alias_before(i + 1, 0, a) {
                let (x, y) = choose|x: int, y: int| #[trigger]
                    self.has_alias_at(x, y, a) && (x < i + 1 || (x == i + 1 && y < 0));
                assert(self.has_alias_at(x, y, a) && (x < i || (x == i && y < n)));
            }
            if self.is_alias_before(i, n, a) {
                let (x, y) = choose|x: int, y: int| #[trigger]
                    self.has_alias_at(x, y, a) && (x < i || (x == i && y < n));
                assert(self.has_alias_at(x, y, a) && (x < i + 1 || (x == i + 1 && y < 0)));
            }
        }
    }
}

} // verus!
