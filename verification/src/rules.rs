//! Grammar symbols, aliases, token sets, and maps from symbols.
use vstd::prelude::*;

use crate::grammars::VariableType;
use crate::order::{is_ascending, is_strict_order, is_text_less, text_less};

verus! {

/// The kinds of symbols, in ascending order.
#[derive(Clone, Copy, Debug, PartialEq, Eq, PartialOrd, Ord, Hash, Structural)]
pub enum SymbolType {
    External,
    End,
    EndOfNonTerminalExtra,
    Terminal,
    NonTerminal,
}

impl SymbolType {
    /// The place of a kind in the order of kinds.
    pub open spec fn rank(self) -> int {
        match self {
            SymbolType::External => 0,
            SymbolType::End => 1,
            SymbolType::EndOfNonTerminalExtra => 2,
            SymbolType::Terminal => 3,
            SymbolType::NonTerminal => 4,
        }
    }

    fn rank_number(self) -> (r: u8)
        ensures
            r == self.rank(),
    {
        match self {
            SymbolType::External => 0,
            SymbolType::End => 1,
            SymbolType::EndOfNonTerminalExtra => 2,
            SymbolType::Terminal => 3,
            SymbolType::NonTerminal => 4,
        }
    }
}

/// A symbol of a grammar: its kind, and its place among the symbols of that kind.
#[derive(Clone, Copy, Debug, PartialEq, Eq, PartialOrd, Ord, Hash, Structural)]
pub struct Symbol {
    pub kind: SymbolType,
    pub index: usize,
}

impl View for Symbol {
    type V = Symbol;

    open spec fn view(&self) -> Symbol {
        *self
    }
}

/// Symbols are ordered by their kinds, then by their indices.
pub open spec fn symbol_less(a: Symbol, b: Symbol) -> bool {
    a.kind.rank() < b.kind.rank() || (a.kind == b.kind && a.index < b.index)
}

/// `symbol_less` as an order to sort by.
pub open spec fn symbol_order() -> spec_fn(Symbol, Symbol) -> bool {
    |a: Symbol, b: Symbol| symbol_less(a, b)
}

/// The order of symbols is a strict total order.
pub proof fn lemma_symbol_order()
    ensures
        is_strict_order(symbol_order()),
{
    let lt = symbol_order();
    assert forall|a: Symbol, b: Symbol| #[trigger] lt(a, b) || a == b || lt(b, a) by {
        if a.kind.rank() == b.kind.rank() {
            assert(a.kind == b.kind);
        }
    }
}

impl Symbol {
    /// The end of the input.
    pub open spec fn spec_end() -> Symbol {
        Symbol { kind: SymbolType::End, index: 0 }
    }

    /// The end of the input, or of a piece of it that ends a non-terminal extra.
    pub open spec fn spec_end_of_nonterminal_extra() -> Symbol {
        Symbol { kind: SymbolType::EndOfNonTerminalExtra, index: 0 }
    }

    pub open spec fn spec_is_terminal(&self) -> bool {
        self.kind == SymbolType::Terminal
    }

    pub open spec fn spec_is_non_terminal(&self) -> bool {
        self.kind == SymbolType::NonTerminal
    }

    pub open spec fn spec_is_external(&self) -> bool {
        self.kind == SymbolType::External
    }

    pub open spec fn spec_is_eof(&self) -> bool {
        self.kind == SymbolType::End
    }

    pub fn new(kind: SymbolType, index: usize) -> (r: Symbol)
        ensures
            r.kind == kind,
            r.index == index,
    {
        Symbol { kind, index }
    }

    #[verifier::when_used_as_spec(spec_end)]
    pub fn end() -> (r: Symbol)
        ensures
            r == Symbol::spec_end(),
    {
        Symbol { kind: SymbolType::End, index: 0 }
    }

    #[verifier::when_used_as_spec(spec_end_of_nonterminal_extra)]
    pub fn end_of_nonterminal_extra() -> (r: Symbol)
        ensures
            r == Symbol::spec_end_of_nonterminal_extra(),
    {
        Symbol { kind: SymbolType::EndOfNonTerminalExtra, index: 0 }
    }

    pub fn terminal(index: usize) -> (r: Symbol)
        ensures
            r == (Symbol { kind: SymbolType::Terminal, index }),
    {
        Symbol { kind: SymbolType::Terminal, index }
    }

    pub fn non_terminal(index: usize) -> (r: Symbol)
        ensures
            r == (Symbol { kind: SymbolType::NonTerminal, index }),
    {
        Symbol { kind: SymbolType::NonTerminal, index }
    }

    pub fn external(index: usize) -> (r: Symbol)
        ensures
            r == (Symbol { kind: SymbolType::External, index }),
    {
        Symbol { kind: SymbolType::External, index }
    }

    #[verifier::when_used_as_spec(spec_is_terminal)]
    pub fn is_terminal(&self) -> (r: bool)
        ensures
            r == self.spec_is_terminal(),
    {
        self.kind == SymbolType::Terminal
    }

    #[verifier::when_used_as_spec(spec_is_non_terminal)]
    pub fn is_non_terminal(&self) -> (r: bool)
        ensures
            r == self.spec_is_non_terminal(),
    {
        self.kind == SymbolType::NonTerminal
    }

    #[verifier::when_used_as_spec(spec_is_external)]
    pub fn is_external(&self) -> (r: bool)
        ensures
            r == self.spec_is_external(),
    {
        self.kind == SymbolType::External
    }

    #[verifier::when_used_as_spec(spec_is_eof)]
    pub fn is_eof(&self) -> (r: bool)
        ensures
            r == self.spec_is_eof(),
    {
        self.kind == SymbolType::End
    }

    /// Compares two symbols.
    pub fn is_less(&self, other: &Symbol) -> (r: bool)
        ensures
            r == symbol_less(*self, *other),
    {
        let a: u8 = self.kind.rank_number();
        let b: u8 = other.kind.rank_number();
        a < b || (a == b && self.index < other.index)
    }
}

/// Adds a symbol to an ascending list.
pub fn insert_symbol(list: &mut Vec<Symbol>, new: Symbol)
    requires
        is_ascending(old(list)@, symbol_order()),
    ensures
        is_ascending(final(list)@, symbol_order()),
        final(list)@.to_set() == old(list)@.to_set().insert(new),
{
    let ghost q = list@;
    let ghost lt = symbol_order();
    let mut i: usize = 0;
    while i < list.len() && list[i].is_less(&new)
        invariant
            i <= q.len(),
            list@ == q,
            lt == symbol_order(),
            forall|j: int| 0 <= j < i ==> lt(#[trigger] q[j], new),
        decreases q.len() - i,
    {
        i += 1;
    }
    if i < list.len() && list[i] == new {
        assert(q[i as int] == new);
        assert(q.to_set().insert(new) =~= q.to_set());
    } else {
        proof {
            lemma_symbol_order();
            if i < q.len() {
                assert(lt(q[i as int], new) || q[i as int] == new || lt(new, q[i as int]));
            }
            crate::order::lemma_insert_ascending(q, i as int, new, lt);
        }
        list.insert(i, new);
    }
}

/// The name by which a node is shown instead of its symbol's name.
#[derive(Debug, PartialEq, Eq, PartialOrd, Ord, Hash)]
pub struct Alias {
    pub value: String,
    pub is_named: bool,
}

/// What an alias says.
pub struct AliasView {
    pub value: Seq<char>,
    pub is_named: bool,
}

impl View for Alias {
    type V = AliasView;

    open spec fn view(&self) -> AliasView {
        AliasView { value: self.value@, is_named: self.is_named }
    }
}

impl AliasView {
    /// Named nodes have named aliases; all others are anonymous.
    pub open spec fn kind(self) -> VariableType {
        if self.is_named {
            VariableType::Named
        } else {
            VariableType::Anonymous
        }
    }
}

/// Aliases are ordered by their values; of two with one value the anonymous one is less.
pub open spec fn alias_less(a: AliasView, b: AliasView) -> bool {
    text_less(a.value, b.value) || (a.value == b.value && !a.is_named && b.is_named)
}

/// `alias_less` as an order to sort by.
pub open spec fn alias_order() -> spec_fn(AliasView, AliasView) -> bool {
    |a: AliasView, b: AliasView| alias_less(a, b)
}

/// The order of aliases is a strict total order.
pub proof fn lemma_alias_order()
    ensures
        is_strict_order(alias_order()),
{
    crate::order::lemma_text_order();
    let lt = alias_order();
    let t = crate::order::text_order();
    assert forall|a: AliasView, b: AliasView| #[trigger] lt(a, b) implies !lt(b, a) by {
        assert(t(a.value, b.value) == text_less(a.value, b.value));
        assert(t(b.value, a.value) == text_less(b.value, a.value));
    }
    assert forall|a: AliasView, b: AliasView, c: AliasView| #[trigger]
        lt(a, b) && #[trigger] lt(b, c) implies lt(a, c) by {
        assert(t(a.value, b.value) == text_less(a.value, b.value));
        assert(t(b.value, c.value) == text_less(b.value, c.value));
        assert(t(a.value, c.value) == text_less(a.value, c.value));
    }
    assert forall|a: AliasView, b: AliasView| #[trigger] lt(a, b) || a == b || lt(b, a) by {
        assert(t(a.value, b.value) == text_less(a.value, b.value));
        assert(t(b.value, a.value) == text_less(b.value, a.value));
    }
}

impl Clone for Alias {
    fn clone(&self) -> (r: Self)
        ensures
            r == *self,
    {
        Alias { value: self.value.clone(), is_named: self.is_named }
    }
}

impl Alias {
    /// The kind of node that the alias makes.
    pub fn kind(&self) -> (r: VariableType)
        ensures
            r == self@.kind(),
    {
        if self.is_named {
            VariableType::Named
        } else {
            VariableType::Anonymous
        }
    }

    /// The two aliases say the same.
    pub fn equals(&self, other: &Alias) -> (r: bool)
        ensures
            r == (self@ == other@),
    {
        self.value == other.value && self.is_named == other.is_named
    }

    /// Compares two aliases.
    pub fn is_less(&self, other: &Alias) -> (r: bool)
        ensures
            r == alias_less(self@, other@),
    {
        is_text_less(self.value.as_str(), other.value.as_str()) || (self.value == other.value
            && !self.is_named && other.is_named)
    }
}

/// A map from symbols, in ascending order of the symbols.
pub struct SymbolMap<V> {
    pub entries: Vec<(Symbol, V)>,
}

impl<V: View> View for SymbolMap<V> {
    type V = Map<Symbol, V::V>;

    open spec fn view(&self) -> Map<Symbol, V::V> {
        Map::new(
            |s: Symbol| self.keys().contains(s),
            |s: Symbol| self.entries@[self.keys().index_of(s)].1@,
        )
    }
}

impl<V> SymbolMap<V> {
    /// The symbols that have a value, in the order of the entries.
    pub open spec fn keys(&self) -> Seq<Symbol> {
        self.entries@.map_values(|e: (Symbol, V)| e.0)
    }

    /// The entries are in strictly ascending order of their symbols.
    pub open spec fn wf(&self) -> bool {
        is_ascending(self.keys(), symbol_order())
    }
}

impl<V: View> SymbolMap<V> {
    /// What the entry at `i` says about its symbol.
    pub proof fn lemma_entry(&self, i: int)
        requires
            self.wf(),
            0 <= i < self.entries@.len(),
        ensures
            self@.contains_key(self.entries@[i].0),
            self@[self.entries@[i].0] == self.entries@[i].1@,
    {
        let s = self.entries@[i].0;
        assert(self.keys()[i] == s);
        let k = self.keys().index_of(s);
        assert(self.keys()[k] == s);
        lemma_symbol_order();
        let lt = symbol_order();
        if k < i {
            assert(lt(self.keys()[k], self.keys()[i]));
        } else if i < k {
            assert(lt(self.keys()[i], self.keys()[k]));
        }
    }

    /// The map without entries.
    pub fn new() -> (r: Self)
        ensures
            r.wf(),
            r@ == Map::<Symbol, V::V>::empty(),
    {
        let r: SymbolMap<V> = SymbolMap { entries: Vec::new() };
        assert(r@ =~= Map::<Symbol, V::V>::empty());
        r
    }

    /// The number of entries whose symbols are less than `symbol`.
    fn find(&self, symbol: Symbol) -> (i: usize)
        requires
            self.wf(),
        ensures
            i <= self.entries@.len(),
            forall|j: int| 0 <= j < i ==> symbol_less(#[trigger] self.entries@[j].0, symbol),
            i < self.entries@.len() ==> !symbol_less(self.entries@[i as int].0, symbol),
    {
        let ghost lt = symbol_order();
        proof {
            lemma_symbol_order();
        }
        let mut low: usize = 0;
        let mut high: usize = self.entries.len();
        while low < high
            invariant
                lt == symbol_order(),
                is_strict_order(lt),
                is_ascending(self.keys(), lt),
                low <= high <= self.entries@.len(),
                forall|j: int| 0 <= j < low ==> symbol_less(#[trigger] self.entries@[j].0, symbol),
                high < self.entries@.len() ==> !symbol_less(self.entries@[high as int].0, symbol),
            decreases high - low,
        {
            let mid: usize = low + (high - low) / 2;
            if self.entries[mid].0.is_less(&symbol) {
                assert forall|j: int| 0 <= j < mid + 1 implies symbol_less(
                    #[trigger] self.entries@[j].0,
                    symbol,
                ) by {
                    if j < mid {
                        assert(lt(self.keys()[j], self.keys()[mid as int]));
                    }
                }
                low = mid + 1;
            } else {
                high = mid;
            }
        }
        low
    }

    /// The value of a symbol.
    pub fn get(&self, symbol: Symbol) -> (r: Option<&V>)
        requires
            self.wf(),
        ensures
            match r {
                Some(value) => self@.contains_key(symbol) && value@ == self@[symbol],
                None => !self@.contains_key(symbol),
            },
    {
        let i: usize = self.find(symbol);
        if i < self.entries.len() && self.entries[i].0 == symbol {
            proof {
                self.lemma_entry(i as int);
            }
            Some(&self.entries[i].1)
        } else {
            proof {
                self.lemma_absent(i as int, symbol);
            }
            None
        }
    }

    proof fn lemma_absent(&self, i: int, symbol: Symbol)
        requires
            self.wf(),
            0 <= i <= self.entries@.len(),
            forall|j: int| 0 <= j < i ==> symbol_less(#[trigger] self.entries@[j].0, symbol),
            i < self.entries@.len() ==> symbol_less(symbol, self.entries@[i].0) || (!symbol_less(
                self.entries@[i].0,
                symbol,
            ) && self.entries@[i].0 != symbol),
        ensures
            !self@.contains_key(symbol),
            i < self.entries@.len() ==> symbol_less(symbol, self.entries@[i].0),
    {
        lemma_symbol_order();
        let lt = symbol_order();
        if i < self.entries@.len() {
            assert(lt(symbol, self.entries@[i].0) || symbol == self.entries@[i].0 || lt(
                self.entries@[i].0,
                symbol,
            ));
        }
        if self.keys().contains(symbol) {
            let k = self.keys().index_of(symbol);
            assert(self.keys()[k] == symbol);
            assert(self.entries@[k].0 == symbol);
            if k > i {
                assert(lt(self.keys()[i], self.keys()[k]));
            }
        }
    }

    /// Gives a symbol a value, in place of the one that it has, if any.
    pub fn insert(&mut self, symbol: Symbol, value: V)
        requires
            old(self).wf(),
        ensures
            final(self).wf(),
            final(self)@ == old(self)@.insert(symbol, value@),
    {
        let i: usize = self.find(symbol);
        let ghost before = *self;
        if i < self.entries.len() && self.entries[i].0 == symbol {
            self.entries.remove(i);
            self.entries.insert(i, (symbol, value));
            assert(self.keys() =~= before.keys());
            proof {
                lemma_same_entries(before, *self, i as int, symbol);
            }
        } else {
            proof {
                before.lemma_absent(i as int, symbol);
                lemma_symbol_order();
                let lt = symbol_order();
                assert forall|j: int| 0 <= j < i implies lt(#[trigger] before.keys()[j], symbol) by {
                    assert(symbol_less(before.entries@[j].0, symbol));
                }
                crate::order::lemma_insert_ascending(before.keys(), i as int, symbol, lt);
            }
            self.entries.insert(i, (symbol, value));
            assert(self.keys() =~= before.keys().insert(i as int, symbol));
            proof {
                lemma_new_entry(before, *self, i as int, symbol);
            }
        }
    }
}

proof fn lemma_same_entries<V: View>(before: SymbolMap<V>, after: SymbolMap<V>, i: int, symbol: Symbol)
    requires
        before.wf(),
        0 <= i < before.entries@.len(),
        before.entries@[i].0 == symbol,
        after.keys() == before.keys(),
        after.entries@.len() == before.entries@.len(),
        forall|j: int|
            0 <= j < before.entries@.len() && j != i ==> after.entries@[j] == before.entries@[j],
    ensures
        after.wf(),
        after@ == before@.insert(symbol, after.entries@[i].1@),
{
    assert forall|s: Symbol| before.keys().contains(s) && s != symbol implies #[trigger] after@[s]
        == before@[s] by {
        let k = before.keys().index_of(s);
        assert(before.keys()[k] == s);
    }
    after.lemma_entry(i);
    assert(before.keys()[i] == symbol);
    assert(after@ =~= before@.insert(symbol, after.entries@[i].1@));
}

proof fn lemma_new_entry<V: View>(before: SymbolMap<V>, after: SymbolMap<V>, i: int, symbol: Symbol)
    requires
        before.wf(),
        after.wf(),
        0 <= i <= before.entries@.len(),
        after.keys() == before.keys().insert(i, symbol),
        after.keys().to_set() == before.keys().to_set().insert(symbol),
        after.entries@.len() == before.entries@.len() + 1,
        after.entries@[i].0 == symbol,
        forall|j: int| 0 <= j < i ==> after.entries@[j] == before.entries@[j],
        forall|j: int| i <= j < before.entries@.len() ==> after.entries@[j + 1] == before.entries@[j],
    ensures
        after@ == before@.insert(symbol, after.entries@[i].1@),
{
    assert forall|s: Symbol| after@.contains_key(s) <==> before@.insert(
        symbol,
        after.entries@[i].1@,
    ).contains_key(s) by {
        assert(after.keys().contains(s) == after.keys().to_set().contains(s));
        assert(before.keys().contains(s) == before.keys().to_set().contains(s));
    }
    assert forall|s: Symbol| before.keys().contains(s) && s != symbol implies #[trigger] after@[s]
        == before@[s] by {
        let k = before.keys().index_of(s);
        assert(before.keys()[k] == s);
        let m = if k < i {
            k
        } else {
            k + 1
        };
        assert(after.entries@[m] == before.entries@[k]);
        after.lemma_entry(m);
    }
    after.lemma_entry(i);
    assert(after@ =~= before@.insert(symbol, after.entries@[i].1@));
}

/// The place of a kind in the order in which a token set lists its tokens.
pub open spec fn token_rank(kind: SymbolType) -> int {
    match kind {
        SymbolType::Terminal => 0,
        SymbolType::External => 1,
        SymbolType::End => 2,
        SymbolType::EndOfNonTerminalExtra => 3,
        SymbolType::NonTerminal => 4,
    }
}

/// A token set lists terminals first, then external tokens, then the two ends.
pub open spec fn token_less(a: Symbol, b: Symbol) -> bool {
    token_rank(a.kind) < token_rank(b.kind) || (a.kind == b.kind && a.index < b.index)
}

/// `token_less` as an order to sort by.
pub open spec fn token_order() -> spec_fn(Symbol, Symbol) -> bool {
    |a: Symbol, b: Symbol| token_less(a, b)
}

/// The order of tokens is a strict total order.
pub proof fn lemma_token_order()
    ensures
        is_strict_order(token_order()),
{
    let lt = token_order();
    assert forall|a: Symbol, b: Symbol| #[trigger] lt(a, b) || a == b || lt(b, a) by {
        if token_rank(a.kind) == token_rank(b.kind) {
            assert(a.kind == b.kind);
        }
    }
}

fn token_rank_number(kind: SymbolType) -> (r: u8)
    ensures
        r == token_rank(kind),
{
    match kind {
        SymbolType::Terminal => 0,
        SymbolType::External => 1,
        SymbolType::End => 2,
        SymbolType::EndOfNonTerminalExtra => 3,
        SymbolType::NonTerminal => 4,
    }
}

/// A set of tokens, as the list of its members.
#[derive(Debug, PartialEq, Eq)]
pub struct TokenSet {
    pub tokens: Vec<Symbol>,
}

impl View for TokenSet {
    type V = Seq<Symbol>;

    open spec fn view(&self) -> Seq<Symbol> {
        self.tokens@
    }
}

impl TokenSet {
    /// The tokens are in the order of tokens, so that equal sets are equal lists.
    pub open spec fn wf(&self) -> bool {
        is_ascending(self.tokens@, token_order())
    }

    /// The set without tokens.
    pub fn new() -> (r: Self)
        ensures
            r.wf(),
            r@ == Seq::<Symbol>::empty(),
    {
        TokenSet { tokens: Vec::new() }
    }

    /// The number of tokens.
    pub fn len(&self) -> (n: usize)
        ensures
            n == self@.len(),
    {
        self.tokens.len()
    }

    /// Adds a token.
    pub fn insert(&mut self, token: Symbol)
        requires
            old(self).wf(),
            !token.is_non_terminal(),
        ensures
            final(self).wf(),
            final(self)@.to_set() == old(self)@.to_set().insert(token),
    {
        let ghost q = self.tokens@;
        let ghost lt = token_order();
        proof {
            lemma_token_order();
        }
        let rank: u8 = token_rank_number(token.kind);
        let mut i: usize = 0;
        while i < self.tokens.len() && (token_rank_number(self.tokens[i].kind) < rank || (
        self.tokens[i].kind == token.kind && self.tokens[i].index < token.index))
            invariant
                i <= q.len(),
                self.tokens@ == q,
                lt == token_order(),
                rank == token_rank(token.kind),
                forall|j: int| 0 <= j < i ==> lt(#[trigger] q[j], token),
            decreases q.len() - i,
        {
            i += 1;
        }
        if i < self.tokens.len() && self.tokens[i] == token {
            assert(q[i as int] == token);
            assert(q.to_set().insert(token) =~= q.to_set());
        } else {
            proof {
                if i < q.len() {
                    assert(lt(q[i as int], token) || q[i as int] == token || lt(token, q[i as int]));
                }
                crate::order::lemma_insert_ascending(q, i as int, token, lt);
            }
            self.tokens.insert(i, token);
        }
    }

    /// The two sets list the same tokens.
    pub fn equals(&self, other: &TokenSet) -> (r: bool)
        ensures
            r == (self@ == other@),
    {
        if self.tokens.len() != other.tokens.len() {
            return false;
        }
        let mut i: usize = 0;
        while i < self.tokens.len()
            invariant
                i <= self@.len(),
                self@.len() == other@.len(),
                self@.take(i as int) == other@.take(i as int),
            decreases self@.len() - i,
        {
            if self.tokens[i] != other.tokens[i] {
                assert(self@[i as int] != other@[i as int]);
                return false;
            }
            i += 1;
            assert(self@.take(i as int) =~= self@.take(i - 1).push(self@[i - 1]));
            assert(other@.take(i as int) =~= other@.take(i - 1).push(other@[i - 1]));
        }
        assert(self@.take(i as int) =~= self@);
        assert(other@.take(i as int) =~= other@);
        true
    }
}

impl Clone for TokenSet {
    fn clone(&self) -> (r: Self)
        ensures
            r@ == self@,
    {
        let mut tokens: Vec<Symbol> = Vec::new();
        let mut i: usize = 0;
        while i < self.tokens.len()
            invariant
                i <= self.tokens@.len(),
                tokens@ == self.tokens@.take(i as int),
            decreases self.tokens@.len() - i,
        {
            tokens.push(self.tokens[i]);
            i += 1;
            assert(tokens@ =~= self.tokens@.take(i as int));
        }
        assert(self.tokens@.take(i as int) =~= self.tokens@);
        TokenSet { tokens }
    }
}

/// The default aliases of symbols.
pub type AliasMap = SymbolMap<Alias>;

} // verus!
