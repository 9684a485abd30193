//! Which aliases a non-terminal can be shown as.
use vstd::prelude::*;

use crate::grammars::{Production, ProductionStep};
use crate::order::{
    ascending, insert_text, is_ascending, lemma_ascending_is, lemma_text_order, text_order,
};
use crate::render_rust::generator::RustGenerator;
use crate::render_rust::input::ParserInput;
use crate::rules::{insert_symbol, lemma_symbol_order, symbol_order, Symbol};
use crate::text::{concat2, concat3, concat4, count_text, decimal, line, lines_at, TextList};

verus! {

/// What a list of aliased non-terminals says.
pub open spec fn pair_views(pairs: Seq<(Symbol, String)>) -> Seq<(Symbol, Seq<char>)> {
    pairs.map_values(|pair: (Symbol, String)| (pair.0, pair.1@))
}

/// The lines for values: the first two on one line, and each of the others on its own.
pub open spec fn value_lines(values: Seq<Seq<char>>) -> Seq<Seq<char>> {
    seq![line(1, values[0] + ", "@ + values[1] + ","@)] + lines_at(
        2,
        values.skip(2).map_values(|value: Seq<char>| value + ","@),
    )
}

impl ParserInput {
    /// The non-terminal of a step with the identifier of its alias, if that is another than the
    /// default one, and both have identifiers.
    pub open spec fn step_alias(&self, step: ProductionStep) -> Option<
        (Symbol, Seq<char>),
    > {
        match step.alias {
            Some(alias) => {
                if step.symbol.is_non_terminal() && self.default_alias(step.symbol) != Some(alias@)
                    && self.symbol_ids().contains_key(step.symbol) && self.aliases().contains(
                    alias@,
                ) {
                    Some((step.symbol, self.alias_id(alias@)))
                } else {
                    None
                }
            },
            None => None,
        }
    }

    /// The aliased non-terminals of the first `n` steps.
    pub open spec fn step_aliases(
        &self,
        steps: Seq<ProductionStep>,
        n: nat,
    ) -> Seq<(Symbol, Seq<char>)>
        decreases n,
    {
        if n == 0 {
            Seq::empty()
        } else {
            let before = self.step_aliases(steps, (n - 1) as nat);
            match self.step_alias(steps[n - 1]) {
                Some(pair) => before.push(pair),
                None => before,
            }
        }
    }

    /// The aliased non-terminals of the first `n` productions of a variable.
    pub open spec fn production_aliases(
        &self,
        productions: Seq<Production>,
        n: nat,
    ) -> Seq<(Symbol, Seq<char>)>
        decreases n,
    {
        if n == 0 {
            Seq::empty()
        } else {
            let steps = productions[n - 1].steps@;
            self.production_aliases(productions, (n - 1) as nat) + self.step_aliases(
                steps,
                steps.len(),
            )
        }
    }

    /// The aliased non-terminals of the first `n` variables.
    pub open spec fn variable_aliases(&self, n: nat) -> Seq<(Symbol, Seq<char>)>
        decreases n,
    {
        if n == 0 {
            Seq::empty()
        } else {
            let productions = self.syntax_grammar.variables@[n - 1].productions@;
            self.variable_aliases((n - 1) as nat) + self.production_aliases(
                productions,
                productions.len(),
            )
        }
    }

    /// The non-terminals of the grammar that are aliased, each with an identifier of an alias.
    pub open spec fn aliased_steps(&self) -> Seq<(Symbol, Seq<char>)> {
        self.variable_aliases(self.syntax_grammar.variables@.len())
    }

    /// The non-terminals that are aliased.
    pub open spec fn aliased_symbols(&self) -> Seq<Symbol> {
        ascending(
            Set::new(
                |symbol: Symbol| exists|id: Seq<char>| self.aliased_steps().contains((symbol, id)),
            ),
            symbol_order(),
        )
    }

    /// The identifiers of the aliases of a non-terminal.
    pub open spec fn alias_ids_of(&self, symbol: Symbol) -> Seq<Seq<char>> {
        ascending(
            Set::new(|id: Seq<char>| self.aliased_steps().contains((symbol, id))),
            text_order(),
        )
    }

    /// The values for the aliases of a non-terminal: its identifier, the number of ways in which
    /// it is shown, the identifier as which it is shown without an alias, and its aliases.
    pub open spec fn aliased_symbol_values(&self, symbol: Symbol) -> Seq<Seq<char>> {
        let ids = self.alias_ids_of(symbol);
        seq![
            self.id(symbol),
            decimal(ids.len() + 1),
            self.id(self.symbol_map()[symbol]),
        ] + ids
    }

    /// The values for the aliases of the first `n` aliased non-terminals.
    pub open spec fn alias_map_values(&self, n: nat) -> Seq<Seq<char>>
        decreases n,
    {
        if n == 0 {
            Seq::empty()
        } else {
            self.alias_map_values((n - 1) as nat) + self.aliased_symbol_values(
                self.aliased_symbols()[n - 1],
            )
        }
    }

    /// The lines for the aliases of a non-terminal.
    pub open spec fn aliased_symbol_lines(&self, symbol: Symbol) -> Seq<Seq<char>> {
        value_lines(self.aliased_symbol_values(symbol))
    }

    /// The lines for the aliases of the first `n` aliased non-terminals.
    pub open spec fn aliased_symbols_lines(&self, n: nat) -> Seq<Seq<char>>
        decreases n,
    {
        if n == 0 {
            Seq::empty()
        } else {
            self.aliased_symbols_lines((n - 1) as nat) + self.aliased_symbol_lines(
                self.aliased_symbols()[n - 1],
            )
        }
    }

    /// The sum, over the first `n` aliased non-terminals, of three and the number of aliases.
    pub open spec fn alias_map_len(&self, n: nat) -> nat
        decreases n,
    {
        if n == 0 {
            0
        } else {
            self.alias_map_len((n - 1) as nat) + 3 + self.alias_ids_of(
                self.aliased_symbols()[n - 1],
            ).len()
        }
    }

    /// The aliases of the non-terminals.
    pub open spec fn non_terminal_alias_lines(&self) -> Seq<Seq<char>> {
        let n = self.aliased_symbols().len();
        seq![
            "static TS_NON_TERMINAL_ALIAS_MAP: [u16; "@ + decimal(1 + self.alias_map_len(n))
                + "] = ["@,
        ] + self.aliased_symbols_lines(n) + seq![line(1, "0,"@), "];"@, ""@]
    }
}

impl RustGenerator {
    /// The non-terminal of a step with the identifier of its alias.
    fn step_alias(&self, step: &ProductionStep) -> (r: Option<(Symbol, String)>)
        requires
            self.wf(),
        ensures
            match r {
                Some(pair) => self.input.step_alias(*step) == Some((pair.0, pair.1@)),
                None => self.input.step_alias(*step) is None,
            },
    {
        let symbol: Symbol = step.symbol;
        match &step.alias {
            Some(alias) => {
                if !symbol.is_non_terminal() {
                    return None;
                }
                let is_default: bool = match self.input.default_aliases.get(symbol) {
                    Some(default) => default.equals(alias),
                    None => false,
                };
                if is_default || self.symbol_ids.get(symbol).is_none() {
                    return None;
                }
                match self.alias_ids.get(alias) {
                    Some(id) => Some((symbol, id.clone())),
                    None => {
                        assert(!self.alias_ids@.contains_key(alias@));
                        None
                    },
                }
            },
            None => None,
        }
    }

    /// Adds the aliased non-terminals of a production.
    fn add_step_aliases(&self, production: &Production, pairs: &mut Vec<(Symbol, String)>)
        requires
            self.wf(),
        ensures
            pair_views(final(pairs)@) == pair_views(old(pairs)@) + self.input.step_aliases(
                production.steps@,
                production.steps@.len(),
            ),
    {
        let ghost start = pair_views(pairs@);
        let mut i: usize = 0;
        assert(pair_views(pairs@) =~= start + self.input.step_aliases(production.steps@, 0));
        while i < production.steps.len()
            invariant
                self.wf(),
                i <= production.steps@.len(),
                pair_views(pairs@) == start + self.input.step_aliases(production.steps@, i as nat),
            decreases production.steps@.len() - i,
        {
            let ghost before = pair_views(pairs@);
            match self.step_alias(&production.steps[i]) {
                Some(pair) => {
                    let ghost view = (pair.0, pair.1@);
                    pairs.push(pair);
                    assert(pair_views(pairs@) =~= before.push(view));
                },
                None => {},
            }
            i += 1;
            assert(pair_views(pairs@) =~= start + self.input.step_aliases(
                production.steps@,
                i as nat,
            ));
        }
    }

    /// The non-terminals of the grammar that are aliased.
    fn aliased_steps(&self) -> (pairs: Vec<(Symbol, String)>)
        requires
            self.wf(),
        ensures
            pair_views(pairs@) == self.input.aliased_steps(),
    {
        let mut pairs: Vec<(Symbol, String)> = Vec::new();
        let mut i: usize = 0;
        assert(pair_views(pairs@) =~= self.input.variable_aliases(0));
        while i < self.input.syntax_grammar.variables.len()
            invariant
                self.wf(),
                i <= self.input.syntax_grammar.variables@.len(),
                pair_views(pairs@) == self.input.variable_aliases(i as nat),
            decreases self.input.syntax_grammar.variables@.len() - i,
        {
            let productions: &Vec<Production> = &self.input.syntax_grammar.variables[i].productions;
            let ghost before = pair_views(pairs@);
            let mut j: usize = 0;
            assert(pair_views(pairs@) =~= before + self.input.production_aliases(
                productions@,
                0,
            ));
            while j < productions.len()
                invariant
                    self.wf(),
                    j <= productions@.len(),
                    pair_views(pairs@) == before + self.input.production_aliases(
                        productions@,
                        j as nat,
                    ),
                decreases productions@.len() - j,
            {
                self.add_step_aliases(&productions[j], &mut pairs);
                j += 1;
                assert(pair_views(pairs@) =~= before + self.input.production_aliases(
                    productions@,
                    j as nat,
                ));
            }
            i += 1;
        }
        pairs
    }

    /// The non-terminals of a list of aliased ones.
    fn symbols_of(&self, pairs: &Vec<(Symbol, String)>) -> (r: Vec<Symbol>)
        requires
            pair_views(pairs@) == self.input.aliased_steps(),
        ensures
            r@ == self.input.aliased_symbols(),
            forall|k: int| 0 <= k < r@.len() ==> is_pair_symbol(pair_views(pairs@), #[trigger] r@[k]),
    {
        let ghost views = pair_views(pairs@);
        let mut r: Vec<Symbol> = Vec::new();
        let mut i: usize = 0;
        while i < pairs.len()
            invariant
                views == pair_views(pairs@),
                i <= pairs@.len(),
                is_ascending(r@, symbol_order()),
                forall|s: Symbol| #[trigger]
                    r@.to_set().contains(s) == is_pair_symbol(views.take(i as int), s),
            decreases pairs@.len() - i,
        {
            let ghost before = r@.to_set();
            insert_symbol(&mut r, pairs[i].0);
            proof {
                let taken = views.take(i as int);
                assert(views.take(i + 1) =~= taken.push(views[i as int]));
                assert forall|s: Symbol| #[trigger] r@.to_set().contains(s) == is_pair_symbol(
                    views.take(i + 1),
                    s,
                ) by {
                    assert(before.contains(s) == is_pair_symbol(taken, s));
                    lemma_pair_push(taken, views[i as int]);
                }
            }
            i += 1;
        }
        proof {
            assert(views.take(i as int) =~= views);
            let all = Set::new(
                |symbol: Symbol|
                    exists|id: Seq<char>| self.input.aliased_steps().contains((symbol, id)),
            );
            assert forall|s: Symbol| r@.to_set().contains(s) == all.contains(s) by {
                if is_pair_symbol(views, s) {
                    let k = choose|k: int| 0 <= k < views.len() && (#[trigger] views[k]).0 == s;
                    assert(views.contains((s, views[k].1)));
                }
                if all.contains(s) {
                    let id = choose|id: Seq<char>| views.contains((s, id));
                    let k = views.index_of((s, id));
                    assert(views[k].0 == s);
                }
            }
            assert(r@.to_set() =~= all);
            lemma_symbol_order();
            lemma_ascending_is(r@, all, symbol_order());
            assert forall|k: int| 0 <= k < r@.len() implies is_pair_symbol(
                views,
                #[trigger] r@[k],
            ) by {
                assert(r@.to_set().contains(r@[k]));
            }
        }
        r
    }

    /// The identifiers of the aliases of a non-terminal.
    fn ids_of(&self, pairs: &Vec<(Symbol, String)>, symbol: Symbol) -> (r: TextList)
        requires
            pair_views(pairs@) == self.input.aliased_steps(),
        ensures
            r@ == self.input.alias_ids_of(symbol),
    {
        let ghost views = pair_views(pairs@);
        let mut r: TextList = TextList::new();
        let mut i: usize = 0;
        while i < pairs.len()
            invariant
                views == pair_views(pairs@),
                i <= pairs@.len(),
                is_ascending(r@, text_order()),
                forall|id: Seq<char>| #[trigger]
                    r@.to_set().contains(id) == views.take(i as int).contains((symbol, id)),
            decreases pairs@.len() - i,
        {
            let ghost before = r@.to_set();
            if pairs[i].0 == symbol {
                insert_text(&mut r, pairs[i].1.as_str());
            }
            proof {
                let taken = views.take(i as int);
                assert(views.take(i + 1) =~= taken.push(views[i as int]));
                assert forall|id: Seq<char>| #[trigger] r@.to_set().contains(id) == views.take(
                    i + 1,
                ).contains((symbol, id)) by {
                    assert(before.contains(id) == taken.contains((symbol, id)));
                    lemma_pair_push(taken, views[i as int]);
                }
            }
            i += 1;
        }
        proof {
            assert(views.take(i as int) =~= views);
            let all = Set::new(
                |id: Seq<char>| self.input.aliased_steps().contains((symbol, id)),
            );
            assert(r@.to_set() =~= all);
            lemma_text_order();
            lemma_ascending_is(r@, all, text_order());
        }
        r
    }

    /// Adds the aliases of the non-terminals.
    #[verifier::rlimit(40)]
    pub fn add_non_terminal_alias_map(&self, out: &mut TextList)
        requires
            self.wf(),
        ensures
            final(out)@ == old(out)@ + self.input.non_terminal_alias_lines(),
    {
        let ghost start = out@;
        let ghost input = self.input;
        let pairs: Vec<(Symbol, String)> = self.aliased_steps();
        let symbols: Vec<Symbol> = self.symbols_of(&pairs);
        let mut lines: TextList = TextList::new();
        let mut values: TextList = TextList::new();
        let mut i: usize = 0;
        while i < symbols.len()
            invariant
                self.wf(),
                input == self.input,
                pair_views(pairs@) == input.aliased_steps(),
                symbols@ == input.aliased_symbols(),
                forall|k: int|
                    0 <= k < symbols@.len() ==> is_pair_symbol(
                        pair_views(pairs@),
                        #[trigger] symbols@[k],
                    ),
                i <= symbols@.len(),
                lines@ == input.aliased_symbols_lines(i as nat),
                values@.len() == input.alias_map_len(i as nat),
            decreases symbols@.len() - i,
        {
            let symbol: Symbol = symbols[i];
            proof {
                assert(is_pair_symbol(pair_views(pairs@), symbols@[i as int]));
                input.lemma_aliased_steps(symbol);
            }
            let ids: TextList = self.ids_of(&pairs, symbol);
            let group: TextList = self.aliased_symbol_values(symbol, ids);
            add_value_lines(&group, &mut lines);
            values.append(group);
            i += 1;
        }
        lines.add_line(1, "0,");
        values.push("0".to_owned());
        let total: String = count_text(values.len());
        out.push(
            concat3("static TS_NON_TERMINAL_ALIAS_MAP: [u16; ", total.as_str(), "] = ["),
        );
        out.append(lines);
        out.push("];".to_owned());
        out.push("".to_owned());
        assert(out@ =~= start + input.non_terminal_alias_lines());
    }

    /// The values for the aliases of a non-terminal.
    fn aliased_symbol_values(&self, symbol: Symbol, ids: TextList) -> (values: TextList)
        requires
            self.wf(),
            self.input.symbols().contains(symbol),
            ids@ == self.input.alias_ids_of(symbol),
        ensures
            values@ == self.input.aliased_symbol_values(symbol),
    {
        let mut public: TextList = TextList::new();
        public.push(self.public_symbol_id(symbol).to_owned());
        public.append(ids);
        let mut values: TextList = TextList::new();
        values.push(self.symbol_id(symbol).to_owned());
        values.push(count_text(public.len()));
        values.append(public);
        assert(values@ =~= self.input.aliased_symbol_values(symbol));
        values
    }
}

/// Adds the lines for values.
fn add_value_lines(values: &TextList, lines: &mut TextList)
    requires
        values@.len() >= 2,
    ensures
        final(lines)@ == old(lines)@ + value_lines(values@),
{
    let ghost start = lines@;
    let ghost all = values@.skip(2).map_values(|value: Seq<char>| value + ","@);
    let mut rows: TextList = TextList::new();
    let mut k: usize = 2;
    assert(rows@ =~= all.take(0));
    while k < values.lines.len()
        invariant
            all == values@.skip(2).map_values(|value: Seq<char>| value + ","@),
            2 <= k <= values@.len(),
            rows@ == all.take(k - 2),
        decreases values@.len() - k,
    {
        let row: String = concat2(values.lines[k].as_str(), ",");
        assert(row@ == all[k - 2]);
        rows.push(row);
        k += 1;
        assert(rows@ =~= all.take(k - 2));
    }
    assert(all.take(k - 2) =~= all);
    let head: String = concat4(values.lines[0].as_str(), ", ", values.lines[1].as_str(), ",");
    lines.add_line(1, head.as_str());
    lines.add_lines_at(2, &rows);
    assert(lines@ =~= start + value_lines(values@));
}

/// The symbol is one of a list of aliased non-terminals.
pub open spec fn is_pair_symbol(pairs: Seq<(Symbol, Seq<char>)>, symbol: Symbol) -> bool {
    exists|k: int| 0 <= k < pairs.len() && (#[trigger] pairs[k]).0 == symbol
}

/// What one more aliased non-terminal adds.
proof fn lemma_pair_push(pairs: Seq<(Symbol, Seq<char>)>, pair: (Symbol, Seq<char>))
    ensures
        forall|s: Symbol| #[trigger]
            is_pair_symbol(pairs.push(pair), s) == (is_pair_symbol(pairs, s) || s == pair.0),
        forall|p: (Symbol, Seq<char>)| #[trigger]
            pairs.push(pair).contains(p) == (pairs.contains(p) || p == pair),
{
    let after = pairs.push(pair);
    assert forall|s: Symbol| #[trigger] is_pair_symbol(after, s) == (is_pair_symbol(pairs, s) || s
        == pair.0) by {
        if is_pair_symbol(pairs, s) {
            let k = choose|k: int| 0 <= k < pairs.len() && (#[trigger] pairs[k]).0 == s;
            assert(after[k].0 == s);
        }
        if s == pair.0 {
            assert(after[pairs.len() as int].0 == s);
        }
        if is_pair_symbol(after, s) && s != pair.0 {
            let k = choose|k: int| 0 <= k < after.len() && (#[trigger] after[k]).0 == s;
            assert(pairs[k].0 == s);
        }
    }
    assert forall|p: (Symbol, Seq<char>)| #[trigger] after.contains(p) == (pairs.contains(p) || p
        == pair) by {
        if pairs.contains(p) {
            assert(after[pairs.index_of(p)] == p);
        }
        if p == pair {
            assert(after[pairs.len() as int] == p);
        }
        if after.contains(p) && p != pair {
            assert(pairs[after.index_of(p)] == p);
        }
    }
}

impl ParserInput {
    /// The step's non-terminal is a symbol of the parser.
    proof fn lemma_step_alias(&self, step: ProductionStep)
        requires
            self.is_consistent(),
        ensures
            self.step_alias(step) matches Some(pair) ==> self.symbols().contains(pair.0),
    {
        self.lemma_symbol_ids();
    }

    /// All non-terminals of the list are symbols of the parser.
    spec fn are_symbols(&self, pairs: Seq<(Symbol, Seq<char>)>) -> bool {
        forall|k: int| 0 <= k < pairs.len() ==> self.symbols().contains((#[trigger] pairs[k]).0)
    }

    proof fn lemma_are_symbols_concat(
        &self,
        a: Seq<(Symbol, Seq<char>)>,
        b: Seq<(Symbol, Seq<char>)>,
    )
        requires
            self.are_symbols(a),
            self.are_symbols(b),
        ensures
            self.are_symbols(a + b),
    {
        assert forall|k: int| 0 <= k < (a + b).len() implies self.symbols().contains(
            (#[trigger] (a + b)[k]).0,
        ) by {
            if k < a.len() {
                assert((a + b)[k] == a[k]);
            } else {
                assert((a + b)[k] == b[k - a.len()]);
            }
        }
    }

    /// The aliased non-terminals are symbols of the parser.
    proof fn lemma_aliased_steps(&self, symbol: Symbol)
        requires
            self.is_consistent(),
            is_pair_symbol(self.aliased_steps(), symbol),
        ensures
            self.symbols().contains(symbol),
    {
        self.lemma_variable_aliases(self.syntax_grammar.variables@.len());
    }

    proof fn lemma_variable_aliases(&self, n: nat)
        requires
            self.is_consistent(),
        ensures
            self.are_symbols(self.variable_aliases(n)),
        decreases n,
    {
        if n > 0 {
            let productions = self.syntax_grammar.variables@[n - 1].productions@;
            self.lemma_variable_aliases((n - 1) as nat);
            self.lemma_production_aliases(productions, productions.len());
            self.lemma_are_symbols_concat(
                self.variable_aliases((n - 1) as nat),
                self.production_aliases(productions, productions.len()),
            );
        }
    }

    proof fn lemma_production_aliases(&self, productions: Seq<Production>, n: nat)
        requires
            self.is_consistent(),
        ensures
            self.are_symbols(self.production_aliases(productions, n)),
        decreases n,
    {
        if n > 0 {
            let steps = productions[n - 1].steps@;
            self.lemma_production_aliases(productions, (n - 1) as nat);
            self.lemma_step_aliases(steps, steps.len());
            self.lemma_are_symbols_concat(
                self.production_aliases(productions, (n - 1) as nat),
                self.step_aliases(steps, steps.len()),
            );
        }
    }

    proof fn lemma_step_aliases(&self, steps: Seq<ProductionStep>, n: nat)
        requires
            self.is_consistent(),
        ensures
            self.are_symbols(self.step_aliases(steps, n)),
        decreases n,
    {
        if n > 0 {
            self.lemma_step_aliases(steps, (n - 1) as nat);
            self.lemma_step_alias(steps[n - 1]);
        }
    }
}

} // verus!
