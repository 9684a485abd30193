//! What every rendered parser says of its supertypes.
use vstd::prelude::*;

use crate::node_types::ChildType;
use crate::order::{is_first, lemma_first_index, lemma_text_order, text_order};
use crate::render_rust::input::ParserInput;
use crate::render_rust::parser_laws::some_first;
use crate::rules::Symbol;

verus! {

impl ParserInput {
    /// The subtypes of a supertype are found where its slice says.
    pub proof fn supertype_slice_is_found(&self, n: nat, i: int)
        requires
            0 <= i < n <= self.supertype_ids().len(),
        ensures
            ({
                let start = self.subtype_ids_upto(i as nat).len() as int;
                let ids = self.subtype_ids(self.supertype_ids()[i]);
                &&& start + ids.len() <= self.subtype_ids_upto(n).len()
                &&& self.subtype_ids_upto(n).subrange(start, start + ids.len()) == ids
            }),
        decreases n,
    {
        let start = self.subtype_ids_upto(i as nat).len() as int;
        let ids = self.subtype_ids(self.supertype_ids()[i]);
        let after = self.subtype_ids_upto(n);
        let before = self.subtype_ids_upto((n - 1) as nat);
        if i == n - 1 {
            assert(after.subrange(start, start + ids.len()) =~= ids);
        } else {
            self.supertype_slice_is_found((n - 1) as nat, i);
            assert(after.subrange(start, start + ids.len()) =~= before.subrange(
                start,
                start + ids.len(),
            ));
        }
    }

    /// The slice of a supertype stands at the number of its symbol, within the rows.
    pub proof fn supertype_slice_stands_at_its_number(&self, i: int)
        requires
            self.is_consistent(),
            0 <= i < self.supertype_ids().len(),
        ensures
            ({
                let number = self.table_number(self.supertype(self.supertype_ids()[i])) as int;
                &&& number < self.shown_count()
                &&& self.supertype_slice_row(number) == self.supertype_slice(i)
            }),
    {
        let ids = self.supertype_ids();
        let symbol = self.supertype(ids[i]);
        let number = self.table_number(symbol) as int;
        let pred = self.is_supertype_numbered(number);
        self.symbol_numbers_differ(self.symbols().len());
        assert(self.symbols().len() > 0);
        assert(pred(ids[i]));
        assert forall|j: int| 0 <= j < i implies !pred(#[trigger] ids[j]) by {
            if pred(ids[j]) {
                self.supertype_numbers_differ(i, j);
            }
        }
        assert(is_first(ids, pred, i));
        lemma_first_index(ids, pred, i);
    }

    /// Different supertypes have different numbers.
    pub proof fn supertype_numbers_differ(&self, i: int, j: int)
        requires
            self.is_consistent(),
            0 <= i < self.supertype_ids().len(),
            0 <= j < self.supertype_ids().len(),
            i != j,
        ensures
            self.table_number(self.supertype(self.supertype_ids()[i])) != self.table_number(
                self.supertype(self.supertype_ids()[j]),
            ),
    {
        let ids = self.supertype_ids();
        let a = self.supertype(ids[i]);
        let b = self.supertype(ids[j]);
        self.lemma_supertype(i);
        self.lemma_supertype(j);
        self.supertype_ids_are_sorted(ids[i]);
        if i < j {
            assert((text_order())(ids[i], ids[j]));
        } else {
            assert((text_order())(ids[j], ids[i]));
        }
        lemma_text_order();
        assert(ids[i] != ids[j]);
        self.end_is_imported(Seq::empty());
        self.lemma_numbered_or_extra(a);
        self.lemma_numbered_or_extra(b);
        self.symbol_numbers_differ(self.symbols().len());
        let extra = Symbol::end_of_nonterminal_extra();
        self.lemma_unnumbered(self.symbols().len(), extra);
        assert(self.symbol_numbers().contains_key(Symbol::end()));
        if a == extra {
            assert(b != extra && b != Symbol::end());
        } else if b == extra {
            assert(a != Symbol::end());
        }
    }

    /// The supertype with an identifier has that identifier.
    proof fn lemma_supertype(&self, i: int)
        requires
            self.is_consistent(),
            0 <= i < self.supertype_ids().len(),
        ensures
            self.id(self.supertype(self.supertype_ids()[i])) == self.supertype_ids()[i],
            self.has_identifier(self.supertype(self.supertype_ids()[i])),
    {
        let id = self.supertype_ids()[i];
        let entries = self.supertype_symbol_map.entries@;
        self.supertype_ids_are_sorted(id);
        assert(self.supertype_ids().contains(id));
        let s = choose|s: Symbol| self.is_supertype_with_id(id, s);
        let keys = self.supertype_symbol_map.keys();
        let place = keys.index_of(s);
        assert(keys[place] == s);
        let pred = |entry: (Symbol, Vec<ChildType>)| self.is_supertype_with_id(id, entry.0);
        assert(pred(entries[place]));
        let k = some_first(entries, pred, place);
        assert(self.is_first_supertype(k, id)) by {
            assert forall|j: int| 0 <= j < k implies !self.is_supertype_with_id(
                id,
                #[trigger] entries[j].0,
            ) by {
                assert(!pred(entries[j]));
            }
        }
        self.lemma_first_supertype(k, id);
        self.lemma_symbol_ids();
    }

    /// A symbol with an identifier has a number, or is the end of a non-terminal extra.
    proof fn lemma_numbered_or_extra(&self, symbol: Symbol)
        requires
            self.has_identifier(symbol),
        ensures
            self.symbol_numbers().contains_key(symbol) || symbol
                == Symbol::end_of_nonterminal_extra(),
    {
        if self.symbols().contains(symbol) {
            self.lemma_numbered(self.symbols().len(), self.symbols().index_of(symbol));
        }
    }

    proof fn lemma_numbered(&self, n: nat, i: int)
        requires
            0 <= i < n <= self.symbols().len(),
        ensures
            self.symbol_numbers_upto(n).contains_key(self.symbols()[i]),
        decreases n,
    {
        self.lemma_end(n);
        self.lemma_end((n - 1) as nat);
        if i < n - 1 {
            self.lemma_numbered((n - 1) as nat, i);
        }
    }
}

} // verus!
