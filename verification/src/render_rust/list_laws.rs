//! What the sorted lists of every rendered parser hold.
use vstd::prelude::*;

use crate::node_types::ChildType;
use crate::order::{is_ascending, lemma_ascending_exists, lemma_text_order, text_order};
use crate::render_rust::input::ParserInput;
use crate::rules::{
    alias_order, lemma_alias_order, lemma_symbol_order, symbol_order, AliasView, Symbol,
};
use crate::tables::FieldLocation;

verus! {

impl ParserInput {
    /// The names of the fields are in ascending order, and are those that productions have.
    pub proof fn field_names_are_sorted(&self, name: Seq<char>)
        ensures
            is_ascending(self.field_names(), text_order()),
            self.field_names().contains(name) == exists|i: int, j: int|
                self.has_field_at(i, j, name),
    {
        let all = Set::new(|name: Seq<char>| exists|i: int, j: int| self.has_field_at(i, j, name));
        let list = self.field_list(self.infos().len());
        broadcast use vstd::seq_lib::seq_to_set_is_finite;

        assert forall|x: Seq<char>| all.contains(x) implies list.to_set().contains(x) by {
            let (i, j) = choose|i: int, j: int| self.has_field_at(i, j, x);
            self.lemma_field_list(self.infos().len(), i, j);
        }
        vstd::set_lib::lemma_set_subset_finite(list.to_set(), all);
        lemma_text_order();
        lemma_ascending_exists(all, text_order());
        assert(self.field_names().to_set().contains(name) == self.field_names().contains(name));
    }

    /// The names of the fields of the first `n` productions, as they come.
    spec fn field_list(&self, n: nat) -> Seq<Seq<char>>
        decreases n,
    {
        if n == 0 {
            Seq::empty()
        } else {
            self.field_list((n - 1) as nat) + self.infos()[n - 1].field_map@.map_values(
                |field: (String, Vec<FieldLocation>)| field.0@,
            )
        }
    }

    proof fn lemma_field_list(&self, n: nat, i: int, j: int)
        requires
            0 <= i < n <= self.infos().len(),
            0 <= j < self.infos()[i].field_map@.len(),
        ensures
            self.field_list(n).contains(self.infos()[i].field_map@[j].0@),
        decreases n,
    {
        let name = self.infos()[i].field_map@[j].0@;
        let before = self.field_list((n - 1) as nat);
        if i < n - 1 {
            self.lemma_field_list((n - 1) as nat, i, j);
            assert(self.field_list(n)[before.index_of(name)] == name);
        } else {
            assert(self.field_list(n)[before.len() + j] == name);
        }
    }

    /// The aliases that no symbol is shown as are in ascending order, and are all there are.
    pub proof fn unique_aliases_are_sorted(&self, alias: AliasView)
        ensures
            is_ascending(self.unique_aliases(), alias_order()),
            self.unique_aliases().contains(alias) == (self.aliases().contains(alias)
                && self.symbols_with_alias(alias).len() == 0),
    {
        let all = Set::new(
            |alias: AliasView|
                self.aliases().contains(alias) && self.symbols_with_alias(alias).len() == 0,
        );
        let list = self.alias_list(self.infos().len());
        broadcast use vstd::seq_lib::seq_to_set_is_finite;

        assert forall|x: AliasView| all.contains(x) implies list.to_set().contains(Some(x)) by {
            let (i, j) = choose|i: int, j: int| self.has_alias_at(i, j, x);
            self.lemma_alias_list(self.infos().len(), i, j, x);
        }
        let mapped = list.map_values(
            |alias: Option<AliasView>|
                match alias {
                    Some(alias) => alias,
                    None => arbitrary(),
                },
        );
        assert forall|x: AliasView| all.contains(x) implies mapped.to_set().contains(x) by {
            let k = list.index_of(Some(x));
            assert(list.to_set().contains(Some(x)));
            assert(mapped[k] == x);
        }
        vstd::set_lib::lemma_set_subset_finite(mapped.to_set(), all);
        lemma_alias_order();
        lemma_ascending_exists(all, alias_order());
        assert(self.unique_aliases().to_set().contains(alias) == self.unique_aliases().contains(
            alias,
        ));
    }

    /// The aliases of the first `n` productions, as they come.
    spec fn alias_list(&self, n: nat) -> Seq<Option<AliasView>>
        decreases n,
    {
        if n == 0 {
            Seq::empty()
        } else {
            self.alias_list((n - 1) as nat) + self.infos()[n - 1].alias_sequence@.map_values(
                |alias: Option<crate::rules::Alias>|
                    match alias {
                        Some(alias) => Some(alias@),
                        None => None,
                    },
            )
        }
    }

    proof fn lemma_alias_list(&self, n: nat, i: int, j: int, alias: AliasView)
        requires
            0 <= i < n <= self.infos().len(),
            self.has_alias_at(i, j, alias),
        ensures
            self.alias_list(n).contains(Some(alias)),
        decreases n,
    {
        let before = self.alias_list((n - 1) as nat);
        if i < n - 1 {
            self.lemma_alias_list((n - 1) as nat, i, j, alias);
            assert(self.alias_list(n)[before.index_of(Some(alias))] == Some(alias));
        } else {
            assert(self.alias_list(n)[before.len() + j] == Some(alias));
        }
    }

    /// The identifiers of the supertypes are in ascending order, and are all there are.
    pub proof fn supertype_ids_are_sorted(&self, id: Seq<char>)
        ensures
            is_ascending(self.supertype_ids(), text_order()),
            self.supertype_ids().contains(id) == exists|s: Symbol| self.is_supertype_with_id(id, s),
    {
        let all = Set::new(|id: Seq<char>| exists|s: Symbol| self.is_supertype_with_id(id, s));
        let list = self.supertype_symbol_map.keys().map_values(|s: Symbol| self.id(s));
        broadcast use vstd::seq_lib::seq_to_set_is_finite;

        assert forall|x: Seq<char>| all.contains(x) implies list.to_set().contains(x) by {
            let s = choose|s: Symbol| self.is_supertype_with_id(x, s);
            let k = self.supertype_symbol_map.keys().index_of(s);
            assert(list[k] == x);
        }
        vstd::set_lib::lemma_set_subset_finite(list.to_set(), all);
        lemma_text_order();
        lemma_ascending_exists(all, text_order());
        assert(self.supertype_ids().to_set().contains(id) == self.supertype_ids().contains(id));
    }

    /// The identifiers of the subtypes of a supertype are in ascending order, and are all there
    /// are.
    pub proof fn subtype_ids_are_sorted(&self, id: Seq<char>, subtype_id: Seq<char>)
        requires
            self.symbols().contains(Symbol::end()),
        ensures
            is_ascending(self.subtype_ids(id), text_order()),
            self.subtype_ids(id).contains(subtype_id) == exists|k: int|
                0 <= k < self.supertype_symbol_map@[self.supertype(id)].len()
                    && self.is_id_of_subtype(
                    #[trigger] self.supertype_symbol_map@[self.supertype(id)][k],
                    subtype_id,
                ),
    {
        let subtypes = self.supertype_symbol_map@[self.supertype(id)];
        let all = Set::new(
            |subtype_id: Seq<char>|
                exists|k: int|
                    0 <= k < subtypes.len() && self.is_id_of_subtype(
                        #[trigger] subtypes[k],
                        subtype_id,
                    ),
        );
        let of_symbols = self.symbols().push(Symbol::end_of_nonterminal_extra()).map_values(
            |s: Symbol| self.id(s),
        );
        let of_aliases = subtypes.map_values(
            |subtype: ChildType|
                match subtype {
                    ChildType::Aliased(alias) => self.alias_id(alias@),
                    ChildType::Normal(symbol) => self.id(symbol),
                },
        );
        broadcast use vstd::seq_lib::seq_to_set_is_finite;

        self.lemma_symbol_ids();
        let list = of_symbols + of_aliases;
        assert forall|x: Seq<char>| all.contains(x) implies list.to_set().contains(x) by {
            let k = choose|k: int|
                0 <= k < subtypes.len() && self.is_id_of_subtype(#[trigger] subtypes[k], x);
            match subtypes[k] {
                ChildType::Normal(symbol) => {
                    assert(list[of_symbols.len() + k] == x);
                },
                ChildType::Aliased(alias) => {
                    if self.aliases().contains(alias@) {
                        assert(list[of_symbols.len() + k] == x);
                    } else {
                        let shown = self.symbols_with_alias(alias@);
                        let m = choose|m: int|
                            0 <= m < shown.len() && self.id(#[trigger] shown[m]) == x;
                        self.symbols().lemma_filter_contains_rev(
                            self.is_aliased_as(alias@),
                            shown[m],
                        );
                        let p = self.symbols().index_of(shown[m]);
                        assert(list[p] == x);
                    }
                },
            }
        }
        vstd::set_lib::lemma_set_subset_finite(list.to_set(), all);
        lemma_text_order();
        lemma_ascending_exists(all, text_order());
        assert(self.subtype_ids(id).to_set().contains(subtype_id) == self.subtype_ids(id).contains(
            subtype_id,
        ));
    }

    /// The aliased non-terminals and the aliases of each are in ascending order, and are all that
    /// the steps of the grammar have.
    pub proof fn alias_map_is_sorted(&self, symbol: Symbol, id: Seq<char>)
        ensures
            is_ascending(self.aliased_symbols(), symbol_order()),
            is_ascending(self.alias_ids_of(symbol), text_order()),
            self.aliased_steps().contains((symbol, id)) == (self.aliased_symbols().contains(symbol)
                && self.alias_ids_of(symbol).contains(id)),
    {
        let steps = self.aliased_steps();
        let symbols = Set::new(|s: Symbol| exists|x: Seq<char>| steps.contains((s, x)));
        let ids = Set::new(|x: Seq<char>| steps.contains((symbol, x)));
        let all_symbols = steps.map_values(|step: (Symbol, Seq<char>)| step.0);
        let all_ids = steps.map_values(|step: (Symbol, Seq<char>)| step.1);
        broadcast use vstd::seq_lib::seq_to_set_is_finite;

        assert forall|s: Symbol| symbols.contains(s) implies all_symbols.to_set().contains(s) by {
            let x = choose|x: Seq<char>| steps.contains((s, x));
            assert(all_symbols[steps.index_of((s, x))] == s);
        }
        assert forall|x: Seq<char>| ids.contains(x) implies all_ids.to_set().contains(x) by {
            assert(all_ids[steps.index_of((symbol, x))] == x);
        }
        vstd::set_lib::lemma_set_subset_finite(all_symbols.to_set(), symbols);
        vstd::set_lib::lemma_set_subset_finite(all_ids.to_set(), ids);
        lemma_symbol_order();
        lemma_text_order();
        lemma_ascending_exists(symbols, symbol_order());
        lemma_ascending_exists(ids, text_order());
        assert(self.aliased_symbols().to_set().contains(symbol) == self.aliased_symbols().contains(
            symbol,
        ));
        assert(self.alias_ids_of(symbol).to_set().contains(id) == self.alias_ids_of(
            symbol,
        ).contains(id));
    }
}

} // verus!
