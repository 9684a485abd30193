//! Which supertypes a rendered parser has, and which subtypes of each.
use vstd::prelude::*;

use crate::node_types::ChildType;
use crate::render_rust::input::ParserInput;
use crate::rules::Symbol;
use crate::text::{array_lines, decimal};
use crate::text_laws::{has_array, has_block, lemma_array, lemma_peel};

verus! {

/// The rows of an array of symbols.
pub open spec fn symbol_rows(ids: Seq<Seq<char>>) -> Seq<Seq<char>> {
    ids.map_values(|id: Seq<char>| id + ","@)
}

impl ParserInput {
    /// The symbol at place `k` of the given supertypes.
    pub open spec fn given_supertype(&self, k: int) -> Symbol {
        self.supertype_symbol_map.entries@[k].0
    }

    /// The symbol has an identifier, and no given supertype before place `k` has the same.
    pub open spec fn is_new_supertype(&self, k: int) -> bool {
        &&& 0 <= k < self.supertype_symbol_map.entries@.len()
        &&& self.has_identifier(self.given_supertype(k))
        &&& forall|j: int|
            0 <= j < k && self.has_identifier(#[trigger] self.given_supertype(j)) ==> self.id(
                self.given_supertype(j),
            ) != self.id(self.given_supertype(k))
    }

    /// From version 15 of the binary interface on, the supertypes are those that are given and have
    /// identifiers; before it, there are none.
    pub proof fn supertypes_are_those_given(&self, id: Seq<char>)
        requires
            self.is_consistent(),
        ensures
            self.abi_version < 15 ==> self.supertype_ids().len() == 0,
            self.abi_version >= 15 ==> (self.supertype_ids().contains(id) <==> exists|k: int|
                0 <= k < self.supertype_symbol_map.entries@.len() && self.has_identifier(
                    #[trigger] self.given_supertype(k),
                ) && self.id(self.given_supertype(k)) == id),
    {
        let map = self.supertype_symbol_map;
        self.lemma_symbol_ids();
        self.supertype_ids_are_sorted(id);
        if self.abi_version < 15 && self.supertype_ids().len() > 0 {
            let first = self.supertype_ids()[0];
            self.supertype_ids_are_sorted(first);
            assert(self.supertype_ids().contains(first));
        }
        if self.abi_version >= 15 {
            if self.supertype_ids().contains(id) {
                let s = choose|s: Symbol| self.is_supertype_with_id(id, s);
                let k = map.keys().index_of(s);
                assert(map.keys()[k] == s);
                assert(self.given_supertype(k) == s);
            }
            if exists|k: int|
                0 <= k < map.entries@.len() && self.has_identifier(
                    #[trigger] self.given_supertype(k),
                ) && self.id(self.given_supertype(k)) == id {
                let k = choose|k: int|
                    0 <= k < map.entries@.len() && self.has_identifier(
                        #[trigger] self.given_supertype(k),
                    ) && self.id(self.given_supertype(k)) == id;
                map.lemma_entry(k);
                assert(self.is_supertype_with_id(id, self.given_supertype(k)));
            }
        }
    }

    /// The supertype with an identifier is the first that is given with it.
    pub proof fn first_supertype_counts(&self, k: int)
        requires
            self.is_consistent(),
            self.abi_version >= 15,
            self.is_new_supertype(k),
        ensures
            self.supertype(self.id(self.given_supertype(k))) == self.given_supertype(k),
            self.supertype_ids().contains(self.id(self.given_supertype(k))),
    {
        let id = self.id(self.given_supertype(k));
        self.lemma_symbol_ids();
        self.supertype_symbol_map.lemma_entry(k);
        self.supertypes_are_those_given(id);
        assert(self.is_supertype_with_id(id, self.given_supertype(k)));
        assert forall|j: int| 0 <= j < k implies !self.is_supertype_with_id(
            id,
            #[trigger] self.supertype_symbol_map.entries@[j].0,
        ) by {
            assert(self.has_identifier(self.given_supertype(j)) ==> self.id(
                self.given_supertype(j),
            ) != id);
        }
        self.lemma_first_supertype(k, id);
    }

    /// The subtype contributes the identifier: a symbol its own, an alias of a production its own,
    /// and another alias that of each symbol which is shown so.
    pub open spec fn contributes(&self, subtype: ChildType, id: Seq<char>) -> bool {
        match subtype {
            ChildType::Normal(symbol) => self.has_identifier(symbol) && self.id(symbol) == id,
            ChildType::Aliased(alias) => if self.is_in_production(alias@) {
                self.alias_id(alias@) == id
            } else {
                exists|i: int| #[trigger]
                    self.shows(i, alias@) && self.id(self.parse_table.symbols@[i]) == id
            },
        }
    }

    /// A supertype has the identifiers that its subtypes contribute, and no others.
    pub proof fn subtypes_are_those_given(&self, k: int, id: Seq<char>)
        requires
            self.is_consistent(),
            self.abi_version >= 15,
            self.is_new_supertype(k),
        ensures
            self.subtype_ids(self.id(self.given_supertype(k))).contains(id) <==> exists|m: int|
                0 <= m < self.supertype_symbol_map.entries@[k].1@.len() && self.contributes(
                    #[trigger] self.supertype_symbol_map.entries@[k].1@[m],
                    id,
                ),
    {
        let supertype = self.id(self.given_supertype(k));
        let subtypes = self.supertype_symbol_map.entries@[k].1@;
        self.first_supertype_counts(k);
        self.supertype_symbol_map.lemma_entry(k);
        self.lemma_symbol_ids();
        self.subtype_ids_are_sorted(supertype, id);
        assert(self.supertype_symbol_map@[self.supertype(supertype)] == subtypes);
        assert forall|m: int| 0 <= m < subtypes.len() implies self.is_id_of_subtype(
            #[trigger] subtypes[m],
            id,
        ) == self.contributes(subtypes[m], id) by {
            self.lemma_contributes(subtypes[m], id);
        }
    }

    proof fn lemma_contributes(&self, subtype: ChildType, id: Seq<char>)
        requires
            self.is_consistent(),
        ensures
            self.is_id_of_subtype(subtype, id) == self.contributes(subtype, id),
    {
        self.lemma_symbol_ids();
        if let ChildType::Aliased(alias) = subtype {
            let shown = self.symbols_with_alias(alias@);
            let pred = self.is_aliased_as(alias@);
            self.aliases_are_those_of_productions(alias@);
            if !self.is_in_production(alias@) {
                if self.is_id_of_subtype(subtype, id) {
                    let m = choose|m: int|
                        0 <= m < shown.len() && self.id(#[trigger] shown[m]) == id;
                    self.symbols().lemma_filter_contains_rev(pred, shown[m]);
                    let i = self.symbols().index_of(shown[m]);
                    assert(pred(self.symbols()[i])) by {
                        reveal(Seq::filter);
                        self.symbols().lemma_filter_pred(pred, m);
                    }
                    assert(self.shows(i, alias@));
                }
                if self.contributes(subtype, id) {
                    let i = choose|i: int| #[trigger]
                        self.shows(i, alias@) && self.id(self.parse_table.symbols@[i]) == id;
                    assert(pred(self.symbols()[i]));
                    self.symbols().lemma_filter_contains(pred, i);
                    let m = shown.index_of(self.symbols()[i]);
                    assert(self.id(shown[m]) == id);
                }
            }
        }
    }

    /// The arrays of supertypes: the supertypes, a slice for each symbol or alias, and the subtypes.
    pub proof fn supertype_arrays_are_rendered(&self, name: Seq<char>)
        requires
            self.abi_version >= 15,
            self.supertype_ids().len() > 0,
        ensures
            has_array(
                self.parser_lines(name),
                "static TS_SUPERTYPE_SYMBOLS: [Symbol; SUPERTYPE_COUNT] = ["@,
                symbol_rows(self.supertype_ids()),
            ),
            has_array(
                self.parser_lines(name),
                "static TS_SUPERTYPE_MAP_SLICES: [MapSlice; "@ + decimal(
                    self.parse_table.symbols@.len() + self.unique_aliases().len(),
                ) + "] = ["@,
                self.supertype_slice_rows(),
            ),
            self.all_subtype_ids().len() > 0 ==> has_array(
                self.parser_lines(name),
                "static TS_SUPERTYPE_MAP_ENTRIES: [Symbol; "@ + decimal(
                    self.all_subtype_ids().len(),
                ) + "] = ["@,
                symbol_rows(self.all_subtype_ids()),
            ),
            self.all_subtype_ids().len() == 0 ==> has_array(
                self.parser_lines(name),
                "static TS_SUPERTYPE_MAP_ENTRIES: [Symbol; "@ + decimal(1) + "] = ["@,
                seq!["0,"@],
            ),
    {
        self.further_sections_are_rendered(name);
        self.lemma_supertype_arrays(self.parser_lines(name));
    }

    /// The rows of the slices: as many as there are symbols and aliases.
    pub open spec fn supertype_slice_rows(&self) -> Seq<Seq<char>> {
        Seq::new(
            self.parse_table.symbols@.len() + self.unique_aliases().len(),
            |number: int| self.supertype_slice_row(number),
        )
    }

    proof fn lemma_supertype_arrays(&self, all: Seq<Seq<char>>)
        requires
            has_block(all, self.supertype_lines()),
        ensures
            has_array(
                all,
                "static TS_SUPERTYPE_SYMBOLS: [Symbol; SUPERTYPE_COUNT] = ["@,
                symbol_rows(self.supertype_ids()),
            ),
            has_array(
                all,
                "static TS_SUPERTYPE_MAP_SLICES: [MapSlice; "@ + decimal(self.shown_count())
                    + "] = ["@,
                self.supertype_slice_rows(),
            ),
            self.all_subtype_ids().len() > 0 ==> has_array(
                all,
                "static TS_SUPERTYPE_MAP_ENTRIES: [Symbol; "@ + decimal(
                    self.all_subtype_ids().len(),
                ) + "] = ["@,
                symbol_rows(self.all_subtype_ids()),
            ),
            self.all_subtype_ids().len() == 0 ==> has_array(
                all,
                "static TS_SUPERTYPE_MAP_ENTRIES: [Symbol; "@ + decimal(1) + "] = ["@,
                seq!["0,"@],
            ),
    {
        let entries = self.all_subtype_ids();
        let head_a = "static TS_SUPERTYPE_SYMBOLS: [Symbol; SUPERTYPE_COUNT] = ["@;
        let rows_a = self.supertype_ids().map_values(|id: Seq<char>| id + ","@);
        let head_b = "static TS_SUPERTYPE_MAP_SLICES: [MapSlice; "@ + decimal(self.shown_count())
            + "] = ["@;
        let rows_b = Seq::new(self.shown_count(), |number: int| self.supertype_slice_row(number));
        let head_c = "static TS_SUPERTYPE_MAP_ENTRIES: [Symbol; "@ + decimal(
            if entries.len() == 0 {
                1
            } else {
                entries.len()
            },
        ) + "] = ["@;
        let rows_c = if entries.len() == 0 {
            seq!["0,"@]
        } else {
            entries.map_values(|id: Seq<char>| id + ","@)
        };
        lemma_peel(
            all,
            array_lines(head_a, rows_a) + array_lines(head_b, rows_b),
            array_lines(head_c, rows_c),
        );
        lemma_peel(all, array_lines(head_a, rows_a), array_lines(head_b, rows_b));
        lemma_array(all, head_a, rows_a);
        lemma_array(all, head_b, rows_b);
        lemma_array(all, head_c, rows_c);
        assert(rows_a =~= symbol_rows(self.supertype_ids()));
        assert(rows_b =~= self.supertype_slice_rows());
        if entries.len() > 0 {
            assert(rows_c =~= symbol_rows(entries));
        }
    }

    /// At the number of a supertype stands where its subtypes are found: so many of them, behind
    /// those of the supertypes before it. At any other number stands an empty slice.
    pub proof fn supertype_slices_are_listed(&self, i: int, number: int)
        requires
            self.is_consistent(),
            0 <= i < self.supertype_ids().len(),
            0 <= number < self.parse_table.symbols@.len() + self.unique_aliases().len(),
        ensures
            ({
                let id = self.supertype_ids()[i];
                let own = self.table_number(self.supertype(id)) as int;
                let ids = self.subtype_ids(id);
                let start = self.subtype_ids_upto(i as nat).len();
                let all = self.all_subtype_ids();
                &&& own < self.parse_table.symbols@.len() + self.unique_aliases().len()
                &&& self.supertype_slice_rows()[own] == "/* "@ + id + " */ MapSlice { index: "@
                    + decimal(start) + ", length: "@ + decimal(ids.len()) + " },"@
                &&& i == 0 ==> start == 0
                &&& self.subtype_ids_upto((i + 1) as nat).len() == start + ids.len()
                &&& i + 1 == self.supertype_ids().len() ==> all.len() == start + ids.len()
                &&& start + ids.len() <= all.len()
                &&& all.subrange(start as int, start as int + ids.len()) == ids
            }),
            (forall|j: int|
                0 <= j < self.supertype_ids().len() ==> self.table_number(
                    self.supertype(#[trigger] self.supertype_ids()[j]),
                ) != number) ==> self.supertype_slice_rows()[number]
                == "MapSlice { index: 0, length: 0 },"@,
    {
        self.supertype_slice_stands_at_its_number(i);
        self.supertype_slice_is_found(self.supertype_ids().len(), i);
        let pred = self.is_supertype_numbered(number);
        if forall|j: int|
            0 <= j < self.supertype_ids().len() ==> self.table_number(
                self.supertype(#[trigger] self.supertype_ids()[j]),
            ) != number {
            assert forall|j: int| 0 <= j < self.supertype_ids().len() implies !pred(
                #[trigger] self.supertype_ids()[j],
            ) by {}
        }
    }
}

} // verus!
