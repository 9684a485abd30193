//! What a rendered parser says of the fields of productions.
use vstd::prelude::*;

use crate::order::{is_ascending, text_order};
use crate::render_rust::fields::{
    field_entry_row, field_entry_rows, field_map_offset, flat_field_map, flat_fields,
};
use crate::render_rust::input::ParserInput;
use crate::render_rust::names::{field_identifier, uppercase};
use crate::tables::FieldLocation;
use crate::text::{array_lines, decimal, truth};
use crate::text_laws::{has_array, lemma_array, lemma_block_contains, lemma_peel};

verus! {

/// The number of places that the first `j` fields of a production have.
pub open spec fn places_before(fields: Seq<(String, Vec<FieldLocation>)>, j: int) -> nat
    decreases j,
{
    if j <= 0 {
        0
    } else {
        places_before(fields, j - 1) + fields[j - 1].1@.len()
    }
}

/// The places of the fields of a production come one field after another.
pub proof fn fields_are_flat(fields: Seq<(String, Vec<FieldLocation>)>, n: nat, j: int, l: int)
    requires
        n <= fields.len(),
    ensures
        flat_fields(fields, n).len() == places_before(fields, n as int),
        0 <= j < n && 0 <= l < fields[j].1@.len() ==> {
            let place = places_before(fields, j) + l;
            &&& place < flat_fields(fields, n).len()
            &&& flat_fields(fields, n)[place] == (fields[j].0@, fields[j].1@[l])
        },
    decreases n,
{
    if n > 0 {
        fields_are_flat(fields, (n - 1) as nat, j, l);
        fields_are_flat(fields, (n - 1) as nat, 0, 0);
    }
}

impl ParserInput {
    /// Some production has a field with the name.
    pub open spec fn is_field_name(&self, name: Seq<char>) -> bool {
        exists|i: int, j: int|
            #![trigger self.parse_table.production_infos@[i].field_map@[j]]
            0 <= i < self.parse_table.production_infos@.len() && 0 <= j
                < self.parse_table.production_infos@[i].field_map@.len()
                && self.parse_table.production_infos@[i].field_map@[j].0@ == name
    }

    /// The names of fields are those at any place of the field map of any production, each once, in
    /// ascending order.
    pub proof fn field_names_are_those_of_productions(&self, name: Seq<char>)
        ensures
            is_ascending(self.field_names(), text_order()),
            self.field_names().contains(name) == self.is_field_name(name),
    {
        self.field_names_are_sorted(name);
        if exists|i: int, j: int| self.has_field_at(i, j, name) {
            let (i, j) = choose|i: int, j: int| self.has_field_at(i, j, name);
            assert(self.parse_table.production_infos@[i].field_map@[j].0@ == name);
        }
        if self.is_field_name(name) {
            let (i, j) = choose|i: int, j: int|
                #![trigger self.parse_table.production_infos@[i].field_map@[j]]
                0 <= i < self.parse_table.production_infos@.len() && 0 <= j
                    < self.parse_table.production_infos@[i].field_map@.len()
                    && self.parse_table.production_infos@[i].field_map@[j].0@ == name;
            assert(self.has_field_at(i, j, name));
        }
    }

    /// The rows of the names of fields.
    pub open spec fn field_name_rows(&self) -> Seq<Seq<char>> {
        seq!["None,"@] + self.field_names().map_values(
            |name: Seq<char>|
                "/* "@ + field_identifier(name) + " */ Some(\""@ + name
                    + "\"),"@,
        )
    }

    /// The fields are numbered from one on in the order of their names, and their names are listed
    /// behind a place without a name.
    pub proof fn fields_are_numbered(&self, name: Seq<char>, i: int)
        requires
            0 <= i < self.field_names().len(),
        ensures
            ({
                let field = self.field_names()[i];
                let rows = self.field_name_rows();
                &&& self.parser_lines(name).contains(
                    "const "@ + ("FIELD_"@ + uppercase(field)) + ": FieldId = "@ + decimal(
                        (i + 1) as nat,
                    ) + ";"@,
                )
                &&& has_array(
                    self.parser_lines(name),
                    "static TS_FIELD_NAMES: [Option<&str>; "@ + decimal(
                        self.field_names().len() + 1,
                    ) + "] = ["@,
                    rows,
                )
                &&& rows.len() == self.field_names().len() + 1
                &&& rows[0] == "None,"@
                &&& rows[i + 1] == "/* "@ + ("FIELD_"@ + uppercase(field)) + " */ Some(\""@ + field
                    + "\"),"@
            }),
    {
        let field = self.field_names()[i];
        self.further_sections_are_rendered(name);
        let constant = "const "@ + ("FIELD_"@ + uppercase(field)) + ": FieldId = "@ + decimal(
            (i + 1) as nat,
        ) + ";"@;
        assert(self.field_constant_lines()[i] == constant);
        lemma_block_contains(self.parser_lines(name), self.field_constant_lines(), constant);
        lemma_array(
            self.parser_lines(name),
            "static TS_FIELD_NAMES: [Option<&str>; "@ + decimal(self.field_names().len() + 1)
                + "] = ["@,
            self.field_name_rows(),
        );
    }

    /// The rows of the slices of productions.
    pub open spec fn field_slice_rows(&self) -> Seq<Seq<char>> {
        Seq::new(self.infos().len(), |i: int| self.field_slice_row(i))
    }

    /// The rows of the places of fields.
    pub open spec fn all_field_rows(&self) -> Seq<Seq<char>> {
        field_entry_rows(self.field_maps(self.infos().len()))
    }

    /// Each production has a slice as long as its fields have places, and each place of each of its
    /// fields has its row where the slice says.
    pub proof fn fields_are_listed(&self, name: Seq<char>, i: int, j: int, l: int)
        requires
            0 <= i < self.parse_table.production_infos@.len(),
            0 <= j < self.parse_table.production_infos@[i].field_map@.len(),
            0 <= l < self.parse_table.production_infos@[i].field_map@[j].1@.len(),
        ensures
            ({
                let fields = self.parse_table.production_infos@[i].field_map@;
                let place = fields[j].1@[l];
                let slices = self.field_slice_rows();
                let rows = self.all_field_rows();
                let start = self.field_map_id(flat_field_map(self.infos()[i])) as int;
                let at = start + places_before(fields, j) + l;
                &&& has_array(
                    self.parser_lines(name),
                    "static TS_FIELD_MAP_SLICES: [MapSlice; PRODUCTION_ID_COUNT] = ["@,
                    slices,
                )
                &&& slices.len() == self.parse_table.production_infos@.len()
                &&& slices[i] == "/* "@ + decimal(i as nat) + " */ MapSlice { index: "@ + decimal(
                    start as nat,
                ) + ", length: "@ + decimal(places_before(fields, fields.len() as int)) + " },"@
                &&& has_array(
                    self.parser_lines(name),
                    "static TS_FIELD_MAP_ENTRIES: [FieldMapEntry; "@ + decimal(rows.len())
                        + "] = ["@,
                    rows,
                )
                &&& 0 <= at < rows.len()
                &&& rows[at] == "FieldMapEntry { field_id: "@ + ("FIELD_"@ + uppercase(
                    fields[j].0@,
                )) + ", child_index: "@ + decimal(place.index as nat) + ", inherited: "@ + truth(
                    place.inherited,
                ) + " },"@
            }),
    {
        let fields = self.parse_table.production_infos@[i].field_map@;
        let map = flat_field_map(self.infos()[i]);
        let start = self.field_map_id(map) as int;
        let rows = self.all_field_rows();
        let all = self.parser_lines(name);
        let maps = self.field_maps(self.infos().len());
        assert(self.parse_table.production_infos@[i].field_map@[j].0@ == fields[j].0@);
        self.field_names_are_those_of_productions(fields[j].0@);
        assert(self.is_field_name(fields[j].0@));
        assert(self.field_names().len() > 0);
        self.further_sections_are_rendered(name);
        self.field_slice_is_found(i);
        fields_are_flat(fields, fields.len(), j, l);
        let slice_head = "static TS_FIELD_MAP_SLICES: [MapSlice; PRODUCTION_ID_COUNT] = ["@;
        let head = "static TS_FIELD_MAP_ENTRIES: [FieldMapEntry; "@ + decimal(
            field_map_offset(maps, maps.len() as int),
        ) + "] = ["@;
        lemma_peel(
            all,
            array_lines(slice_head, self.field_slice_rows()),
            array_lines(head, rows),
        );
        lemma_array(all, slice_head, self.field_slice_rows());
        lemma_array(all, head, rows);
        let within = (places_before(fields, j) + l) as int;
        let part = rows.subrange(start, start + map.len());
        assert(part[within] == field_entry_row(map[within]));
        assert(rows[start + within] == part[within]);
    }

    /// A production without fields has an empty slice.
    pub proof fn productions_without_fields_have_empty_slices(&self, i: int)
        requires
            0 <= i < self.parse_table.production_infos@.len(),
            self.parse_table.production_infos@[i].field_map@.len() == 0,
        ensures
            self.field_slice_rows()[i] == "/* "@ + decimal(i as nat) + " */ MapSlice { index: "@
                + decimal(0) + ", length: "@ + decimal(0) + " },"@,
    {
        let map = flat_field_map(self.infos()[i]);
        let maps = self.field_maps(self.infos().len());
        fields_are_flat(self.infos()[i].field_map@, 0, 0, 0);
        assert(map =~= Seq::empty());
        self.field_maps_are_shared(self.infos().len());
        assert(maps[0] == map);
        assert(maps.index_of(map) == 0);
    }

    /// No two slices have the same fields: productions with the same fields share one.
    pub proof fn field_maps_are_shared(&self, n: nat)
        ensures
            self.field_maps(n).no_duplicates(),
            self.field_maps(n).len() > 0,
            self.field_maps(n)[0].len() == 0,
        decreases n,
    {
        if n > 0 {
            self.field_maps_are_shared((n - 1) as nat);
            let before = self.field_maps((n - 1) as nat);
            let after = self.field_maps(n);
            let map = flat_field_map(self.infos()[n - 1]);
            if !before.contains(map) {
                assert forall|x: int, y: int|
                    0 <= x < after.len() && 0 <= y < after.len() && x != y implies after[x]
                    != after[y] by {
                    if x < before.len() {
                        assert(before.contains(before[x]));
                    }
                    if y < before.len() {
                        assert(before.contains(before[y]));
                    }
                }
            }
        }
    }
}

} // verus!
