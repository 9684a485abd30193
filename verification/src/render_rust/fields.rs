//! What a rendered parser says of the fields and aliases of productions.
use vstd::prelude::*;

use crate::render_rust::generator::RustGenerator;
use crate::render_rust::input::ParserInput;
use crate::render_rust::names::{field_id, field_identifier};
use crate::rules::Alias;
use crate::tables::{FieldLocation, ProductionInfo};
use crate::text::{
    array_lines, concat3, concat5, concat7, count_text, decimal, truth, truth_text, TextList,
};

verus! {

/// Where a production has which fields, in order.
pub type FieldMap = Seq<(Seq<char>, FieldLocation)>;

/// The places of the first `n` fields of a production.
pub open spec fn flat_fields(fields: Seq<(String, Vec<FieldLocation>)>, n: nat) -> FieldMap
    decreases n,
{
    if n == 0 {
        Seq::empty()
    } else {
        let (name, locations) = fields[n - 1];
        flat_fields(fields, (n - 1) as nat) + locations@.map_values(
            |location: FieldLocation| (name@, location),
        )
    }
}

/// The places of all fields of a production.
pub open spec fn flat_field_map(info: ProductionInfo) -> FieldMap {
    flat_fields(info.field_map@, info.field_map@.len())
}

/// The number of places in the first `k` maps.
pub open spec fn field_map_offset(maps: Seq<FieldMap>, k: int) -> nat
    decreases k,
{
    if k <= 0 {
        0
    } else {
        field_map_offset(maps, k - 1) + maps[k - 1].len()
    }
}

/// The row for a place of a field.
pub open spec fn field_entry_row(entry: (Seq<char>, FieldLocation)) -> Seq<char> {
    "FieldMapEntry { field_id: "@ + field_identifier(entry.0) + ", child_index: "@ + decimal(
        entry.1.index as nat,
    ) + ", inherited: "@ + truth(entry.1.inherited) + " },"@
}

/// The rows for the places in the maps.
pub open spec fn field_entry_rows(maps: Seq<FieldMap>) -> Seq<Seq<char>>
    decreases maps.len(),
{
    if maps.len() == 0 {
        Seq::empty()
    } else {
        field_entry_rows(maps.drop_last()) + maps.last().map_values(
            |entry: (Seq<char>, FieldLocation)| field_entry_row(entry),
        )
    }
}

impl ParserInput {
    /// The constants of the fields.
    pub open spec fn field_constant_lines(&self) -> Seq<Seq<char>> {
        Seq::new(
            self.field_names().len(),
            |i: int|
                "const "@ + field_identifier(self.field_names()[i]) + ": FieldId = "@ + decimal(
                    (i + 1) as nat,
                ) + ";"@,
        ) + seq![""@]
    }

    /// The names of the fields.
    pub open spec fn field_name_lines(&self) -> Seq<Seq<char>> {
        array_lines(
            "static TS_FIELD_NAMES: [Option<&str>; "@ + decimal(self.field_names().len() + 1)
                + "] = ["@,
            seq!["None,"@] + self.field_names().map_values(
                |name: Seq<char>|
                    "/* "@ + field_identifier(name) + " */ Some(\""@ + name + "\"),"@,
            ),
        )
    }

    /// The different maps of the first `n` productions in the order of their first use, after
    /// the map without fields.
    pub open spec fn field_maps(&self, n: nat) -> Seq<FieldMap>
        decreases n,
    {
        if n == 0 {
            seq![Seq::empty()]
        } else {
            let before = self.field_maps((n - 1) as nat);
            let map = flat_field_map(self.infos()[n - 1]);
            if before.contains(map) {
                before
            } else {
                before.push(map)
            }
        }
    }

    /// The number of a map: where its places begin among those of all maps.
    pub open spec fn field_map_id(&self, map: FieldMap) -> nat {
        let maps = self.field_maps(self.infos().len());
        field_map_offset(maps, maps.index_of(map))
    }

    /// The row that says where the fields of production `i` are found.
    pub open spec fn field_slice_row(&self, i: int) -> Seq<char> {
        let map = flat_field_map(self.infos()[i]);
        "/* "@ + decimal(i as nat) + " */ MapSlice { index: "@ + decimal(self.field_map_id(map))
            + ", length: "@ + decimal(map.len()) + " },"@
    }

    /// The fields of the productions.
    pub open spec fn field_sequence_lines(&self) -> Seq<Seq<char>> {
        let maps = self.field_maps(self.infos().len());
        array_lines(
            "static TS_FIELD_MAP_SLICES: [MapSlice; PRODUCTION_ID_COUNT] = ["@,
            Seq::new(self.infos().len(), |i: int| self.field_slice_row(i)),
        ) + array_lines(
            "static TS_FIELD_MAP_ENTRIES: [FieldMapEntry; "@ + decimal(
                field_map_offset(maps, maps.len() as int),
            ) + "] = ["@,
            field_entry_rows(maps),
        )
    }

    /// The row for place `j` of production `i`.
    pub open spec fn alias_row(&self, i: int, j: int) -> Seq<char> {
        "/* ["@ + decimal(i as nat) + "]["@ + decimal(j as nat) + "] */ "@ + (if j
            < self.infos()[i].alias_sequence@.len()
            && self.infos()[i].alias_sequence@[j] is Some {
            self.alias_id(self.infos()[i].alias_sequence@[j]->0@)
        } else {
            "0"@
        }) + ","@
    }

    /// The rows for the aliases of the first `n` productions.
    pub open spec fn alias_rows(&self, n: nat) -> Seq<Seq<char>>
        decreases n,
    {
        if n == 0 {
            Seq::empty()
        } else {
            self.alias_rows((n - 1) as nat) + Seq::new(
                self.parse_table.max_aliased_production_length as nat,
                |j: int| self.alias_row(n - 1, j),
            )
        }
    }

    /// The aliases of the productions.
    pub open spec fn alias_sequence_lines(&self) -> Seq<Seq<char>> {
        let len = self.infos().len() * self.parse_table.max_aliased_production_length;
        array_lines(
            "static TS_ALIAS_SEQUENCES: [Symbol; "@ + decimal(
                if len == 0 {
                    1
                } else {
                    len as nat
                },
            ) + "] = ["@,
            if len == 0 {
                seq!["0,"@]
            } else {
                self.alias_rows(self.infos().len())
            },
        )
    }
}

/// A map of fields, as a list of the places of fields.
pub open spec fn field_map_view(map: Seq<(String, FieldLocation)>) -> FieldMap {
    map.map_values(|e: (String, FieldLocation)| (e.0@, e.1))
}

/// The different maps of fields so far, with where their places begin, and the rows for these.
pub struct FieldMaps {
    pub maps: Vec<(usize, Vec<(String, FieldLocation)>)>,
    pub rows: TextList,
}

impl View for FieldMaps {
    type V = Seq<FieldMap>;

    open spec fn view(&self) -> Seq<FieldMap> {
        self.maps@.map_values(|e: (usize, Vec<(String, FieldLocation)>)| field_map_view(e.1@))
    }
}

/// The two maps say the same.
fn is_same_field_map(
    a: &Vec<(String, FieldLocation)>,
    b: &Vec<(String, FieldLocation)>,
) -> (r: bool)
    ensures
        r == (field_map_view(a@) == field_map_view(b@)),
{
    if a.len() != b.len() {
        assert(field_map_view(a@).len() != field_map_view(b@).len());
        return false;
    }
    let mut i: usize = 0;
    while i < a.len()
        invariant
            i <= a@.len(),
            a@.len() == b@.len(),
            forall|j: int| 0 <= j < i ==> #[trigger] field_map_view(a@)[j] == field_map_view(b@)[j],
        decreases a@.len() - i,
    {
        if !(a[i].0 == b[i].0 && a[i].1 == b[i].1) {
            assert(field_map_view(a@)[i as int] != field_map_view(b@)[i as int]);
            return false;
        }
        i += 1;
    }
    assert(field_map_view(a@) =~= field_map_view(b@));
    true
}

impl FieldMaps {
    /// The map at place `k` begins where the lengths of those before it say.
    pub open spec fn has_offset(&self, k: int) -> bool {
        self.maps@[k].0 == field_map_offset(self@, k)
    }

    /// The maps are different, and there are rows for all.
    pub open spec fn wf(&self) -> bool {
        &&& self@.no_duplicates()
        &&& self.rows@ == field_entry_rows(self@)
        &&& self.rows@.len() == field_map_offset(self@, self@.len() as int)
        &&& forall|k: int| 0 <= k < self.maps@.len() ==> #[trigger] self.has_offset(k)
    }

    /// No maps.
    fn new() -> (r: Self)
        ensures
            r.wf(),
            r@ == Seq::<FieldMap>::empty(),
    {
        let r: FieldMaps = FieldMaps { maps: Vec::new(), rows: TextList::new() };
        assert(r@ =~= Seq::<FieldMap>::empty());
        r
    }

    /// Where the places of a map begin.
    fn find(&self, map: &Vec<(String, FieldLocation)>) -> (r: Option<usize>)
        requires
            self.wf(),
        ensures
            match r {
                Some(id) => self@.contains(field_map_view(map@)) && id == field_map_offset(
                    self@,
                    self@.index_of(field_map_view(map@)),
                ),
                None => !self@.contains(field_map_view(map@)),
            },
    {
        let mut i: usize = 0;
        while i < self.maps.len()
            invariant
                self.wf(),
                i <= self.maps@.len(),
                forall|j: int| 0 <= j < i ==> #[trigger] self@[j] != field_map_view(map@),
            decreases self.maps@.len() - i,
        {
            assert(self@[i as int] == field_map_view(self.maps@[i as int].1@));
            if is_same_field_map(&self.maps[i].1, map) {
                assert(self.has_offset(i as int));
                assert(self@[self@.index_of(field_map_view(map@))] == field_map_view(map@));
                assert(self@.index_of(field_map_view(map@)) == i);
                return Some(self.maps[i].0);
            }
            i += 1;
        }
        None
    }

    /// Where the places of a map begin; the map is added if it is not there yet.
    #[verifier::rlimit(40)]
    pub fn get_field_map_id(&mut self, map: Vec<(String, FieldLocation)>) -> (id: usize)
        requires
            old(self).wf(),
        ensures
            final(self).wf(),
            final(self)@ == (if old(self)@.contains(field_map_view(map@)) {
                old(self)@
            } else {
                old(self)@.push(field_map_view(map@))
            }),
            id == field_map_offset(final(self)@, final(self)@.index_of(field_map_view(map@))),
    {
        let ghost before = *self;
        let ghost new = field_map_view(map@);
        match self.find(&map) {
            Some(id) => id,
            None => {
                let id: usize = self.rows.len();
                let ghost new_rows = new.map_values(
                    |entry: (Seq<char>, FieldLocation)| field_entry_row(entry),
                );
                let mut i: usize = 0;
                assert(self.rows@ =~= before.rows@ + new_rows.take(0));
                while i < map.len()
                    invariant
                        new == field_map_view(map@),
                        new_rows == new.map_values(
                            |entry: (Seq<char>, FieldLocation)| field_entry_row(entry),
                        ),
                        i <= map@.len(),
                        self.maps == before.maps,
                        self.rows@ == before.rows@ + new_rows.take(i as int),
                    decreases map@.len() - i,
                {
                    let name: String = field_id(map[i].0.as_str());
                    let index: String = count_text(map[i].1.index);
                    let row: String = concat7(
                        "FieldMapEntry { field_id: ",
                        name.as_str(),
                        ", child_index: ",
                        index.as_str(),
                        ", inherited: ",
                        truth_text(map[i].1.inherited),
                        " },",
                    );
                    assert(new[i as int] == (map@[i as int].0@, map@[i as int].1));
                    assert(row@ == new_rows[i as int]);
                    self.rows.push(row);
                    i += 1;
                    assert(self.rows@ =~= before.rows@ + new_rows.take(i as int));
                }
                assert(new_rows.take(i as int) =~= new_rows);
                self.maps.push((id, map));
                proof {
                    let n = before@.len() as int;
                    assert(self@ =~= before@.push(new));
                    assert(self@.drop_last() =~= before@);
                    assert forall|k: int| 0 <= k <= n implies #[trigger] field_map_offset(self@, k)
                        == field_map_offset(before@, k) by {
                        lemma_field_map_offset(before@, self@, k);
                    }
                    assert forall|k: int| 0 <= k < self.maps@.len() implies #[trigger]
                        self.has_offset(k) by {
                        if k < n {
                            assert(before.has_offset(k));
                        }
                    }
                    assert(self@[n] == new);
                    assert(self@.no_duplicates()) by {
                        assert forall|a: int, b: int|
                            0 <= a < self@.len() && 0 <= b < self@.len() && a != b implies self@[a]
                            != self@[b] by {
                            if a < n {
                                assert(before@.contains(before@[a]));
                            }
                            if b < n {
                                assert(before@.contains(before@[b]));
                            }
                        }
                    }
                    assert(field_map_offset(self@, n + 1) == field_map_offset(self@, n)
                        + new.len());
                    assert(self@[self@.index_of(new)] == new);
                    assert(self@.index_of(new) == n);
                }
                id
            },
        }
    }
}

/// The offsets of the first maps do not depend on what comes after them.
proof fn lemma_field_map_offset(a: Seq<FieldMap>, b: Seq<FieldMap>, k: int)
    requires
        k <= a.len() <= b.len(),
        forall|i: int| 0 <= i < a.len() ==> #[trigger] a[i] == b[i],
    ensures
        field_map_offset(a, k) == field_map_offset(b, k),
    decreases k,
{
    if k > 0 {
        lemma_field_map_offset(a, b, k - 1);
    }
}

/// The places of all fields of a production.
fn flatten_fields(info: &ProductionInfo) -> (r: Vec<(String, FieldLocation)>)
    ensures
        field_map_view(r@) == flat_field_map(*info),
{
    let ghost fields = info.field_map@;
    let mut r: Vec<(String, FieldLocation)> = Vec::new();
    let mut i: usize = 0;
    assert(field_map_view(r@) =~= flat_fields(fields, 0));
    while i < info.field_map.len()
        invariant
            fields == info.field_map@,
            i <= fields.len(),
            field_map_view(r@) == flat_fields(fields, i as nat),
        decreases fields.len() - i,
    {
        let ghost before = field_map_view(r@);
        let name: &String = &info.field_map[i].0;
        let locations: &Vec<FieldLocation> = &info.field_map[i].1;
        let ghost added = locations@.map_values(|location: FieldLocation| (name@, location));
        let mut j: usize = 0;
        assert(field_map_view(r@) =~= before + added.take(0));
        while j < locations.len()
            invariant
                added == locations@.map_values(|location: FieldLocation| (name@, location)),
                j <= locations@.len(),
                field_map_view(r@) == before + added.take(j as int),
            decreases locations@.len() - j,
        {
            let ghost so_far = field_map_view(r@);
            r.push((name.clone(), locations[j]));
            assert(field_map_view(r@) =~= so_far.push(added[j as int]));
            j += 1;
            assert(field_map_view(r@) =~= before + added.take(j as int));
        }
        assert(added.take(j as int) =~= added);
        i += 1;
    }
    r
}

impl ParserInput {
    /// The maps of the productions are among the maps.
    pub proof fn lemma_field_maps(&self, n: nat, i: int)
        requires
            0 <= i < n,
        ensures
            self.field_maps(n).contains(flat_field_map(self.infos()[i])),
        decreases n,
    {
        let before = self.field_maps((n - 1) as nat);
        let after = self.field_maps(n);
        let map = flat_field_map(self.infos()[i]);
        if i < n - 1 {
            self.lemma_field_maps((n - 1) as nat, i);
            assert(after[before.index_of(map)] == map);
        } else if !before.contains(map) {
            assert(after[before.len() as int] == map);
        }
    }
}

impl RustGenerator {
    /// Adds the constants of the fields.
    pub fn add_field_name_constants(&self, out: &mut TextList)
        requires
            self.wf(),
        ensures
            final(out)@ == old(out)@ + self.input.field_constant_lines(),
    {
        let ghost start = out@;
        let ghost names = self.input.field_names();
        let ghost all = Seq::new(
            names.len(),
            |i: int|
                "const "@ + field_identifier(names[i]) + ": FieldId = "@ + decimal((i + 1) as nat)
                    + ";"@,
        );
        let mut i: usize = 0;
        assert(out@ =~= start + all.take(0));
        while i < self.field_names.lines.len()
            invariant
                self.field_names@ == names,
                all == Seq::new(
                    names.len(),
                    |i: int|
                        "const "@ + field_identifier(names[i]) + ": FieldId = "@ + decimal(
                            (i + 1) as nat,
                        ) + ";"@,
                ),
                i <= names.len(),
                out@ == start + all.take(i as int),
            decreases names.len() - i,
        {
            assert(names[i as int] == self.field_names.lines@[i as int]@);
            let id: String = field_id(self.field_names.lines[i].as_str());
            let number: String = count_text(i + 1);
            let row: String = concat5("const ", id.as_str(), ": FieldId = ", number.as_str(), ";");
            assert(row@ == all[i as int]);
            out.push(row);
            i += 1;
            assert(out@ =~= start + all.take(i as int));
        }
        assert(all.take(i as int) =~= all);
        out.push("".to_owned());
        assert(out@ =~= start + self.input.field_constant_lines());
    }

    /// Adds the names of the fields.
    pub fn add_field_name_names_list(&self, out: &mut TextList)
        requires
            self.wf(),
        ensures
            final(out)@ == old(out)@ + self.input.field_name_lines(),
    {
        let ghost names = self.input.field_names();
        let ghost all = names.map_values(
            |name: Seq<char>| "/* "@ + field_identifier(name) + " */ Some(\""@ + name + "\"),"@,
        );
        let mut rows: TextList = TextList::new();
        rows.push("None,".to_owned());
        let mut i: usize = 0;
        assert(rows@ =~= seq!["None,"@] + all.take(0));
        while i < self.field_names.lines.len()
            invariant
                self.field_names@ == names,
                all == names.map_values(
                    |name: Seq<char>|
                        "/* "@ + field_identifier(name) + " */ Some(\""@ + name + "\"),"@,
                ),
                i <= names.len(),
                rows@ == seq!["None,"@] + all.take(i as int),
            decreases names.len() - i,
        {
            assert(names[i as int] == self.field_names.lines@[i as int]@);
            let name: &str = self.field_names.lines[i].as_str();
            let id: String = field_id(name);
            let row: String = concat5("/* ", id.as_str(), " */ Some(\"", name, "\"),");
            assert(row@ == all[i as int]);
            rows.push(row);
            i += 1;
            assert(rows@ =~= seq!["None,"@] + all.take(i as int));
        }
        assert(all.take(i as int) =~= all);
        let count: String = count_text(rows.len());
        out.add_array(
            concat3("static TS_FIELD_NAMES: [Option<&str>; ", count.as_str(), "] = ["),
            &rows,
        );
    }

    /// The different maps of fields of the productions.
    fn collect_field_maps(&self) -> (r: FieldMaps)
        ensures
            r.wf(),
            r@ == self.input.field_maps(self.input.infos().len()),
    {
        let mut maps: FieldMaps = FieldMaps::new();
        let empty: Vec<(String, FieldLocation)> = Vec::new();
        assert(field_map_view(empty@) =~= Seq::<(Seq<char>, FieldLocation)>::empty());
        maps.get_field_map_id(empty);
        assert(maps@ =~= self.input.field_maps(0));
        let mut i: usize = 0;
        while i < self.input.parse_table.production_infos.len()
            invariant
                i <= self.input.infos().len(),
                maps.wf(),
                maps@ == self.input.field_maps(i as nat),
            decreases self.input.infos().len() - i,
        {
            let map: Vec<(String, FieldLocation)> = flatten_fields(
                &self.input.parse_table.production_infos[i],
            );
            maps.get_field_map_id(map);
            i += 1;
        }
        maps
    }

    /// Adds the fields of the productions.
    #[verifier::rlimit(40)]
    pub fn add_field_sequences(&self, out: &mut TextList)
        requires
            self.wf(),
        ensures
            final(out)@ == old(out)@ + self.input.field_sequence_lines(),
    {
        let ghost start = out@;
        let ghost input = self.input;
        let maps: FieldMaps = self.collect_field_maps();
        let ghost all = Seq::new(input.infos().len(), |i: int| input.field_slice_row(i));
        let mut slices: TextList = TextList::new();
        let mut i: usize = 0;
        assert(slices@ =~= all.take(0));
        while i < self.input.parse_table.production_infos.len()
            invariant
                input == self.input,
                maps.wf(),
                maps@ == input.field_maps(input.infos().len()),
                all == Seq::new(input.infos().len(), |i: int| input.field_slice_row(i)),
                i <= input.infos().len(),
                slices@ == all.take(i as int),
            decreases input.infos().len() - i,
        {
            let map: Vec<(String, FieldLocation)> = flatten_fields(
                &self.input.parse_table.production_infos[i],
            );
            proof {
                self.input.lemma_field_maps(input.infos().len(), i as int);
            }
            let id: usize = maps.find(&map).unwrap();
            let number: String = count_text(i);
            let index: String = count_text(id);
            let length: String = count_text(map.len());
            let row: String = concat7(
                "/* ",
                number.as_str(),
                " */ MapSlice { index: ",
                index.as_str(),
                ", length: ",
                length.as_str(),
                " },",
            );
            assert(row@ == all[i as int]);
            slices.push(row);
            i += 1;
            assert(slices@ =~= all.take(i as int));
        }
        assert(all.take(i as int) =~= all);
        out.add_array(
            "static TS_FIELD_MAP_SLICES: [MapSlice; PRODUCTION_ID_COUNT] = [".to_owned(),
            &slices,
        );
        let count: String = count_text(maps.rows.len());
        out.add_array(
            concat3("static TS_FIELD_MAP_ENTRIES: [FieldMapEntry; ", count.as_str(), "] = ["),
            &maps.rows,
        );
        assert(out@ =~= start + input.field_sequence_lines());
    }

    /// Adds the aliases of the productions.
    #[verifier::rlimit(40)]
    pub fn add_alias_sequences(&self, out: &mut TextList)
        requires
            self.wf(),
        ensures
            final(out)@ == old(out)@ + self.input.alias_sequence_lines(),
    {
        let ghost input = self.input;
        let max_len: usize = self.input.parse_table.max_aliased_production_length;
        let mut rows: TextList = TextList::new();
        let mut i: usize = 0;
        while i < self.input.parse_table.production_infos.len()
            invariant
                self.wf(),
                input == self.input,
                max_len == input.parse_table.max_aliased_production_length,
                i <= input.infos().len(),
                rows@ == input.alias_rows(i as nat),
                rows@.len() == i * max_len,
            decreases input.infos().len() - i,
        {
            let sequence: &Vec<Option<Alias>> =
                &self.input.parse_table.production_infos[i].alias_sequence;
            let number: String = count_text(i);
            let ghost before = rows@;
            let ghost added = Seq::new(max_len as nat, |j: int| input.alias_row(i as int, j));
            let mut j: usize = 0;
            assert(rows@ =~= before + added.take(0));
            while j < max_len
                invariant
                    self.wf(),
                    input == self.input,
                    i < input.infos().len(),
                    *sequence == input.infos()[i as int].alias_sequence,
                    number@ == decimal(i as nat),
                    added == Seq::new(max_len as nat, |j: int| input.alias_row(i as int, j)),
                    j <= max_len,
                    rows@ == before + added.take(j as int),
                decreases max_len - j,
            {
                let column: String = count_text(j);
                let alias: Option<&Alias> = if j < sequence.len() {
                    sequence[j].as_ref()
                } else {
                    None
                };
                let id: &str = match alias {
                    Some(alias) => {
                        proof {
                            assert(input.has_alias_at(i as int, j as int, alias@));
                        }
                        self.alias_id(alias)
                    },
                    None => "0",
                };
                let row: String = concat7(
                    "/* [",
                    number.as_str(),
                    "][",
                    column.as_str(),
                    "] */ ",
                    id,
                    ",",
                );
                assert(row@ == added[j as int]);
                rows.push(row);
                j += 1;
                assert(rows@ =~= before + added.take(j as int));
            }
            proof {
                assert(added.take(j as int) =~= added);
                assert((i + 1) * max_len == i * max_len + max_len) by (nonlinear_arith);
            }
            i += 1;
        }
        if rows.len() == 0 {
            rows.push("0,".to_owned());
            assert(rows@ =~= seq!["0,"@]);
        }
        let count: String = count_text(rows.len());
        out.add_array(
            concat3("static TS_ALIAS_SEQUENCES: [Symbol; ", count.as_str(), "] = ["),
            &rows,
        );
    }
}

} // verus!
