//! What a rendered parser says of supertypes and their subtypes.
use vstd::prelude::*;

use crate::node_types::ChildType;
use crate::order::{
    first_index, insert_text, is_ascending, is_first, lemma_ascending_is, lemma_first_index,
    lemma_text_order, text_order,
};
use crate::render_rust::generator::{supertype_list_ids, RustGenerator};
use crate::render_rust::input::ParserInput;
use crate::rules::Symbol;
use crate::text::{array_lines, concat2, concat3, concat7, count_text, decimal, TextList};

verus! {

impl ParserInput {
    /// The identifiers of the subtypes of the first `n` supertypes, one supertype after another.
    pub open spec fn subtype_ids_upto(&self, n: nat) -> Seq<Seq<char>>
        decreases n,
    {
        if n == 0 {
            Seq::empty()
        } else {
            self.subtype_ids_upto((n - 1) as nat) + self.subtype_ids(self.supertype_ids()[n - 1])
        }
    }

    /// The identifiers of the subtypes of all supertypes.
    pub open spec fn all_subtype_ids(&self) -> Seq<Seq<char>> {
        self.subtype_ids_upto(self.supertype_ids().len())
    }

    /// The row that says where the subtypes of the supertype at place `i` are found.
    pub open spec fn supertype_slice(&self, i: int) -> Seq<char> {
        let id = self.supertype_ids()[i];
        "/* "@ + id + " */ MapSlice { index: "@ + decimal(self.subtype_ids_upto(i as nat).len())
            + ", length: "@ + decimal(self.subtype_ids(id).len()) + " },"@
    }

    /// The supertype with the given identifier has the given number.
    pub open spec fn is_supertype_numbered(&self, number: int) -> spec_fn(Seq<char>) -> bool {
        |id: Seq<char>| self.table_number(self.supertype(id)) == number
    }

    /// The row for the symbol or alias with the given number: where its subtypes are found if it
    /// is a supertype, and else an empty slice.
    pub open spec fn supertype_slice_row(&self, number: int) -> Seq<char> {
        let pred = self.is_supertype_numbered(number);
        if self.supertype_ids().any(pred) {
            self.supertype_slice(first_index(self.supertype_ids(), pred))
        } else {
            "MapSlice { index: 0, length: 0 },"@
        }
    }

    /// The supertypes and their subtypes.
    pub open spec fn supertype_lines(&self) -> Seq<Seq<char>> {
        let entries = self.all_subtype_ids();
        array_lines(
            "static TS_SUPERTYPE_SYMBOLS: [Symbol; SUPERTYPE_COUNT] = ["@,
            self.supertype_ids().map_values(|id: Seq<char>| id + ","@),
        ) + array_lines(
            "static TS_SUPERTYPE_MAP_SLICES: [MapSlice; "@ + decimal(self.shown_count()) + "] = ["@,
            Seq::new(self.shown_count(), |number: int| self.supertype_slice_row(number)),
        ) + array_lines(
            "static TS_SUPERTYPE_MAP_ENTRIES: [Symbol; "@ + decimal(
                if entries.len() == 0 {
                    1
                } else {
                    entries.len()
                },
            ) + "] = ["@,
            if entries.len() == 0 {
                seq!["0,"@]
            } else {
                entries.map_values(|id: Seq<char>| id + ","@)
            },
        )
    }

    /// The identifier is one of the first `n` subtypes.
    spec fn is_subtype_id_before(&self, subtypes: Seq<ChildType>, n: int, id: Seq<char>) -> bool {
        exists|k: int| 0 <= k < n && self.is_id_of_subtype(#[trigger] subtypes[k], id)
    }

    proof fn lemma_subtype_id(&self, subtypes: Seq<ChildType>, n: int, id: Seq<char>)
        requires
            0 <= n < subtypes.len(),
        ensures
            self.is_subtype_id_before(subtypes, n + 1, id) == (self.is_subtype_id_before(
                subtypes,
                n,
                id,
            ) || self.is_id_of_subtype(subtypes[n], id)),
    {
        if self.is_subtype_id_before(subtypes, n, id) {
            let k = choose|k: int| 0 <= k < n && self.is_id_of_subtype(#[trigger] subtypes[k], id);
            assert(self.is_id_of_subtype(subtypes[k], id));
        }
    }
}

impl RustGenerator {
    /// Adds the identifiers of a subtype to an ascending list.
    #[verifier::rlimit(40)]
    fn add_subtype_ids(&self, subtype: &ChildType, ids: &mut TextList)
        requires
            self.wf(),
            is_ascending(old(ids)@, text_order()),
        ensures
            is_ascending(final(ids)@, text_order()),
            forall|id: Seq<char>| #[trigger]
                final(ids)@.to_set().contains(id) == (old(ids)@.to_set().contains(id)
                    || self.input.is_id_of_subtype(*subtype, id)),
    {
        let ghost before = ids@.to_set();
        match subtype {
            ChildType::Normal(symbol) => match self.symbol_ids.get(*symbol) {
                Some(id) => {
                    insert_text(ids, id.as_str());
                },
                None => {},
            },
            ChildType::Aliased(alias) => match self.alias_ids.get(alias) {
                Some(id) => {
                    assert(self.alias_ids@.contains_key(alias@));
                    insert_text(ids, id.as_str());
                },
                None => {
                    assert(!self.alias_ids@.contains_key(alias@));
                    let symbols: Vec<Symbol> = self.input.symbols_for_alias(alias);
                    let mut i: usize = 0;
                    while i < symbols.len()
                        invariant
                            self.wf(),
                            symbols@ == self.input.symbols_with_alias(alias@),
                            forall|k: int|
                                0 <= k < symbols@.len() ==> self.input.symbols().contains(
                                    #[trigger] symbols@[k],
                                ),
                            i <= symbols@.len(),
                            is_ascending(ids@, text_order()),
                            forall|id: Seq<char>| #[trigger]
                                ids@.to_set().contains(id) == (before.contains(id)
                                    || is_id_before(self.input, symbols@, i as int, id)),
                        decreases symbols@.len() - i,
                    {
                        let symbol: Symbol = symbols[i];
                        assert(self.input.symbols().contains(symbols@[i as int]));
                        let ghost so_far = ids@.to_set();
                        insert_text(ids, self.symbol_id(symbol));
                        proof {
                            assert forall|id: Seq<char>| #[trigger] ids@.to_set().contains(id) == (
                            before.contains(id) || is_id_before(
                                self.input,
                                symbols@,
                                i + 1,
                                id,
                            )) by {
                                assert(so_far.contains(id) == (before.contains(id) || is_id_before(
                                    self.input,
                                    symbols@,
                                    i as int,
                                    id,
                                )));
                                lemma_id_before(self.input, symbols@, i as int, id);
                            }
                        }
                        i += 1;
                    }
                },
            },
        }
    }

    /// The identifiers of the subtypes of supertype `m`.
    fn subtype_ids(&self, m: usize) -> (r: TextList)
        requires
            self.wf(),
            m < self.supertypes@.len(),
        ensures
            r@ == self.input.subtype_ids(self.input.supertype_ids()[m as int]),
    {
        let ghost id = self.input.supertype_ids()[m as int];
        assert(supertype_list_ids(self.supertypes@)[m as int] == self.supertypes@[m as int].0@);
        let place: usize = self.supertypes[m].1;
        let subtypes: &Vec<ChildType> = &self.input.supertype_symbol_map.entries[place].1;
        proof {
            self.input.supertype_symbol_map.lemma_entry(place as int);
        }
        let mut r: TextList = TextList::new();
        let mut i: usize = 0;
        while i < subtypes.len()
            invariant
                self.wf(),
                i <= subtypes@.len(),
                is_ascending(r@, text_order()),
                forall|id: Seq<char>| #[trigger]
                    r@.to_set().contains(id) == self.input.is_subtype_id_before(
                        subtypes@,
                        i as int,
                        id,
                    ),
            decreases subtypes@.len() - i,
        {
            let ghost before = r@.to_set();
            self.add_subtype_ids(&subtypes[i], &mut r);
            proof {
                assert forall|id: Seq<char>| #[trigger]
                    r@.to_set().contains(id) == self.input.is_subtype_id_before(
                        subtypes@,
                        i + 1,
                        id,
                    ) by {
                    assert(before.contains(id) == self.input.is_subtype_id_before(
                        subtypes@,
                        i as int,
                        id,
                    ));
                    self.input.lemma_subtype_id(subtypes@, i as int, id);
                }
            }
            i += 1;
        }
        proof {
            let all = Set::new(
                |subtype_id: Seq<char>|
                    exists|k: int|
                        0 <= k < subtypes@.len() && self.input.is_id_of_subtype(
                            #[trigger] subtypes@[k],
                            subtype_id,
                        ),
            );
            assert forall|x: Seq<char>| r@.to_set().contains(x) == all.contains(x) by {
                assert(self.input.is_subtype_id_before(subtypes@, i as int, x) == all.contains(x));
            }
            assert(r@.to_set() =~= all);
            lemma_text_order();
            lemma_ascending_is(r@, all, text_order());
        }
        r
    }

    /// Adds the supertypes and their subtypes.
    #[verifier::rlimit(40)]
    pub fn add_supertype_map(&self, out: &mut TextList)
        requires
            self.wf(),
        ensures
            final(out)@ == old(out)@ + self.input.supertype_lines(),
    {
        let ghost start = out@;
        let ghost input = self.input;
        let ghost ids = input.supertype_ids();
        let ghost all_symbol_rows = ids.map_values(|id: Seq<char>| id + ","@);
        let ghost all_slices = Seq::new(ids.len(), |i: int| input.supertype_slice(i));
        let ghost row = |id: Seq<char>| id + ","@;
        let mut symbol_rows: TextList = TextList::new();
        let mut slices: TextList = TextList::new();
        let mut numbers: Vec<usize> = Vec::new();
        let mut entries: TextList = TextList::new();
        let mut m: usize = 0;
        assert(self.supertypes@.len() == ids.len());
        assert(symbol_rows@ =~= all_symbol_rows.take(0));
        assert(slices@ =~= all_slices.take(0));
        assert(entries@ =~= input.subtype_ids_upto(0).map_values(row));
        while m < self.supertypes.len()
            invariant
                self.wf(),
                input == self.input,
                ids == input.supertype_ids(),
                self.supertypes@.len() == ids.len(),
                all_symbol_rows == ids.map_values(|id: Seq<char>| id + ","@),
                all_slices == Seq::new(ids.len(), |i: int| input.supertype_slice(i)),
                row == (|id: Seq<char>| id + ","@),
                m <= ids.len(),
                symbol_rows@ == all_symbol_rows.take(m as int),
                slices@ == all_slices.take(m as int),
                numbers@.len() == m,
                forall|k: int|
                    0 <= k < m ==> #[trigger] numbers@[k] == input.table_number(
                        input.supertype(ids[k]),
                    ),
                entries@ == input.subtype_ids_upto(m as nat).map_values(row),
            decreases ids.len() - m,
        {
            assert(supertype_list_ids(self.supertypes@)[m as int] == self.supertypes@[m as int].0@);
            let id: &str = self.supertypes[m].0.as_str();
            let place: usize = self.supertypes[m].1;
            numbers.push(self.table_number(self.input.supertype_symbol_map.entries[place].0));
            let symbol_row: String = concat2(id, ",");
            assert(symbol_row@ == all_symbol_rows[m as int]);
            symbol_rows.push(symbol_row);
            assert(symbol_rows@ =~= all_symbol_rows.take(m + 1));
            let subtypes: TextList = self.subtype_ids(m);
            let index: String = count_text(entries.len());
            let length: String = count_text(subtypes.len());
            let slice: String = concat7(
                "/* ",
                id,
                " */ MapSlice { index: ",
                index.as_str(),
                ", length: ",
                length.as_str(),
                " },",
            );
            assert(slice@ == all_slices[m as int]);
            slices.push(slice);
            assert(slices@ =~= all_slices.take(m + 1));
            let ghost before = entries@;
            let mut k: usize = 0;
            assert(entries@ =~= before + subtypes@.take(0).map_values(row));
            while k < subtypes.lines.len()
                invariant
                    row == (|id: Seq<char>| id + ","@),
                    k <= subtypes@.len(),
                    entries@ == before + subtypes@.take(k as int).map_values(row),
                decreases subtypes@.len() - k,
            {
                entries.push(concat2(subtypes.lines[k].as_str(), ","));
                k += 1;
                assert(subtypes@.take(k as int) =~= subtypes@.take(k - 1).push(subtypes@[k - 1]));
                assert(entries@ =~= before + subtypes@.take(k as int).map_values(row));
            }
            assert(subtypes@.take(k as int) =~= subtypes@);
            assert(entries@ =~= input.subtype_ids_upto((m + 1) as nat).map_values(row));
            m += 1;
        }
        assert(all_symbol_rows.take(m as int) =~= all_symbol_rows);
        assert(all_slices.take(m as int) =~= all_slices);
        out.add_array(
            "static TS_SUPERTYPE_SYMBOLS: [Symbol; SUPERTYPE_COUNT] = [".to_owned(),
            &symbol_rows,
        );
        let rows: TextList = self.supertype_slice_rows(&numbers, &slices);
        let shown: String = count_text(rows.len());
        out.add_array(
            concat3("static TS_SUPERTYPE_MAP_SLICES: [MapSlice; ", shown.as_str(), "] = ["),
            &rows,
        );
        if entries.len() == 0 {
            entries.push("0,".to_owned());
            assert(entries@ =~= seq!["0,"@]);
        }
        let count: String = count_text(entries.len());
        out.add_array(
            concat3("static TS_SUPERTYPE_MAP_ENTRIES: [Symbol; ", count.as_str(), "] = ["),
            &entries,
        );
        assert(out@ =~= start + input.supertype_lines());
    }

    /// The rows of slices by the numbers of symbols and aliases, given the numbers of the
    /// supertypes and their slices.
    fn supertype_slice_rows(&self, numbers: &Vec<usize>, slices: &TextList) -> (rows: TextList)
        requires
            self.wf(),
            numbers@.len() == self.input.supertype_ids().len(),
            forall|k: int|
                0 <= k < numbers@.len() ==> #[trigger] numbers@[k] == self.input.table_number(
                    self.input.supertype(self.input.supertype_ids()[k]),
                ),
            slices@ == Seq::new(
                self.input.supertype_ids().len(),
                |i: int| self.input.supertype_slice(i),
            ),
        ensures
            rows@ == Seq::new(
                self.input.shown_count(),
                |number: int| self.input.supertype_slice_row(number),
            ),
    {
        let ghost input = self.input;
        let ghost ids = input.supertype_ids();
        let ghost all = Seq::new(
            input.shown_count(),
            |number: int| input.supertype_slice_row(number),
        );
        let mut rows: TextList = TextList::new();
        let mut number: usize = 0;
        assert(rows@ =~= all.take(0));
        while number < self.shown_ids.len()
            invariant
                self.wf(),
                input == self.input,
                ids == input.supertype_ids(),
                numbers@.len() == ids.len(),
                forall|k: int|
                    0 <= k < numbers@.len() ==> #[trigger] numbers@[k] == input.table_number(
                        input.supertype(ids[k]),
                    ),
                slices@ == Seq::new(ids.len(), |i: int| input.supertype_slice(i)),
                all == Seq::new(
                    input.shown_count(),
                    |number: int| input.supertype_slice_row(number),
                ),
                number <= input.shown_count(),
                rows@ == all.take(number as int),
            decreases input.shown_count() - number,
        {
            let ghost pred = input.is_supertype_numbered(number as int);
            let mut m: usize = 0;
            while m < numbers.len() && numbers[m] != number
                invariant
                    m <= numbers@.len(),
                    numbers@.len() == ids.len(),
                    forall|k: int|
                        0 <= k < numbers@.len() ==> #[trigger] numbers@[k] == input.table_number(
                            input.supertype(ids[k]),
                        ),
                    pred == input.is_supertype_numbered(number as int),
                    forall|k: int| 0 <= k < m ==> !pred(#[trigger] ids[k]),
                decreases numbers@.len() - m,
            {
                m += 1;
            }
            let row: &str = if m < numbers.len() {
                proof {
                    assert(pred(ids[m as int]));
                    assert(is_first(ids, pred, m as int));
                    lemma_first_index(ids, pred, m as int);
                    assert(slices@.len() == ids.len());
                    assert(slices@[m as int] == slices.lines@[m as int]@);
                }
                slices.lines[m].as_str()
            } else {
                assert(!ids.any(pred));
                "MapSlice { index: 0, length: 0 },"
            };
            assert(row@ == all[number as int]);
            rows.push(row.to_owned());
            number += 1;
            assert(rows@ =~= all.take(number as int));
        }
        assert(all.take(number as int) =~= all);
        rows
    }
}

/// The identifier is one of the first `n` symbols.
spec fn is_id_before(input: ParserInput, symbols: Seq<Symbol>, n: int, id: Seq<char>) -> bool {
    exists|k: int| 0 <= k < n && input.id(#[trigger] symbols[k]) == id
}

proof fn lemma_id_before(input: ParserInput, symbols: Seq<Symbol>, n: int, id: Seq<char>)
    requires
        0 <= n < symbols.len(),
    ensures
        is_id_before(input, symbols, n + 1, id) == (is_id_before(input, symbols, n, id) || input.id(
            symbols[n],
        ) == id),
{
    if is_id_before(input, symbols, n, id) {
        let k = choose|k: int| 0 <= k < n && input.id(#[trigger] symbols[k]) == id;
        assert(input.id(symbols[k]) == id);
    }
}

} // verus!
