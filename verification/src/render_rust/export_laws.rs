//! What every rendered parser says of how much there is of everything, and what language it gives.
use vstd::prelude::*;

use crate::build_tables::Tables;
use crate::grammars::{LexicalGrammar, SyntaxGrammar};
use crate::node_types::ChildType;
use crate::render_rust::export::{count_fields, is_known_abi, parser_input};
use crate::render_rust::input::ParserInput;
use crate::rules::{AliasMap, Symbol, SymbolMap};
use crate::text::{decimal, line, lines_at};
use crate::text_laws::{has_block, lemma_block_contains, lemma_peel};

verus! {

/// The versions of the binary interface that can be rendered are 14 and 15.
pub proof fn two_versions_are_known(abi_version: usize)
    ensures
        is_known_abi(abi_version) <==> abi_version == 14 || abi_version == 15,
{
}

/// A parser is rendered from the components that are given.
pub proof fn components_are_taken(
    tables: Tables,
    syntax_grammar: SyntaxGrammar,
    lexical_grammar: LexicalGrammar,
    default_aliases: AliasMap,
    abi_version: usize,
    semantic_version: Option<(u8, u8, u8)>,
    supertype_symbol_map: SymbolMap<Vec<ChildType>>,
)
    ensures
        ({
            let input = parser_input(
                tables,
                syntax_grammar,
                lexical_grammar,
                default_aliases,
                abi_version,
                semantic_version,
                supertype_symbol_map,
            );
            &&& input.parse_table == tables.parse_table
            &&& input.main_lex_table == tables.main_lex_table
            &&& input.keyword_lex_table == tables.keyword_lex_table
            &&& input.large_character_sets == tables.large_character_sets
            &&& input.syntax_grammar == syntax_grammar
            &&& input.lexical_grammar == lexical_grammar
            &&& input.default_aliases == default_aliases
            &&& input.abi_version == abi_version
            &&& input.supertype_symbol_map == supertype_symbol_map
            &&& input.metadata is Some <==> semantic_version is Some
            &&& semantic_version matches Some(version) ==> {
                &&& input.metadata->0.major == version.0
                &&& input.metadata->0.minor == version.1
                &&& input.metadata->0.patch == version.2
            }
        }),
{
}

proof fn lemma_sum_of_lines(level: nat, a: Seq<Seq<char>>, b: Seq<Seq<char>>)
    ensures
        lines_at(level, a + b) == lines_at(level, a) + lines_at(level, b),
{
    assert(lines_at(level, a + b) =~= lines_at(level, a) + lines_at(level, b));
}

proof fn lemma_line(all: Seq<Seq<char>>, block: Seq<Seq<char>>, i: int)
    requires
        has_block(all, block),
        0 <= i < block.len(),
    ensures
        all.contains(block[i]),
{
    lemma_block_contains(all, block, block[i]);
}

/// What stands in a list of contents stands in the lines that have them.
proof fn lemma_content(all: Seq<Seq<char>>, level: nat, contents: Seq<Seq<char>>, i: int)
    requires
        has_block(all, lines_at(level, contents)),
        0 <= i < contents.len(),
    ensures
        all.contains(line(level, contents[i])),
{
    assert(lines_at(level, contents)[i] == line(level, contents[i]));
    lemma_block_contains(all, lines_at(level, contents), line(level, contents[i]));
}

impl ParserInput {
    /// The places of the tokens among the symbols: of the terminals, of the end, and of the external
    /// tokens that stand for no internal one.
    pub open spec fn token_places(&self) -> Set<int> {
        Set::new(
            |i: int|
                0 <= i < self.parse_table.symbols@.len() && {
                    let symbol = self.parse_table.symbols@[i];
                    ||| symbol.kind is Terminal
                    ||| symbol.kind is End
                    ||| symbol.kind is External
                        && self.syntax_grammar.external_tokens@[symbol.index as int].corresponding_internal_token
                        is None
                },
        )
    }

    /// The lines say how much there is of everything.
    pub open spec fn says_counts(&self, lines: Seq<Seq<char>>) -> bool {
        let table = self.parse_table;
        &&& self.token_places().finite()
        &&& lines.contains(
            "const LANGUAGE_VERSION: u32 = "@ + decimal(self.abi_version as nat) + ";"@,
        )
        &&& lines.contains(
            "const STATE_COUNT: usize = "@ + decimal(table.states@.len()) + ";"@,
        )
        &&& lines.contains(
            "const LARGE_STATE_COUNT: usize = "@ + decimal(self.large_state_count() as nat)
                + ";"@,
        )
        &&& lines.contains(
            "const SYMBOL_COUNT: usize = "@ + decimal(table.symbols@.len()) + ";"@,
        )
        &&& lines.contains(
            "const ALIAS_COUNT: usize = "@ + decimal(self.unique_aliases().len()) + ";"@,
        )
        &&& lines.contains(
            "const TOKEN_COUNT: usize = "@ + decimal(self.token_places().len()) + ";"@,
        )
        &&& lines.contains(
            "const EXTERNAL_TOKEN_COUNT: usize = "@ + decimal(
                self.syntax_grammar.external_tokens@.len(),
            ) + ";"@,
        )
        &&& lines.contains(
            "const FIELD_COUNT: usize = "@ + decimal(self.field_names().len()) + ";"@,
        )
        &&& lines.contains(
            "const MAX_ALIAS_SEQUENCE_LENGTH: usize = "@ + decimal(
                table.max_aliased_production_length as nat,
            ) + ";"@,
        )
        &&& lines.contains(
            "const MAX_RESERVED_WORD_SET_SIZE: usize = "@ + decimal(
                self.max_reserved_words(),
            ) + ";"@,
        )
        &&& lines.contains(
            "const PRODUCTION_ID_COUNT: usize = "@ + decimal(table.production_infos@.len())
                + ";"@,
        )
        &&& lines.contains(
            "const SUPERTYPE_COUNT: usize = "@ + decimal(self.supertype_ids().len()) + ";"@,
        )
    }

    /// A rendered parser says how much there is of everything.
    pub proof fn counts_are_rendered(&self, name: Seq<char>)
        ensures
            self.says_counts(self.parser_lines(name)),
    {
        self.sections_are_rendered(name);
        self.lemma_says_counts(self.parser_lines(name));
    }

    proof fn lemma_says_counts(&self, all: Seq<Seq<char>>)
        requires
            has_block(all, self.stats_lines()),
        ensures
            self.says_counts(all),
    {
        let stats = self.stats_lines();
        self.lemma_token_count(self.symbols().len());
        assert(self.symbols().take(self.symbols().len() as int) =~= self.symbols());
        assert(self.tokens_upto(self.symbols().len() as int) =~= self.token_places());
        assert forall|i: int| 0 <= i < stats.len() implies all.contains(#[trigger] stats[i]) by {
            lemma_block_contains(all, stats, stats[i]);
        }
        assert(all.contains(stats[0]));
        assert(all.contains(stats[1]));
        assert(all.contains(stats[2]));
        assert(all.contains(stats[3]));
        assert(all.contains(stats[4]));
        assert(all.contains(stats[5]));
        assert(all.contains(stats[6]));
        assert(all.contains(stats[7]));
        assert(all.contains(stats[8]));
        assert(all.contains(stats[9]));
        assert(all.contains(stats[10]));
        assert(all.contains(stats[11]));
    }

    spec fn tokens_upto(&self, n: int) -> Set<int> {
        self.token_places().filter(|i: int| i < n)
    }

    proof fn lemma_token_count(&self, n: nat)
        requires
            n <= self.symbols().len(),
        ensures
            self.tokens_upto(n as int).finite(),
            self.tokens_upto(n as int).len() == self.symbols().take(n as int).filter(
                self.is_token(),
            ).len(),
        decreases n,
    {
        reveal(Seq::filter);
        let all = self.tokens_upto(n as int);
        if n == 0 {
            assert(all =~= Set::<int>::empty());
        } else {
            let before = self.tokens_upto(n - 1);
            self.lemma_token_count((n - 1) as nat);
            let symbol = self.symbols()[n - 1];
            assert(self.symbols().take(n as int).drop_last() =~= self.symbols().take(n - 1));
            assert((self.is_token())(symbol) == self.token_places().contains(n - 1));
            if (self.is_token())(symbol) {
                assert(all =~= before.insert(n - 1));
            } else {
                assert(all =~= before);
            }
        }
    }

    /// The parts of the fields of the language stand in a rendered parser.
    proof fn lemma_fields(&self, name: Seq<char>)
        ensures
            has_block(self.parser_lines(name), lines_at(2, count_fields())),
            has_block(self.parser_lines(name), lines_at(2, self.table_fields())),
            has_block(self.parser_lines(name), lines_at(2, self.symbol_fields())),
            has_block(self.parser_lines(name), lines_at(2, self.lex_fields())),
            has_block(self.parser_lines(name), lines_at(2, self.other_fields(name))),
    {
        self.sections_are_rendered(name);
        self.lemma_export_parts(self.parser_lines(name), name);
        self.lemma_parts(self.parser_lines(name), name);
    }

    proof fn lemma_export_parts(&self, all: Seq<Seq<char>>, name: Seq<char>)
        requires
            has_block(all, self.export_lines(name)),
        ensures
            has_block(all, lines_at(2, self.language_fields(name))),
            self.syntax_grammar.external_tokens@.len() > 0 ==> has_block(
                all,
                self.scanner_lines(name),
            ),
    {
        let head = seq![
            "/// Returns the tree-sitter [`Language`] for this grammar."@,
            "pub fn language() -> &'static Language {"@,
            line(1, "static LANGUAGE: Language = Language {"@),
        ];
        let fields = lines_at(2, self.language_fields(name));
        let tail = seq![line(1, "};"@), line(1, "&LANGUAGE"@), "}"@];
        let scanner = if self.syntax_grammar.external_tokens@.len() > 0 {
            self.scanner_lines(name)
        } else {
            Seq::empty()
        };
        lemma_peel(all, head + fields + tail, scanner);
        lemma_peel(all, head + fields, tail);
        lemma_peel(all, head, fields);
    }

    proof fn lemma_parts(&self, all: Seq<Seq<char>>, name: Seq<char>)
        requires
            has_block(all, lines_at(2, self.language_fields(name))),
        ensures
            has_block(all, lines_at(2, count_fields())),
            has_block(all, lines_at(2, self.table_fields())),
            has_block(all, lines_at(2, self.symbol_fields())),
            has_block(all, lines_at(2, self.lex_fields())),
            has_block(all, lines_at(2, self.other_fields(name))),
    {
        let a2 = count_fields() + self.table_fields();
        let a3 = a2 + self.symbol_fields();
        let a4 = a3 + self.lex_fields();
        lemma_sum_of_lines(2, a4, self.other_fields(name));
        lemma_peel(all, lines_at(2, a4), lines_at(2, self.other_fields(name)));
        lemma_sum_of_lines(2, a3, self.lex_fields());
        lemma_peel(all, lines_at(2, a3), lines_at(2, self.lex_fields()));
        lemma_sum_of_lines(2, a2, self.symbol_fields());
        lemma_peel(all, lines_at(2, a2), lines_at(2, self.symbol_fields()));
        lemma_sum_of_lines(2, count_fields(), self.table_fields());
        lemma_peel(all, lines_at(2, count_fields()), lines_at(2, self.table_fields()));
    }

    /// The lines give the language its counts and the parse table.
    pub open spec fn gives_counts(&self, lines: Seq<Seq<char>>) -> bool {
        &&& lines.contains(line(2, "abi_version: LANGUAGE_VERSION,"@))
        &&& lines.contains(line(2, "symbol_count: SYMBOL_COUNT as u32,"@))
        &&& lines.contains(line(2, "alias_count: ALIAS_COUNT as u32,"@))
        &&& lines.contains(line(2, "token_count: TOKEN_COUNT as u32,"@))
        &&& lines.contains(line(2, "external_token_count: EXTERNAL_TOKEN_COUNT as u32,"@))
        &&& lines.contains(line(2, "state_count: STATE_COUNT as u32,"@))
        &&& lines.contains(line(2, "large_state_count: LARGE_STATE_COUNT as u32,"@))
        &&& lines.contains(line(2, "production_id_count: PRODUCTION_ID_COUNT as u32,"@))
        &&& lines.contains(line(2, "field_count: FIELD_COUNT as u32,"@))
        &&& lines.contains(
            line(2, "max_alias_sequence_length: MAX_ALIAS_SEQUENCE_LENGTH as u16,"@),
        )
        &&& lines.contains(
            line(2, "max_reserved_word_set_size: MAX_RESERVED_WORD_SET_SIZE as u16,"@),
        )
        &&& lines.contains(line(2, "supertype_count: SUPERTYPE_COUNT as u32,"@))
        &&& lines.contains(line(2, "parse_table: &TS_PARSE_TABLE,"@))
    }

    /// The language has the counts that the rendered parser declares, and the parse table.
    pub proof fn counts_are_given(&self, name: Seq<char>)
        ensures
            self.gives_counts(self.parser_lines(name)),
    {
        self.lemma_fields(name);
        self.lemma_gives_counts(self.parser_lines(name));
    }

    proof fn lemma_gives_counts(&self, all: Seq<Seq<char>>)
        requires
            has_block(all, lines_at(2, count_fields())),
        ensures
            self.gives_counts(all),
    {
        let fields = count_fields();
        assert forall|i: int| 0 <= i < fields.len() implies all.contains(
            line(2, #[trigger] fields[i]),
        ) by {
            lemma_content(all, 2, fields, i);
        }
        assert(all.contains(line(2, fields[0])));
        assert(all.contains(line(2, fields[1])));
        assert(all.contains(line(2, fields[2])));
        assert(all.contains(line(2, fields[3])));
        assert(all.contains(line(2, fields[4])));
        assert(all.contains(line(2, fields[5])));
        assert(all.contains(line(2, fields[6])));
        assert(all.contains(line(2, fields[7])));
        assert(all.contains(line(2, fields[8])));
        assert(all.contains(line(2, fields[9])));
        assert(all.contains(line(2, fields[10])));
        assert(all.contains(line(2, fields[11])));
        assert(all.contains(line(2, fields[12])));
    }

    /// The lines give the language its tables.
    pub open spec fn gives_tables(&self, lines: Seq<Seq<char>>) -> bool {
        let is_compact = self.large_state_count() < self.parse_table.states@.len();
        let has_fields = self.field_names().len() > 0;
        let has_productions = self.parse_table.production_infos@.len() > 0;
        &&& is_compact ==> lines.contains(line(2, "small_parse_table: &TS_SMALL_PARSE_TABLE,"@))
            && lines.contains(line(2, "small_parse_table_map: &TS_SMALL_PARSE_TABLE_MAP,"@))
        &&& !is_compact ==> lines.contains(line(2, "small_parse_table: &[],"@))
            && lines.contains(line(2, "small_parse_table_map: &[],"@))
        &&& lines.contains(line(2, "parse_actions: &TS_PARSE_ACTIONS,"@))
        &&& lines.contains(line(2, "symbol_names: &TS_SYMBOL_NAMES,"@))
        &&& has_fields ==> lines.contains(line(2, "field_names: &TS_FIELD_NAMES,"@))
            && lines.contains(line(2, "field_map_slices: &TS_FIELD_MAP_SLICES,"@))
            && lines.contains(line(2, "field_map_entries: &TS_FIELD_MAP_ENTRIES,"@))
        &&& !has_fields ==> lines.contains(line(2, "field_names: &[],"@))
            && lines.contains(line(2, "field_map_slices: &[],"@))
            && lines.contains(line(2, "field_map_entries: &[],"@))
        &&& lines.contains(line(2, "symbol_metadata: &TS_SYMBOL_METADATA,"@))
        &&& lines.contains(line(2, "public_symbol_map: &TS_SYMBOL_MAP,"@))
        &&& lines.contains(line(2, "alias_map: &TS_NON_TERMINAL_ALIAS_MAP,"@))
        &&& has_productions ==> lines.contains(
            line(2, "alias_sequences: &TS_ALIAS_SEQUENCES,"@),
        )
        &&& !has_productions ==> lines.contains(line(2, "alias_sequences: &[],"@))
    }

    /// The language has the compact part of the parse table if not every state is stored in full,
    /// the fields if there are any, and the aliases of productions if there are any productions.
    pub proof fn tables_are_given(&self, name: Seq<char>)
        ensures
            self.gives_tables(self.parser_lines(name)),
    {
        self.lemma_fields(name);
        self.lemma_gives_tables(self.parser_lines(name));
    }

    proof fn lemma_gives_tables(&self, all: Seq<Seq<char>>)
        requires
            has_block(all, lines_at(2, self.table_fields())),
            has_block(all, lines_at(2, self.symbol_fields())),
        ensures
            self.gives_tables(all),
    {
        let a = self.table_fields();
        let b = self.symbol_fields();
        assert(a.len() == 4 && b.len() == 7);
        lemma_content(all, 2, a, 0);
        lemma_content(all, 2, a, 1);
        lemma_content(all, 2, a, 2);
        lemma_content(all, 2, a, 3);
        lemma_content(all, 2, b, 0);
        lemma_content(all, 2, b, 1);
        lemma_content(all, 2, b, 2);
        lemma_content(all, 2, b, 3);
        lemma_content(all, 2, b, 4);
        lemma_content(all, 2, b, 5);
        lemma_content(all, 2, b, 6);
    }

    /// The lines give the language its lexers and its external scanner.
    pub open spec fn gives_lexers(&self, lines: Seq<Seq<char>>) -> bool {
        let has_scanner = self.syntax_grammar.external_tokens@.len() > 0;
        &&& lines.contains(line(2, "lex_modes: &TS_LEX_MODES,"@))
        &&& lines.contains(line(2, "lex_fn: ts_lex,"@))
        &&& self.syntax_grammar.word_token matches Some(word) ==> lines.contains(
            line(2, "keyword_lex_fn: Some(ts_lex_keywords),"@),
        ) && lines.contains(line(2, "keyword_capture_token: "@ + self.id(word) + ","@))
        &&& self.syntax_grammar.word_token is None ==> lines.contains(
            line(2, "keyword_lex_fn: None,"@),
        ) && lines.contains(line(2, "keyword_capture_token: 0,"@))
        &&& has_scanner ==> lines.contains(
            line(2, "external_scanner: Some(&EXTERNAL_SCANNER),"@),
        )
        &&& !has_scanner ==> lines.contains(line(2, "external_scanner: None,"@))
    }

    /// The language has a keyword lexer and the token that captures keywords if the grammar has a
    /// word token, and an external scanner if the grammar has external tokens.
    pub proof fn lexers_are_given(&self, name: Seq<char>)
        ensures
            self.gives_lexers(self.parser_lines(name)),
    {
        self.lemma_fields(name);
        self.lemma_gives_lexers(self.parser_lines(name));
    }

    proof fn lemma_gives_lexers(&self, all: Seq<Seq<char>>)
        requires
            has_block(all, lines_at(2, self.lex_fields())),
        ensures
            self.gives_lexers(all),
    {
        let fields = self.lex_fields();
        assert(fields.len() == 5);
        lemma_content(all, 2, fields, 0);
        lemma_content(all, 2, fields, 1);
        lemma_content(all, 2, fields, 2);
        lemma_content(all, 2, fields, 3);
        lemma_content(all, 2, fields, 4);
    }

    /// The lines give the language its name, its reserved words, its supertypes and its version.
    pub open spec fn gives_name_and_version(&self, lines: Seq<Seq<char>>, name: Seq<char>) -> bool {
        let has_words = self.abi_version >= 15 && exists|i: int|
            0 <= i < self.parse_table.states@.len() && (
            #[trigger] self.parse_table.states@[i]).reserved_words.tokens@.len() > 0;
        let has_supertypes = self.abi_version >= 15 && self.supertype_ids().len() > 0;
        &&& lines.contains(line(2, "primary_state_ids: &TS_PRIMARY_STATE_IDS,"@))
        &&& lines.contains(line(2, "name: \""@ + name + "\","@))
        &&& has_words ==> lines.contains(line(2, "reserved_words: &TS_RESERVED_WORDS,"@))
        &&& !has_words ==> lines.contains(line(2, "reserved_words: &[],"@))
        &&& has_supertypes ==> lines.contains(
            line(2, "supertype_symbols: &TS_SUPERTYPE_SYMBOLS,"@),
        ) && lines.contains(line(2, "supertype_map_slices: &TS_SUPERTYPE_MAP_SLICES,"@))
            && lines.contains(line(2, "supertype_map_entries: &TS_SUPERTYPE_MAP_ENTRIES,"@))
        &&& !has_supertypes ==> lines.contains(line(2, "supertype_symbols: &[],"@))
            && lines.contains(line(2, "supertype_map_slices: &[],"@)) && lines.contains(
            line(2, "supertype_map_entries: &[],"@),
        )
        &&& self.metadata matches Some(version) ==> lines.contains(
            line(
                2,
                "metadata: Some(LanguageMetadata { major_version: "@ + decimal(
                    version.major as nat,
                ) + ", minor_version: "@ + decimal(version.minor as nat)
                    + ", patch_version: "@ + decimal(version.patch as nat) + " }),"@,
            ),
        )
        &&& self.metadata is None ==> lines.contains(line(2, "metadata: None,"@))
    }

    /// The language has its name and its version, and from version 15 of the binary interface on the
    /// reserved words, if any state has such, and the supertypes, if there are any.
    pub proof fn names_and_versions_are_given(&self, name: Seq<char>)
        ensures
            self.gives_name_and_version(self.parser_lines(name), name),
    {
        self.lemma_fields(name);
        self.lemma_gives_name_and_version(self.parser_lines(name), name);
    }

    proof fn lemma_gives_name_and_version(&self, all: Seq<Seq<char>>, name: Seq<char>)
        requires
            has_block(all, lines_at(2, self.other_fields(name))),
        ensures
            self.gives_name_and_version(all, name),
    {
        let fields = self.other_fields(name);
        self.lemma_has_reserved_words();
        assert(fields.len() == 7);
        lemma_content(all, 2, fields, 0);
        lemma_content(all, 2, fields, 1);
        lemma_content(all, 2, fields, 2);
        lemma_content(all, 2, fields, 3);
        lemma_content(all, 2, fields, 4);
        lemma_content(all, 2, fields, 5);
        lemma_content(all, 2, fields, 6);
    }

    /// There are more sets of reserved words than the empty one if some state has reserved words.
    proof fn lemma_has_reserved_words(&self)
        ensures
            self.reserved_word_sets().len() > 1 <==> exists|i: int|
                0 <= i < self.parse_table.states@.len() && (
                #[trigger] self.parse_table.states@[i]).reserved_words.tokens@.len() > 0,
    {
        self.lemma_more_words(self.states().len());
    }

    proof fn lemma_more_words(&self, n: nat)
        requires
            n <= self.states().len(),
        ensures
            self.reserved_word_sets_upto(n).len() >= 1,
            self.reserved_word_sets_upto(n)[0] == Seq::<Symbol>::empty(),
            self.reserved_word_sets_upto(n).len() > 1 <==> exists|i: int|
                0 <= i < n && (#[trigger] self.parse_table.states@[i]).reserved_words.tokens@.len()
                    > 0,
        decreases n,
    {
        if n > 0 {
            let before = self.reserved_word_sets_upto((n - 1) as nat);
            let set = self.parse_table.states@[n - 1].reserved_words.tokens@;
            self.lemma_more_words((n - 1) as nat);
            if before.contains(set) {
                if before.len() == 1 {
                    assert(set.len() == 0);
                }
            } else if set.len() == 0 {
                assert(set =~= before[0]);
            }
        }
    }

    /// The lines have the external scanner of the language.
    pub open spec fn gives_scanner(&self, lines: Seq<Seq<char>>, name: Seq<char>) -> bool {
        let prefix = "tree_sitter_"@ + name + "_external_scanner"@;
        let has_states = self.parse_table.external_lex_states@.len() > 0;
        &&& lines.contains(line(1, "fn "@ + prefix + "_create() -> *mut u8;"@))
        &&& lines.contains(line(1, "fn "@ + prefix + "_destroy(state: *mut u8);"@))
        &&& lines.contains(
            line(
                1,
                "fn "@ + prefix
                    + "_scan(state: *mut u8, lexer: &mut dyn Lexer, valid_symbols: &[bool]) -> bool;"@,
            ),
        )
        &&& lines.contains(
            line(
                1,
                "fn "@ + prefix + "_serialize(state: *mut u8, buffer: &mut [u8; "@
                    + decimal(1024) + "]) -> u32;"@,
            ),
        )
        &&& lines.contains(
            line(1, "fn "@ + prefix + "_deserialize(state: *mut u8, buffer: &[u8]);"@),
        )
        &&& lines.contains("static EXTERNAL_SCANNER: ExternalScanner = ExternalScanner {"@)
        &&& has_states ==> lines.contains(line(1, "states: &TS_EXTERNAL_SCANNER_STATES,"@))
        &&& !has_states ==> lines.contains(line(1, "states: &[],"@))
        &&& lines.contains(line(1, "symbol_map: &TS_EXTERNAL_SCANNER_SYMBOL_MAP,"@))
        &&& lines.contains(line(1, "create: || unsafe { "@ + prefix + "_create() },"@))
        &&& lines.contains(
            line(1, "destroy: |state| unsafe { "@ + prefix + "_destroy(state) },"@),
        )
        &&& lines.contains(
            line(
                1,
                "scan: |state, lexer, valid| unsafe { "@ + prefix
                    + "_scan(state, lexer, valid) },"@,
            ),
        )
        &&& lines.contains(
            line(
                1,
                "serialize: |state, buffer| unsafe { "@ + prefix
                    + "_serialize(state, buffer) },"@,
            ),
        )
        &&& lines.contains(
            line(
                1,
                "deserialize: |state, buffer| unsafe { "@ + prefix
                    + "_deserialize(state, buffer) },"@,
            ),
        )
    }

    /// The external scanner calls the functions that are named after the language, and has the
    /// states if there are any and the symbols.
    pub proof fn scanner_is_given(&self, name: Seq<char>)
        requires
            self.syntax_grammar.external_tokens@.len() > 0,
        ensures
            self.gives_scanner(self.parser_lines(name), name),
    {
        self.sections_are_rendered(name);
        self.lemma_export_parts(self.parser_lines(name), name);
        self.lemma_gives_scanner(self.parser_lines(name), name);
    }

    #[verifier::rlimit(60)]
    proof fn lemma_gives_scanner(&self, all: Seq<Seq<char>>, name: Seq<char>)
        requires
            self.syntax_grammar.external_tokens@.len() > 0,
            has_block(all, self.scanner_lines(name)),
        ensures
            self.gives_scanner(all, name),
    {
        let scanner = self.scanner_lines(name);
        assert(scanner.len() == 18);
        lemma_line(all, scanner, 2);
        lemma_line(all, scanner, 3);
        lemma_line(all, scanner, 4);
        lemma_line(all, scanner, 5);
        lemma_line(all, scanner, 6);
        lemma_line(all, scanner, 9);
        lemma_line(all, scanner, 10);
        lemma_line(all, scanner, 11);
        lemma_line(all, scanner, 12);
        lemma_line(all, scanner, 13);
        lemma_line(all, scanner, 14);
        lemma_line(all, scanner, 15);
        lemma_line(all, scanner, 16);
    }
}

} // verus!
