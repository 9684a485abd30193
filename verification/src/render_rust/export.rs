//! The function by which a rendered parser gives its language, and the rendering as a whole.
use vstd::prelude::*;

use crate::build_tables::Tables;
use crate::grammars::{LexicalGrammar, SyntaxGrammar};
use crate::node_types::ChildType;
use crate::render::{RenderError, RenderResult, ABI_VERSION_MAX, ABI_VERSION_MIN};
use crate::render_rust::generator::RustGenerator;
use crate::render_rust::input::{Metadata, ParserInput, ABI_VERSION_WITH_RESERVED_WORDS};
use crate::render_rust::symbols::{add_header, add_imports, header_lines, import_lines};
use crate::rules::{AliasMap, SymbolMap};
use crate::runtime::SERIALIZATION_BUFFER_SIZE;
use crate::text::{
    concat3, concat5, concat7, count_text, decimal, decimal_text, line, lines_at, text_of, TextList,
};

verus! {

/// The first part of the names of an external scanner's functions.
pub open spec fn scanner_prefix(name: Seq<char>) -> Seq<char> {
    "tree_sitter_"@ + name + "_external_scanner"@
}

/// How much there is of everything, and the parse table.
pub open spec fn count_fields() -> Seq<Seq<char>> {
    seq![
        "abi_version: LANGUAGE_VERSION,"@,
        "symbol_count: SYMBOL_COUNT as u32,"@,
        "alias_count: ALIAS_COUNT as u32,"@,
        "token_count: TOKEN_COUNT as u32,"@,
        "external_token_count: EXTERNAL_TOKEN_COUNT as u32,"@,
        "state_count: STATE_COUNT as u32,"@,
        "large_state_count: LARGE_STATE_COUNT as u32,"@,
        "production_id_count: PRODUCTION_ID_COUNT as u32,"@,
        "field_count: FIELD_COUNT as u32,"@,
        "max_alias_sequence_length: MAX_ALIAS_SEQUENCE_LENGTH as u16,"@,
        "max_reserved_word_set_size: MAX_RESERVED_WORD_SET_SIZE as u16,"@,
        "supertype_count: SUPERTYPE_COUNT as u32,"@,
        "parse_table: &TS_PARSE_TABLE,"@,
    ]
}

impl ParserInput {
    /// There are supertypes to be rendered.
    pub open spec fn has_supertypes(&self) -> bool {
        self.abi_version >= ABI_VERSION_WITH_RESERVED_WORDS && self.supertype_ids().len() > 0
    }

    /// The compact part of the parse table, and the parse actions.
    pub open spec fn table_fields(&self) -> Seq<Seq<char>> {
        (if self.large_state_count() < self.states().len() {
            seq![
                "small_parse_table: &TS_SMALL_PARSE_TABLE,"@,
                "small_parse_table_map: &TS_SMALL_PARSE_TABLE_MAP,"@,
            ]
        } else {
            seq!["small_parse_table: &[],"@, "small_parse_table_map: &[],"@]
        }) + seq!["parse_actions: &TS_PARSE_ACTIONS,"@, "symbol_names: &TS_SYMBOL_NAMES,"@]
    }

    /// The fields of productions, the symbols and the aliases.
    pub open spec fn symbol_fields(&self) -> Seq<Seq<char>> {
        (if self.field_names().len() > 0 {
            seq![
                "field_names: &TS_FIELD_NAMES,"@,
                "field_map_slices: &TS_FIELD_MAP_SLICES,"@,
                "field_map_entries: &TS_FIELD_MAP_ENTRIES,"@,
            ]
        } else {
            seq!["field_names: &[],"@, "field_map_slices: &[],"@, "field_map_entries: &[],"@]
        }) + seq![
            "symbol_metadata: &TS_SYMBOL_METADATA,"@,
            "public_symbol_map: &TS_SYMBOL_MAP,"@,
            "alias_map: &TS_NON_TERMINAL_ALIAS_MAP,"@,
            if self.infos().len() > 0 {
                "alias_sequences: &TS_ALIAS_SEQUENCES,"@
            } else {
                "alias_sequences: &[],"@
            },
        ]
    }

    /// The lexers and the external scanner.
    pub open spec fn lex_fields(&self) -> Seq<Seq<char>> {
        seq!["lex_modes: &TS_LEX_MODES,"@, "lex_fn: ts_lex,"@] + (
        match self.syntax_grammar.word_token {
            Some(word) => seq![
                "keyword_lex_fn: Some(ts_lex_keywords),"@,
                "keyword_capture_token: "@ + self.id(word) + ","@,
            ],
            None => seq!["keyword_lex_fn: None,"@, "keyword_capture_token: 0,"@],
        }) + seq![
            if self.syntax_grammar.external_tokens@.len() > 0 {
                "external_scanner: Some(&EXTERNAL_SCANNER),"@
            } else {
                "external_scanner: None,"@
            },
        ]
    }

    /// The states, the name, the reserved words, the supertypes and the version.
    pub open spec fn other_fields(&self, name: Seq<char>) -> Seq<Seq<char>> {
        seq![
            "primary_state_ids: &TS_PRIMARY_STATE_IDS,"@,
            "name: \""@ + name + "\","@,
            if self.has_reserved_words() {
                "reserved_words: &TS_RESERVED_WORDS,"@
            } else {
                "reserved_words: &[],"@
            },
        ] + (if self.has_supertypes() {
            seq![
                "supertype_symbols: &TS_SUPERTYPE_SYMBOLS,"@,
                "supertype_map_slices: &TS_SUPERTYPE_MAP_SLICES,"@,
                "supertype_map_entries: &TS_SUPERTYPE_MAP_ENTRIES,"@,
            ]
        } else {
            seq![
                "supertype_symbols: &[],"@,
                "supertype_map_slices: &[],"@,
                "supertype_map_entries: &[],"@,
            ]
        }) + seq![
            match self.metadata {
                Some(version) => "metadata: Some(LanguageMetadata { major_version: "@ + decimal(
                    version.major as nat,
                ) + ", minor_version: "@ + decimal(version.minor as nat) + ", patch_version: "@
                    + decimal(version.patch as nat) + " }),"@,
                None => "metadata: None,"@,
            },
        ]
    }

    /// The fields of the language.
    pub open spec fn language_fields(&self, name: Seq<char>) -> Seq<Seq<char>> {
        count_fields() + self.table_fields() + self.symbol_fields() + self.lex_fields()
            + self.other_fields(name)
    }

    /// The functions of the external scanner, and the scanner.
    pub open spec fn scanner_lines(&self, name: Seq<char>) -> Seq<Seq<char>> {
        let prefix = scanner_prefix(name);
        seq![
            ""@,
            "extern \"Rust\" {"@,
            line(1, "fn "@ + prefix + "_create() -> *mut u8;"@),
            line(1, "fn "@ + prefix + "_destroy(state: *mut u8);"@),
            line(
                1,
                "fn "@ + prefix
                    + "_scan(state: *mut u8, lexer: &mut dyn Lexer, valid_symbols: &[bool]) -> bool;"@,
            ),
            line(
                1,
                "fn "@ + prefix + "_serialize(state: *mut u8, buffer: &mut [u8; "@ + decimal(
                    SERIALIZATION_BUFFER_SIZE as nat,
                ) + "]) -> u32;"@,
            ),
            line(1, "fn "@ + prefix + "_deserialize(state: *mut u8, buffer: &[u8]);"@),
            "}"@,
            ""@,
            "static EXTERNAL_SCANNER: ExternalScanner = ExternalScanner {"@,
            line(
                1,
                if self.parse_table.external_lex_states@.len() > 0
                    && self.syntax_grammar.external_tokens@.len() > 0 {
                    "states: &TS_EXTERNAL_SCANNER_STATES,"@
                } else {
                    "states: &[],"@
                },
            ),
            line(1, "symbol_map: &TS_EXTERNAL_SCANNER_SYMBOL_MAP,"@),
            line(1, "create: || unsafe { "@ + prefix + "_create() },"@),
            line(1, "destroy: |state| unsafe { "@ + prefix + "_destroy(state) },"@),
            line(
                1,
                "scan: |state, lexer, valid| unsafe { "@ + prefix + "_scan(state, lexer, valid) },"@,
            ),
            line(
                1,
                "serialize: |state, buffer| unsafe { "@ + prefix + "_serialize(state, buffer) },"@,
            ),
            line(
                1,
                "deserialize: |state, buffer| unsafe { "@ + prefix
                    + "_deserialize(state, buffer) },"@,
            ),
            "};"@,
        ]
    }

    /// The function that gives the language, and the external scanner, if there is one.
    pub open spec fn export_lines(&self, name: Seq<char>) -> Seq<Seq<char>> {
        seq![
            "/// Returns the tree-sitter [`Language`] for this grammar."@,
            "pub fn language() -> &'static Language {"@,
            line(1, "static LANGUAGE: Language = Language {"@),
        ] + lines_at(2, self.language_fields(name)) + seq![
            line(1, "};"@),
            line(1, "&LANGUAGE"@),
            "}"@,
        ] + (if self.syntax_grammar.external_tokens@.len() > 0 {
            self.scanner_lines(name)
        } else {
            Seq::empty()
        })
    }

    /// The lines before the lexers.
    pub open spec fn lines_before_lexers(&self) -> Seq<Seq<char>> {
        header_lines() + import_lines() + self.stats_lines() + self.symbol_constant_lines()
            + self.symbol_name_lines() + self.symbol_map_lines() + self.symbol_metadata_lines() + (
        if self.field_names().len() > 0 {
            self.field_constant_lines() + self.field_name_lines() + self.field_sequence_lines()
        } else {
            Seq::empty()
        }) + (if self.infos().len() > 0 {
            self.alias_sequence_lines()
        } else {
            Seq::empty()
        }) + self.non_terminal_alias_lines() + self.primary_state_lines() + (
        if self.has_supertypes() {
            self.supertype_lines()
        } else {
            Seq::empty()
        })
    }

    /// The lines behind the lexers.
    pub open spec fn lines_after_lexers(&self, name: Seq<char>) -> Seq<Seq<char>> {
        self.lex_mode_lines() + (if self.has_reserved_words() {
            self.reserved_word_lines()
        } else {
            Seq::empty()
        }) + self.parse_table_lines() + (if self.syntax_grammar.external_tokens@.len() > 0 {
            self.external_constant_lines() + self.external_symbol_lines()
                + self.external_state_lines()
        } else {
            Seq::empty()
        }) + self.export_lines(name)
    }

    /// The lines of a rendered parser.
    pub open spec fn parser_lines(&self, name: Seq<char>) -> Seq<Seq<char>> {
        self.lines_before_lexers() + self.lexer_lines() + self.lines_after_lexers(name)
    }
}

/// Adds how much there is of everything, and the parse table.
fn add_count_fields(fields: &mut TextList)
    ensures
        final(fields)@ == old(fields)@ + count_fields(),
{
    fields.push("abi_version: LANGUAGE_VERSION,".to_owned());
    fields.push("symbol_count: SYMBOL_COUNT as u32,".to_owned());
    fields.push("alias_count: ALIAS_COUNT as u32,".to_owned());
    fields.push("token_count: TOKEN_COUNT as u32,".to_owned());
    fields.push("external_token_count: EXTERNAL_TOKEN_COUNT as u32,".to_owned());
    fields.push("state_count: STATE_COUNT as u32,".to_owned());
    fields.push("large_state_count: LARGE_STATE_COUNT as u32,".to_owned());
    fields.push("production_id_count: PRODUCTION_ID_COUNT as u32,".to_owned());
    fields.push("field_count: FIELD_COUNT as u32,".to_owned());
    fields.push("max_alias_sequence_length: MAX_ALIAS_SEQUENCE_LENGTH as u16,".to_owned());
    fields.push("max_reserved_word_set_size: MAX_RESERVED_WORD_SET_SIZE as u16,".to_owned());
    fields.push("supertype_count: SUPERTYPE_COUNT as u32,".to_owned());
    fields.push("parse_table: &TS_PARSE_TABLE,".to_owned());
    assert(fields@ =~= old(fields)@ + count_fields());
}

impl RustGenerator {
    /// There are supertypes to be rendered.
    fn has_supertypes(&self) -> (r: bool)
        requires
            self.wf(),
        ensures
            r == self.input.has_supertypes(),
    {
        assert(self.supertypes@.len() == self.input.supertype_ids().len());
        self.input.abi_version >= ABI_VERSION_WITH_RESERVED_WORDS && self.supertypes.len() > 0
    }

    /// There are sets of reserved words to be rendered.
    fn has_reserved_words(&self) -> (r: bool)
        requires
            self.wf(),
        ensures
            r == self.input.has_reserved_words(),
    {
        assert(self.reserved_word_sets@.len() == self.input.reserved_word_sets().len());
        self.input.abi_version >= ABI_VERSION_WITH_RESERVED_WORDS && self.reserved_word_sets.len()
            > 1
    }

    /// Adds the compact part of the parse table, and the parse actions.
    fn add_table_fields(&self, fields: &mut TextList)
        requires
            self.wf(),
        ensures
            final(fields)@ == old(fields)@ + self.input.table_fields(),
    {
        if self.large_state_count < self.input.parse_table.states.len() {
            fields.push("small_parse_table: &TS_SMALL_PARSE_TABLE,".to_owned());
            fields.push("small_parse_table_map: &TS_SMALL_PARSE_TABLE_MAP,".to_owned());
        } else {
            fields.push("small_parse_table: &[],".to_owned());
            fields.push("small_parse_table_map: &[],".to_owned());
        }
        fields.push("parse_actions: &TS_PARSE_ACTIONS,".to_owned());
        fields.push("symbol_names: &TS_SYMBOL_NAMES,".to_owned());
        assert(fields@ =~= old(fields)@ + self.input.table_fields());
    }

    /// Adds the fields of productions, the symbols and the aliases.
    fn add_symbol_fields(&self, fields: &mut TextList)
        requires
            self.wf(),
        ensures
            final(fields)@ == old(fields)@ + self.input.symbol_fields(),
    {
        if self.field_names.len() > 0 {
            fields.push("field_names: &TS_FIELD_NAMES,".to_owned());
            fields.push("field_map_slices: &TS_FIELD_MAP_SLICES,".to_owned());
            fields.push("field_map_entries: &TS_FIELD_MAP_ENTRIES,".to_owned());
        } else {
            fields.push("field_names: &[],".to_owned());
            fields.push("field_map_slices: &[],".to_owned());
            fields.push("field_map_entries: &[],".to_owned());
        }
        fields.push("symbol_metadata: &TS_SYMBOL_METADATA,".to_owned());
        fields.push("public_symbol_map: &TS_SYMBOL_MAP,".to_owned());
        fields.push("alias_map: &TS_NON_TERMINAL_ALIAS_MAP,".to_owned());
        if self.input.parse_table.production_infos.len() > 0 {
            fields.push("alias_sequences: &TS_ALIAS_SEQUENCES,".to_owned());
        } else {
            fields.push("alias_sequences: &[],".to_owned());
        }
        assert(fields@ =~= old(fields)@ + self.input.symbol_fields());
    }

    /// Adds the lexers and the external scanner.
    fn add_lex_fields(&self, fields: &mut TextList)
        requires
            self.wf(),
        ensures
            final(fields)@ == old(fields)@ + self.input.lex_fields(),
    {
        fields.push("lex_modes: &TS_LEX_MODES,".to_owned());
        fields.push("lex_fn: ts_lex,".to_owned());
        match self.input.syntax_grammar.word_token {
            Some(word) => {
                fields.push("keyword_lex_fn: Some(ts_lex_keywords),".to_owned());
                fields.push(concat3("keyword_capture_token: ", self.symbol_id(word), ","));
            },
            None => {
                fields.push("keyword_lex_fn: None,".to_owned());
                fields.push("keyword_capture_token: 0,".to_owned());
            },
        }
        if self.input.syntax_grammar.external_tokens.len() > 0 {
            fields.push("external_scanner: Some(&EXTERNAL_SCANNER),".to_owned());
        } else {
            fields.push("external_scanner: None,".to_owned());
        }
        assert(fields@ =~= old(fields)@ + self.input.lex_fields());
    }

    /// Adds the states, the name, the reserved words, the supertypes and the version.
    fn add_other_fields(&self, fields: &mut TextList)
        requires
            self.wf(),
        ensures
            final(fields)@ == old(fields)@ + self.input.other_fields(self.language_name@),
    {
        fields.push("primary_state_ids: &TS_PRIMARY_STATE_IDS,".to_owned());
        fields.push(concat3("name: \"", self.language_name.as_str(), "\","));
        if self.has_reserved_words() {
            fields.push("reserved_words: &TS_RESERVED_WORDS,".to_owned());
        } else {
            fields.push("reserved_words: &[],".to_owned());
        }
        if self.has_supertypes() {
            fields.push("supertype_symbols: &TS_SUPERTYPE_SYMBOLS,".to_owned());
            fields.push("supertype_map_slices: &TS_SUPERTYPE_MAP_SLICES,".to_owned());
            fields.push("supertype_map_entries: &TS_SUPERTYPE_MAP_ENTRIES,".to_owned());
        } else {
            fields.push("supertype_symbols: &[],".to_owned());
            fields.push("supertype_map_slices: &[],".to_owned());
            fields.push("supertype_map_entries: &[],".to_owned());
        }
        match &self.input.metadata {
            Some(version) => {
                fields.push(
                    concat7(
                        "metadata: Some(LanguageMetadata { major_version: ",
                        decimal_text(version.major as u64).as_str(),
                        ", minor_version: ",
                        decimal_text(version.minor as u64).as_str(),
                        ", patch_version: ",
                        decimal_text(version.patch as u64).as_str(),
                        " }),",
                    ),
                );
            },
            None => {
                fields.push("metadata: None,".to_owned());
            },
        }
        assert(fields@ =~= old(fields)@ + self.input.other_fields(self.language_name@));
    }

    /// Adds the functions of the external scanner, and the scanner.
    #[verifier::rlimit(40)]
    fn add_scanner(&self, out: &mut TextList)
        requires
            self.wf(),
        ensures
            final(out)@ == old(out)@ + self.input.scanner_lines(self.language_name@),
    {
        let prefix: String = concat3(
            "tree_sitter_",
            self.language_name.as_str(),
            "_external_scanner",
        );
        let p: &str = prefix.as_str();
        let size: String = count_text(SERIALIZATION_BUFFER_SIZE);
        let ghost start = out@;
        out.push("".to_owned());
        out.push("extern \"Rust\" {".to_owned());
        out.add_line(1, concat3("fn ", p, "_create() -> *mut u8;").as_str());
        out.add_line(1, concat3("fn ", p, "_destroy(state: *mut u8);").as_str());
        out.add_line(
            1,
            concat3(
                "fn ",
                p,
                "_scan(state: *mut u8, lexer: &mut dyn Lexer, valid_symbols: &[bool]) -> bool;",
            ).as_str(),
        );
        out.add_line(
            1,
            concat5(
                "fn ",
                p,
                "_serialize(state: *mut u8, buffer: &mut [u8; ",
                size.as_str(),
                "]) -> u32;",
            ).as_str(),
        );
        out.add_line(1, concat3("fn ", p, "_deserialize(state: *mut u8, buffer: &[u8]);").as_str());
        out.push("}".to_owned());
        out.push("".to_owned());
        out.push("static EXTERNAL_SCANNER: ExternalScanner = ExternalScanner {".to_owned());
        if self.input.parse_table.external_lex_states.len() > 0
            && self.input.syntax_grammar.external_tokens.len() > 0 {
            out.add_line(1, "states: &TS_EXTERNAL_SCANNER_STATES,");
        } else {
            out.add_line(1, "states: &[],");
        }
        out.add_line(1, "symbol_map: &TS_EXTERNAL_SCANNER_SYMBOL_MAP,");
        out.add_line(1, concat3("create: || unsafe { ", p, "_create() },").as_str());
        out.add_line(1, concat3("destroy: |state| unsafe { ", p, "_destroy(state) },").as_str());
        out.add_line(
            1,
            concat3(
                "scan: |state, lexer, valid| unsafe { ",
                p,
                "_scan(state, lexer, valid) },",
            ).as_str(),
        );
        out.add_line(
            1,
            concat3(
                "serialize: |state, buffer| unsafe { ",
                p,
                "_serialize(state, buffer) },",
            ).as_str(),
        );
        out.add_line(
            1,
            concat3(
                "deserialize: |state, buffer| unsafe { ",
                p,
                "_deserialize(state, buffer) },",
            ).as_str(),
        );
        out.push("};".to_owned());
        assert(out@ =~= start + self.input.scanner_lines(self.language_name@));
    }

    /// Adds the function that gives the language, and the external scanner, if there is one.
    pub fn add_parser_export(&self, out: &mut TextList)
        requires
            self.wf(),
        ensures
            final(out)@ == old(out)@ + self.input.export_lines(self.language_name@),
    {
        let ghost start = out@;
        let ghost input = self.input;
        let mut fields: TextList = TextList::new();
        add_count_fields(&mut fields);
        self.add_table_fields(&mut fields);
        self.add_symbol_fields(&mut fields);
        self.add_lex_fields(&mut fields);
        self.add_other_fields(&mut fields);
        assert(fields@ =~= input.language_fields(self.language_name@));
        out.push("/// Returns the tree-sitter [`Language`] for this grammar.".to_owned());
        out.push("pub fn language() -> &'static Language {".to_owned());
        out.add_line(1, "static LANGUAGE: Language = Language {");
        out.add_lines_at(2, &fields);
        out.add_line(1, "};");
        out.add_line(1, "&LANGUAGE");
        out.push("}".to_owned());
        if self.input.syntax_grammar.external_tokens.len() > 0 {
            self.add_scanner(out);
        }
        assert(out@ =~= start + input.export_lines(self.language_name@));
    }

    /// Adds the lines before the lexers.
    fn add_before_lexers(&self, out: &mut TextList)
        requires
            self.wf(),
            old(out)@ == Seq::<Seq<char>>::empty(),
        ensures
            final(out)@ == self.input.lines_before_lexers(),
    {
        let ghost empty = Seq::<Seq<char>>::empty();
        add_header(out);
        assert(out@ =~= header_lines());
        add_imports(out);
        self.add_stats(out);
        self.add_symbol_constants(out);
        self.add_symbol_names_list(out);
        self.add_unique_symbol_map(out);
        self.add_symbol_metadata_list(out);
        let ghost symbols = out@;
        if self.field_names.len() > 0 {
            self.add_field_name_constants(out);
            self.add_field_name_names_list(out);
            self.add_field_sequences(out);
            assert(out@ =~= symbols + (self.input.field_constant_lines()
                + self.input.field_name_lines() + self.input.field_sequence_lines()));
        } else {
            assert(out@ =~= symbols + empty);
        }
        let ghost fields = out@;
        if self.input.parse_table.production_infos.len() > 0 {
            self.add_alias_sequences(out);
        } else {
            assert(out@ =~= fields + empty);
        }
        self.add_non_terminal_alias_map(out);
        self.add_primary_state_id_list(out);
        let ghost states = out@;
        if self.has_supertypes() {
            self.add_supertype_map(out);
        } else {
            assert(out@ =~= states + empty);
        }
    }

    /// Renders the parser, if its parse actions can be numbered.
    #[verifier::rlimit(40)]
    pub fn generate(&self) -> (r: RenderResult<String>)
        requires
            self.wf(),
        ensures
            match r {
                Ok(text) => {
                    &&& self.input.entry_slots() < u16::MAX
                    &&& text@ == text_of(self.input.parser_lines(self.language_name@))
                },
                Err(error) => {
                    &&& self.input.entry_slots() >= u16::MAX
                    &&& error == RenderError::ParseTable(self.input.entry_slots() as usize)
                },
            },
    {
        let ghost empty = Seq::<Seq<char>>::empty();
        let ghost input = self.input;
        let mut out: TextList = TextList::new();
        self.add_before_lexers(&mut out);
        self.add_lexers(&mut out);
        let mut rest: TextList = TextList::new();
        self.add_lex_modes(&mut rest);
        assert(rest@ =~= input.lex_mode_lines());
        let ghost modes = rest@;
        if self.has_reserved_words() {
            self.add_reserved_word_sets(&mut rest);
        } else {
            assert(rest@ =~= modes + empty);
        }
        match self.add_parse_table(&mut rest) {
            Ok(()) => {},
            Err(error) => {
                return Err(error);
            },
        }
        let ghost tables = rest@;
        if self.input.syntax_grammar.external_tokens.len() > 0 {
            self.add_external_token_constants(&mut rest);
            self.add_external_scanner_symbol_map(&mut rest);
            self.add_external_scanner_states_list(&mut rest);
            assert(rest@ =~= tables + (input.external_constant_lines()
                + input.external_symbol_lines() + input.external_state_lines()));
        } else {
            assert(rest@ =~= tables + empty);
        }
        self.add_parser_export(&mut rest);
        assert(rest@ == input.lines_after_lexers(self.language_name@));
        out.append(rest);
        Ok(out.text())
    }
}

/// What a parser is rendered from, given its components.
pub open spec fn parser_input(
    tables: Tables,
    syntax_grammar: SyntaxGrammar,
    lexical_grammar: LexicalGrammar,
    default_aliases: AliasMap,
    abi_version: usize,
    semantic_version: Option<(u8, u8, u8)>,
    supertype_symbol_map: SymbolMap<Vec<ChildType>>,
) -> ParserInput {
    ParserInput {
        parse_table: tables.parse_table,
        main_lex_table: tables.main_lex_table,
        keyword_lex_table: tables.keyword_lex_table,
        large_character_sets: tables.large_character_sets,
        syntax_grammar,
        lexical_grammar,
        default_aliases,
        abi_version,
        metadata: match semantic_version {
            Some((major, minor, patch)) => Some(Metadata { major, minor, patch }),
            None => None,
        },
        supertype_symbol_map,
    }
}

/// The version of the binary interface can be rendered.
pub open spec fn is_known_abi(abi_version: usize) -> bool {
    ABI_VERSION_MIN <= abi_version <= ABI_VERSION_MAX
}

/// Generate Rust source code for a parser from the given components.
///
/// A version of the binary interface that is not known is an error, and so are parse actions that
/// take too many places to be numbered.
pub fn render_rust_code(
    name: &str,
    tables: Tables,
    syntax_grammar: SyntaxGrammar,
    lexical_grammar: LexicalGrammar,
    default_aliases: AliasMap,
    abi_version: usize,
    semantic_version: Option<(u8, u8, u8)>,
    supertype_symbol_map: SymbolMap<Vec<ChildType>>,
) -> (r: RenderResult<String>)
    requires
        is_known_abi(abi_version) ==> parser_input(
            tables,
            syntax_grammar,
            lexical_grammar,
            default_aliases,
            abi_version,
            semantic_version,
            supertype_symbol_map,
        ).is_valid(),
    ensures
        ({
            let input = parser_input(
                tables,
                syntax_grammar,
                lexical_grammar,
                default_aliases,
                abi_version,
                semantic_version,
                supertype_symbol_map,
            );
            match r {
                Ok(text) => {
                    &&& is_known_abi(abi_version)
                    &&& input.entry_slots() < u16::MAX
                    &&& text@ == text_of(input.parser_lines(name@))
                },
                Err(RenderError::ABI(version)) => {
                    &&& !is_known_abi(abi_version)
                    &&& version == abi_version
                },
                Err(RenderError::ParseTable(slots)) => {
                    &&& is_known_abi(abi_version)
                    &&& input.entry_slots() >= u16::MAX
                    &&& slots == input.entry_slots()
                },
            }
        }),
{
    if abi_version < ABI_VERSION_MIN || abi_version > ABI_VERSION_MAX {
        return Err(RenderError::ABI(abi_version));
    }
    let metadata: Option<Metadata> = match semantic_version {
        Some((major, minor, patch)) => Some(Metadata { major, minor, patch }),
        None => None,
    };
    let input: ParserInput = ParserInput {
        parse_table: tables.parse_table,
        main_lex_table: tables.main_lex_table,
        keyword_lex_table: tables.keyword_lex_table,
        large_character_sets: tables.large_character_sets,
        syntax_grammar,
        lexical_grammar,
        default_aliases,
        abi_version,
        metadata,
        supertype_symbol_map,
    };
    let generator: RustGenerator = RustGenerator::init(name.to_owned(), input);
    generator.generate()
}

} // verus!
