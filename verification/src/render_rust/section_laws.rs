//! That a rendered parser has its sections, and when it has which.
use vstd::prelude::*;

use crate::render_rust::input::ParserInput;
use crate::render_rust::symbols::{header_lines, import_lines};
use crate::text_laws::{has_block, lemma_peel, lemma_whole_block};

verus! {

impl ParserInput {
    /// A rendered parser has the sections that every parser has.
    pub proof fn sections_are_rendered(&self, name: Seq<char>)
        ensures
            has_block(self.parser_lines(name), self.stats_lines()),
            has_block(self.parser_lines(name), self.symbol_constant_lines()),
            has_block(self.parser_lines(name), self.symbol_name_lines()),
            has_block(self.parser_lines(name), self.symbol_map_lines()),
            has_block(self.parser_lines(name), self.symbol_metadata_lines()),
            has_block(self.parser_lines(name), self.non_terminal_alias_lines()),
            has_block(self.parser_lines(name), self.primary_state_lines()),
            has_block(self.parser_lines(name), self.lexer_lines()),
            has_block(self.parser_lines(name), self.lex_mode_lines()),
            has_block(self.parser_lines(name), self.parse_table_lines()),
            has_block(self.parser_lines(name), self.export_lines(name)),
    {
        let all = self.parser_lines(name);
        self.lemma_three_parts(name);
        self.lemma_sections_before(all);
        self.lemma_sections_after(all, name);
    }

    /// A rendered parser has the sections of fields, of aliases in productions, of supertypes, of
    /// reserved words and of external tokens if it has such.
    pub proof fn further_sections_are_rendered(&self, name: Seq<char>)
        ensures
            self.field_names().len() > 0 ==> has_block(
                self.parser_lines(name),
                self.field_constant_lines(),
            ) && has_block(self.parser_lines(name), self.field_name_lines()) && has_block(
                self.parser_lines(name),
                self.field_sequence_lines(),
            ),
            self.parse_table.production_infos@.len() > 0 ==> has_block(
                self.parser_lines(name),
                self.alias_sequence_lines(),
            ),
            self.abi_version >= 15 && self.supertype_ids().len() > 0 ==> has_block(
                self.parser_lines(name),
                self.supertype_lines(),
            ),
            self.abi_version >= 15 && self.reserved_word_sets().len() > 1 ==> has_block(
                self.parser_lines(name),
                self.reserved_word_lines(),
            ),
            self.syntax_grammar.external_tokens@.len() > 0 ==> has_block(
                self.parser_lines(name),
                self.external_constant_lines(),
            ) && has_block(self.parser_lines(name), self.external_symbol_lines()) && has_block(
                self.parser_lines(name),
                self.external_state_lines(),
            ),
    {
        let all = self.parser_lines(name);
        self.lemma_three_parts(name);
        self.lemma_sections_before(all);
        self.lemma_sections_after(all, name);
    }

    /// A rendered parser has a part before the lexers, the lexers, and a part behind them.
    proof fn lemma_three_parts(&self, name: Seq<char>)
        ensures
            has_block(self.parser_lines(name), self.lines_before_lexers()),
            has_block(self.parser_lines(name), self.lexer_lines()),
            has_block(self.parser_lines(name), self.lines_after_lexers(name)),
    {
        let all = self.parser_lines(name);
        lemma_whole_block(all);
        lemma_peel(
            all,
            self.lines_before_lexers() + self.lexer_lines(),
            self.lines_after_lexers(name),
        );
        lemma_peel(all, self.lines_before_lexers(), self.lexer_lines());
    }

    proof fn lemma_sections_before(&self, all: Seq<Seq<char>>)
        requires
            has_block(all, self.lines_before_lexers()),
        ensures
            has_block(all, self.stats_lines()),
            has_block(all, self.symbol_constant_lines()),
            has_block(all, self.symbol_name_lines()),
            has_block(all, self.symbol_map_lines()),
            has_block(all, self.symbol_metadata_lines()),
            has_block(all, self.non_terminal_alias_lines()),
            has_block(all, self.primary_state_lines()),
            self.field_names().len() > 0 ==> has_block(all, self.field_constant_lines())
                && has_block(all, self.field_name_lines()) && has_block(
                all,
                self.field_sequence_lines(),
            ),
            self.infos().len() > 0 ==> has_block(all, self.alias_sequence_lines()),
            self.has_supertypes() ==> has_block(all, self.supertype_lines()),
    {
        let empty = Seq::<Seq<char>>::empty();
        let supertypes = if self.has_supertypes() {
            self.supertype_lines()
        } else {
            empty
        };
        let aliases = if self.infos().len() > 0 {
            self.alias_sequence_lines()
        } else {
            empty
        };
        let fields = if self.field_names().len() > 0 {
            self.field_constant_lines() + self.field_name_lines() + self.field_sequence_lines()
        } else {
            empty
        };
        let a2 = header_lines() + import_lines();
        let a3 = a2 + self.stats_lines();
        let a4 = a3 + self.symbol_constant_lines();
        let a5 = a4 + self.symbol_name_lines();
        let a6 = a5 + self.symbol_map_lines();
        let a7 = a6 + self.symbol_metadata_lines();
        let a8 = a7 + fields;
        let a9 = a8 + aliases;
        let a10 = a9 + self.non_terminal_alias_lines();
        let a11 = a10 + self.primary_state_lines();
        lemma_peel(all, a11, supertypes);
        lemma_peel(all, a10, self.primary_state_lines());
        lemma_peel(all, a9, self.non_terminal_alias_lines());
        lemma_peel(all, a8, aliases);
        lemma_peel(all, a7, fields);
        lemma_peel(all, a6, self.symbol_metadata_lines());
        lemma_peel(all, a5, self.symbol_map_lines());
        lemma_peel(all, a4, self.symbol_name_lines());
        lemma_peel(all, a3, self.symbol_constant_lines());
        lemma_peel(all, a2, self.stats_lines());
        if self.field_names().len() > 0 {
            lemma_peel(
                all,
                self.field_constant_lines() + self.field_name_lines(),
                self.field_sequence_lines(),
            );
            lemma_peel(all, self.field_constant_lines(), self.field_name_lines());
        }
    }

    proof fn lemma_sections_after(&self, all: Seq<Seq<char>>, name: Seq<char>)
        requires
            has_block(all, self.lines_after_lexers(name)),
        ensures
            has_block(all, self.lex_mode_lines()),
            has_block(all, self.parse_table_lines()),
            has_block(all, self.export_lines(name)),
            self.has_reserved_words() ==> has_block(all, self.reserved_word_lines()),
            self.syntax_grammar.external_tokens@.len() > 0 ==> has_block(
                all,
                self.external_constant_lines(),
            ) && has_block(all, self.external_symbol_lines()) && has_block(
                all,
                self.external_state_lines(),
            ),
    {
        let empty = Seq::<Seq<char>>::empty();
        let words = if self.has_reserved_words() {
            self.reserved_word_lines()
        } else {
            empty
        };
        let external = if self.syntax_grammar.external_tokens@.len() > 0 {
            self.external_constant_lines() + self.external_symbol_lines()
                + self.external_state_lines()
        } else {
            empty
        };
        let b2 = self.lex_mode_lines() + words;
        let b3 = b2 + self.parse_table_lines();
        let b4 = b3 + external;
        lemma_peel(all, b4, self.export_lines(name));
        lemma_peel(all, b3, external);
        lemma_peel(all, b2, self.parse_table_lines());
        lemma_peel(all, self.lex_mode_lines(), words);
        if self.syntax_grammar.external_tokens@.len() > 0 {
            lemma_peel(
                all,
                self.external_constant_lines() + self.external_symbol_lines(),
                self.external_state_lines(),
            );
            lemma_peel(all, self.external_constant_lines(), self.external_symbol_lines());
        }
    }
}

} // verus!
