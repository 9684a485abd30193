use tree_sitter_render::build_tables::Tables;
use tree_sitter_render::grammars::{
    ExternalToken, LexicalGrammar, LexicalVariable, Production, ProductionStep, SyntaxGrammar,
    SyntaxVariable, VariableType,
};
use tree_sitter_render::nfa::{CharacterSet, CodepointRange};
use tree_sitter_render::node_types::ChildType;
use tree_sitter_render::render::{RenderError, RenderResult};
use tree_sitter_render::render_rust::render_rust_code;
use tree_sitter_render::rules::{Alias, AliasMap, Symbol, SymbolMap, TokenSet};
use tree_sitter_render::runtime::{set_contains, CharacterRange};
use tree_sitter_render::tables::{
    AdvanceAction, FieldLocation, GotoAction, LexState, LexTable, ParseAction, ParseState,
    ParseTable, ParseTableEntry, ProductionInfo,
};

struct Parser {
    tables: Tables,
    syntax_grammar: SyntaxGrammar,
    lexical_grammar: LexicalGrammar,
    default_aliases: AliasMap,
    abi_version: usize,
    semantic_version: Option<(u8, u8, u8)>,
    supertypes: SymbolMap<Vec<ChildType>>,
}

fn render(name: &str, parser: Parser) -> RenderResult<String> {
    render_rust_code(
        name,
        parser.tables,
        parser.syntax_grammar,
        parser.lexical_grammar,
        parser.default_aliases,
        parser.abi_version,
        parser.semantic_version,
        parser.supertypes,
    )
}

fn set(ranges: &[(u32, u32)]) -> CharacterSet {
    CharacterSet {
        ranges: ranges.iter().map(|&(start, end)| CodepointRange { start, end }).collect(),
    }
}

fn alias(value: &str, is_named: bool) -> Alias {
    Alias { value: value.to_string(), is_named }
}

fn token(name: &str, kind: VariableType) -> LexicalVariable {
    LexicalVariable { name: name.to_string(), kind }
}

fn rule(name: &str, kind: VariableType, steps: Vec<(Symbol, Option<Alias>)>) -> SyntaxVariable {
    let steps = steps.into_iter().map(|(symbol, alias)| ProductionStep { symbol, alias }).collect();
    SyntaxVariable { name: name.to_string(), kind, productions: vec![Production { steps }] }
}

fn entry(actions: Vec<ParseAction>, reusable: bool) -> ParseTableEntry {
    ParseTableEntry { actions, reusable }
}

fn tokens(symbols: &[Symbol]) -> TokenSet {
    let mut r = TokenSet::new();
    for &symbol in symbols {
        r.insert(symbol);
    }
    r
}

fn state(
    terminal_entries: Vec<(Symbol, ParseTableEntry)>,
    nonterminal_entries: Vec<(Symbol, GotoAction)>,
    core_id: usize,
) -> ParseState {
    ParseState {
        terminal_entries,
        nonterminal_entries,
        reserved_words: TokenSet::new(),
        lex_state_id: 0,
        external_lex_state_id: 0,
        core_id,
    }
}

fn step(state: usize) -> AdvanceAction {
    AdvanceAction { state, in_main_token: true }
}

fn lex_state(
    accept_action: Option<Symbol>,
    advance_actions: Vec<(CharacterSet, AdvanceAction)>,
) -> LexState {
    LexState { accept_action, eof_action: None, advance_actions }
}

fn shift(state: usize) -> ParseAction {
    ParseAction::Shift { state, is_repetition: false }
}

fn minimal() -> Parser {
    let a = Symbol::terminal(0);
    let program = Symbol::non_terminal(0);
    let reduce = ParseAction::Reduce {
        symbol: program,
        child_count: 1,
        dynamic_precedence: 0,
        production_id: 0,
    };
    Parser {
        tables: Tables {
            parse_table: ParseTable {
                states: vec![
                    state(vec![], vec![], 0),
                    state(
                        vec![(a, entry(vec![shift(2)], true))],
                        vec![(program, GotoAction::Goto(3))],
                        1,
                    ),
                    state(vec![(Symbol::end(), entry(vec![reduce], true))], vec![], 2),
                    state(vec![(Symbol::end(), entry(vec![ParseAction::Accept], true))], vec![], 3),
                ],
                symbols: vec![Symbol::end(), a, program],
                production_infos: vec![],
                max_aliased_production_length: 0,
                external_lex_states: vec![],
            },
            main_lex_table: LexTable {
                states: vec![
                    lex_state(None, vec![(set(&[(97, 98)]), step(1))]),
                    lex_state(Some(a), vec![]),
                ],
            },
            keyword_lex_table: LexTable { states: vec![] },
            large_character_sets: vec![],
        },
        syntax_grammar: SyntaxGrammar {
            variables: vec![rule("program", VariableType::Named, vec![(a, None)])],
            external_tokens: vec![],
            supertype_symbols: vec![],
            word_token: None,
        },
        lexical_grammar: LexicalGrammar { variables: vec![token("a", VariableType::Anonymous)] },
        default_aliases: SymbolMap::new(),
        abi_version: 14,
        semantic_version: None,
        supertypes: SymbolMap::new(),
    }
}

const MINIMAL: &str = r#"// Automatically generated by tree-sitter — do not edit.

#![allow(
    clippy::all,
    non_upper_case_globals,
    unused,
    non_snake_case,
    dead_code
)]

use tree_sitter_runtime::{self, CharacterRange, ExternalScanner, FieldMapEntry, Language, LanguageMetadata, LexMode, Lexer, MapSlice, SymbolMetadata, set_contains};
use tree_sitter_runtime::{Symbol, StateId, FieldId};
use tree_sitter_runtime::BUILTIN_SYM_END as ts_builtin_sym_end;

const LANGUAGE_VERSION: u32 = 14;
const STATE_COUNT: usize = 4;
const LARGE_STATE_COUNT: usize = 2;
const SYMBOL_COUNT: usize = 3;
const ALIAS_COUNT: usize = 0;
const TOKEN_COUNT: usize = 2;
const EXTERNAL_TOKEN_COUNT: usize = 0;
const FIELD_COUNT: usize = 0;
const MAX_ALIAS_SEQUENCE_LENGTH: usize = 0;
const MAX_RESERVED_WORD_SET_SIZE: usize = 0;
const PRODUCTION_ID_COUNT: usize = 0;
const SUPERTYPE_COUNT: usize = 0;

const ANON_SYM_A: Symbol = 1;
const SYM_PROGRAM: Symbol = 2;

static TS_SYMBOL_NAMES: [&str; 3] = [
    /* ts_builtin_sym_end */ "end",
    /* ANON_SYM_A */ "a",
    /* SYM_PROGRAM */ "program",
];

static TS_SYMBOL_MAP: [Symbol; 3] = [
    /* ts_builtin_sym_end */ ts_builtin_sym_end,
    /* ANON_SYM_A */ ANON_SYM_A,
    /* SYM_PROGRAM */ SYM_PROGRAM,
];

static TS_SYMBOL_METADATA: [SymbolMetadata; 3] = [
    /* ts_builtin_sym_end */ SymbolMetadata { visible: false, named: true, supertype: false },
    /* ANON_SYM_A */ SymbolMetadata { visible: true, named: false, supertype: false },
    /* SYM_PROGRAM */ SymbolMetadata { visible: true, named: true, supertype: false },
];

static TS_NON_TERMINAL_ALIAS_MAP: [u16; 1] = [
    0,
];

static TS_PRIMARY_STATE_IDS: [StateId; STATE_COUNT] = [
    /* 0 */ 0,
    /* 1 */ 1,
    /* 2 */ 2,
    /* 3 */ 3,
];

fn ts_lex(lexer: &mut dyn Lexer, mut state: StateId) -> bool {
    let mut result = false;
    let mut skip;
    let mut eof;
    let mut lookahead;
    'next_state: loop {
        skip = false;
        lookahead = lexer.lookahead();
        eof = lexer.eof();
        match state {
            0 => {
                if lookahead == 'a' as i32 {
                    state = 1;
                    lexer.advance(skip);
                    continue 'next_state;
                }
                return result;
            }
            1 => {
                result = true;
                lexer.set_result_symbol(ANON_SYM_A);
                lexer.mark_end();
                return result;
            }
            _ => return false,
        }
    }
}

static TS_LEX_MODES: [LexMode; STATE_COUNT] = [
    /* 0 */ LexMode { lex_state: 0, external_lex_state: 0, reserved_word_set_id: 0 },
    /* 1 */ LexMode { lex_state: 0, external_lex_state: 0, reserved_word_set_id: 0 },
    /* 2 */ LexMode { lex_state: 0, external_lex_state: 0, reserved_word_set_id: 0 },
    /* 3 */ LexMode { lex_state: 0, external_lex_state: 0, reserved_word_set_id: 0 },
];

static TS_PARSE_TABLE: [u16; 6] = [
    // State 0
    /* [0][0] */ 0,
    /* [0][1] */ 0,
    /* [0][2] */ 0,
    // State 1
    /* [1][0] */ 0,
    /* [1][1] */ 1,
    /* [1][2] */ 3,
];

static TS_SMALL_PARSE_TABLE: [u16; 8] = [
    /* 0 */ 1,
    /* 1 */ 3,
    /* 2 */ 1,
    /* 3 */ 0,
    /* 4 */ 1,
    /* 5 */ 6,
    /* 6 */ 1,
    /* 7 */ 0,
];

static TS_SMALL_PARSE_TABLE_MAP: [u32; 2] = [
    /* 2 */ 0,
    /* 3 */ 4,
];

static TS_PARSE_ACTIONS: [u32; 8] = [
    /* [0] count=0, reusable=false */ 0,
    /* [1] count=1, reusable=true */ 65537,
    /* SHIFT(2) */ 512,
    /* [3] count=1, reusable=true */ 65537,
    /* REDUCE(SYM_PROGRAM, 1, 0, 0) */ 131329, 0,
    /* [6] count=1, reusable=true */ 65537,
    /* ACCEPT */ 2,
];

/// Returns the tree-sitter [`Language`] for this grammar.
pub fn language() -> &'static Language {
    static LANGUAGE: Language = Language {
        abi_version: LANGUAGE_VERSION,
        symbol_count: SYMBOL_COUNT as u32,
        alias_count: ALIAS_COUNT as u32,
        token_count: TOKEN_COUNT as u32,
        external_token_count: EXTERNAL_TOKEN_COUNT as u32,
        state_count: STATE_COUNT as u32,
        large_state_count: LARGE_STATE_COUNT as u32,
        production_id_count: PRODUCTION_ID_COUNT as u32,
        field_count: FIELD_COUNT as u32,
        max_alias_sequence_length: MAX_ALIAS_SEQUENCE_LENGTH as u16,
        max_reserved_word_set_size: MAX_RESERVED_WORD_SET_SIZE as u16,
        supertype_count: SUPERTYPE_COUNT as u32,
        parse_table: &TS_PARSE_TABLE,
        small_parse_table: &TS_SMALL_PARSE_TABLE,
        small_parse_table_map: &TS_SMALL_PARSE_TABLE_MAP,
        parse_actions: &TS_PARSE_ACTIONS,
        symbol_names: &TS_SYMBOL_NAMES,
        field_names: &[],
        field_map_slices: &[],
        field_map_entries: &[],
        symbol_metadata: &TS_SYMBOL_METADATA,
        public_symbol_map: &TS_SYMBOL_MAP,
        alias_map: &TS_NON_TERMINAL_ALIAS_MAP,
        alias_sequences: &[],
        lex_modes: &TS_LEX_MODES,
        lex_fn: ts_lex,
        keyword_lex_fn: None,
        keyword_capture_token: 0,
        external_scanner: None,
        primary_state_ids: &TS_PRIMARY_STATE_IDS,
        name: "minimal",
        reserved_words: &[],
        supertype_symbols: &[],
        supertype_map_slices: &[],
        supertype_map_entries: &[],
        metadata: None,
    };
    &LANGUAGE
}
"#;

#[test]
fn minimal_parser_is_rendered_whole() {
    assert_eq!(render("minimal", minimal()).unwrap(), MINIMAL);
}

#[test]
fn rendering_is_the_same_every_time() {
    assert_eq!(render("minimal", minimal()), render("minimal", minimal()));
}

#[test]
fn unknown_abi_versions_are_refused() {
    for abi_version in [0, 13, 16, usize::MAX] {
        let mut parser = minimal();
        parser.abi_version = abi_version;
        assert_eq!(render("minimal", parser), Err(RenderError::ABI(abi_version)));
    }
    let mut parser = minimal();
    parser.abi_version = 15;
    let text = render("minimal", parser).unwrap();
    assert!(text.contains("const LANGUAGE_VERSION: u32 = 15;\n"));
}

/// The minimal parser with lists of actions that take `slots` places.
fn with_slots(slots: usize) -> Parser {
    let mut parser = minimal();
    let long = entry(vec![ParseAction::Recover; slots - 9], false);
    parser.tables.parse_table.states[0].terminal_entries.push((Symbol::end(), long));
    parser
}

#[test]
fn too_many_parse_actions_are_refused() {
    assert_eq!(render("minimal", with_slots(65535)), Err(RenderError::ParseTable(65535)));
    assert_eq!(render("minimal", with_slots(65600)), Err(RenderError::ParseTable(65600)));
}

#[test]
fn as_many_parse_actions_as_can_be_numbered_are_rendered() {
    let text = render("minimal", with_slots(65534)).unwrap();
    assert!(text.contains("static TS_PARSE_ACTIONS: [u32; 65534] = [\n"));
    assert!(text.contains("    /* [1] count=65525, reusable=false */ 65525,\n"));
    assert!(text.contains("    /* [65532] count=1, reusable=true */ 65537,\n"));
    assert!(text.contains("    /* [1][1] */ 65527,\n"));
}

fn rich() -> Parser {
    let identifier = Symbol::terminal(0);
    let plus = Symbol::terminal(1);
    let if_token = Symbol::terminal(2);
    let comment = Symbol::terminal(3);
    let newline = Symbol::external(0);
    let program = Symbol::non_terminal(0);
    let expression = Symbol::non_terminal(1);
    let sum = Symbol::non_terminal(2);
    let repeat = Symbol::non_terminal(3);
    let extra = || entry(vec![ParseAction::ShiftExtra], true);
    let reduce = ParseAction::Reduce {
        symbol: sum,
        child_count: 2,
        dynamic_precedence: -1,
        production_id: 1,
    };

    let first = state(vec![], vec![], 0);
    let mut second = state(
        vec![
            (if_token, entry(vec![ParseAction::Shift { state: 3, is_repetition: true }], false)),
            (identifier, extra()),
            (newline, entry(vec![ParseAction::Recover], false)),
        ],
        vec![(sum, GotoAction::Goto(2)), (program, GotoAction::ShiftExtra)],
        1,
    );
    second.reserved_words = tokens(&[if_token]);
    second.lex_state_id = 4;
    let third = state(
        vec![
            (plus, entry(vec![shift(1)], true)),
            (Symbol::end(), entry(vec![ParseAction::Accept], true)),
            (identifier, extra()),
        ],
        vec![
            (expression, GotoAction::Goto(3)),
            (sum, GotoAction::Goto(3)),
            (repeat, GotoAction::ShiftExtra),
        ],
        1,
    );
    let mut fourth = state(
        vec![(Symbol::end_of_nonterminal_extra(), entry(vec![reduce], false))],
        vec![],
        2,
    );
    fourth.reserved_words = tokens(&[if_token]);
    fourth.external_lex_state_id = 1;
    let mut fifth = state(
        vec![(plus, extra()), (identifier, extra())],
        vec![(sum, GotoAction::ShiftExtra), (expression, GotoAction::Goto(3))],
        3,
    );
    fifth.reserved_words = tokens(&[if_token, identifier]);
    fifth.external_lex_state_id = 1;

    let fields = || {
        vec![
            ("left".to_string(), vec![FieldLocation { index: 0, inherited: false }]),
            (
                "right".to_string(),
                vec![
                    FieldLocation { index: 2, inherited: false },
                    FieldLocation { index: 3, inherited: true },
                ],
            ),
        ]
    };

    let mut default_aliases: AliasMap = SymbolMap::new();
    default_aliases.insert(if_token, alias("keyword", true));
    let mut supertypes: SymbolMap<Vec<ChildType>> = SymbolMap::new();
    supertypes.insert(
        expression,
        vec![
            ChildType::Normal(sum),
            ChildType::Normal(identifier),
            ChildType::Aliased(alias("name", true)),
            ChildType::Aliased(alias("comment", true)),
            ChildType::Normal(Symbol::non_terminal(9)),
        ],
    );

    Parser {
        tables: Tables {
            parse_table: ParseTable {
                states: vec![first, second, third, fourth, fifth],
                symbols: vec![
                    Symbol::end(),
                    identifier,
                    plus,
                    if_token,
                    comment,
                    newline,
                    program,
                    expression,
                    sum,
                    repeat,
                ],
                production_infos: vec![
                    ProductionInfo { alias_sequence: vec![], field_map: vec![] },
                    ProductionInfo {
                        alias_sequence: vec![None, Some(alias("name", true))],
                        field_map: fields(),
                    },
                    ProductionInfo {
                        alias_sequence: vec![Some(alias("keyword", true))],
                        field_map: fields(),
                    },
                    ProductionInfo { alias_sequence: vec![], field_map: vec![] },
                ],
                max_aliased_production_length: 2,
                external_lex_states: vec![TokenSet::new(), tokens(&[newline])],
            },
            main_lex_table: LexTable {
                states: vec![
                    LexState {
                        accept_action: None,
                        eof_action: Some(step(1)),
                        advance_actions: vec![
                            (set(&[(43, 44)]), step(2)),
                            (
                                set(&[(9, 11), (32, 33)]),
                                AdvanceAction { state: 0, in_main_token: false },
                            ),
                            (set(&[(97, 123)]), step(3)),
                        ],
                    },
                    lex_state(Some(Symbol::end()), vec![]),
                    lex_state(Some(plus), vec![]),
                    lex_state(Some(identifier), vec![(set(&[(97, 123)]), step(3))]),
                ],
            },
            keyword_lex_table: LexTable {
                states: vec![
                    lex_state(None, vec![(set(&[(105, 106)]), step(1))]),
                    lex_state(Some(if_token), vec![]),
                ],
            },
            large_character_sets: vec![(None, set(&[(97, 123)]))],
        },
        syntax_grammar: SyntaxGrammar {
            variables: vec![
                rule("program", VariableType::Named, vec![(sum, Some(alias("keyword", true)))]),
                rule("_expression", VariableType::Hidden, vec![(identifier, None)]),
                rule(
                    "sum",
                    VariableType::Named,
                    vec![
                        (expression, Some(alias("name", true))),
                        (plus, Some(alias("name", true))),
                        (expression, None),
                        (sum, Some(alias("never_in_a_production", true))),
                    ],
                ),
                rule("program_repeat1", VariableType::Auxiliary, vec![]),
            ],
            external_tokens: vec![
                ExternalToken {
                    name: "newline".to_string(),
                    kind: VariableType::Named,
                    corresponding_internal_token: None,
                },
                ExternalToken {
                    name: "comment".to_string(),
                    kind: VariableType::Named,
                    corresponding_internal_token: Some(comment),
                },
            ],
            supertype_symbols: vec![expression],
            word_token: Some(identifier),
        },
        lexical_grammar: LexicalGrammar {
            variables: vec![
                token("identifier", VariableType::Named),
                token("+", VariableType::Anonymous),
                token("if", VariableType::Anonymous),
                token("comment", VariableType::Named),
            ],
        },
        default_aliases,
        abi_version: 15,
        semantic_version: Some((1, 20, 3)),
        supertypes,
    }
}

#[test]
fn counts_are_declared() {
    let text = render("rich", rich()).unwrap();
    assert!(text.contains(
        "const LANGUAGE_VERSION: u32 = 15;
const STATE_COUNT: usize = 5;
const LARGE_STATE_COUNT: usize = 3;
const SYMBOL_COUNT: usize = 10;
const ALIAS_COUNT: usize = 1;
const TOKEN_COUNT: usize = 6;
const EXTERNAL_TOKEN_COUNT: usize = 2;
const FIELD_COUNT: usize = 2;
const MAX_ALIAS_SEQUENCE_LENGTH: usize = 2;
const MAX_RESERVED_WORD_SET_SIZE: usize = 2;
const PRODUCTION_ID_COUNT: usize = 4;
const SUPERTYPE_COUNT: usize = 1;

const SYM_IDENTIFIER: Symbol = 1;
const ANON_SYM_PLUS: Symbol = 2;
const ANON_SYM_IF: Symbol = 3;
const SYM_COMMENT: Symbol = 4;
const SYM_NEWLINE: Symbol = 5;
const SYM_PROGRAM: Symbol = 6;
const SYM__EXPRESSION: Symbol = 7;
const SYM_SUM: Symbol = 8;
const AUX_SYM_PROGRAM_REPEAT1: Symbol = 9;
const ALIAS_SYM_NAME: Symbol = 10;

"
    ));
}

#[test]
fn symbols_and_aliases_are_described() {
    let text = render("rich", rich()).unwrap();
    assert!(text.contains(
        r#"static TS_SYMBOL_NAMES: [&str; 11] = [
    /* ts_builtin_sym_end */ "end",
    /* SYM_IDENTIFIER */ "identifier",
    /* ANON_SYM_PLUS */ "+",
    /* ANON_SYM_IF */ "keyword",
    /* SYM_COMMENT */ "comment",
    /* SYM_NEWLINE */ "newline",
    /* SYM_PROGRAM */ "program",
    /* SYM__EXPRESSION */ "_expression",
    /* SYM_SUM */ "sum",
    /* AUX_SYM_PROGRAM_REPEAT1 */ "program_repeat1",
    /* ALIAS_SYM_NAME */ "name",
];

"#
    ));
    assert!(text.contains("    /* ALIAS_SYM_NAME */ ALIAS_SYM_NAME,\n];\n"));
    assert!(text.contains(
        "    /* ANON_SYM_IF */ SymbolMetadata { visible: true, named: true, supertype: false },\n"
    ));
    assert!(text.contains(
        "    /* SYM__EXPRESSION */ SymbolMetadata { visible: false, named: true, supertype: true },
    /* SYM_SUM */ SymbolMetadata { visible: true, named: true, supertype: false },
    /* AUX_SYM_PROGRAM_REPEAT1 */ SymbolMetadata { visible: false, named: false, supertype: false },
    /* ALIAS_SYM_NAME */ SymbolMetadata { visible: true, named: true, supertype: false },
];
"
    ));
}

#[test]
fn fields_and_alias_sequences_are_listed() {
    let text = render("rich", rich()).unwrap();
    assert!(text.contains(
        r#"const FIELD_LEFT: FieldId = 1;
const FIELD_RIGHT: FieldId = 2;

static TS_FIELD_NAMES: [Option<&str>; 3] = [
    None,
    /* FIELD_LEFT */ Some("left"),
    /* FIELD_RIGHT */ Some("right"),
];

static TS_FIELD_MAP_SLICES: [MapSlice; PRODUCTION_ID_COUNT] = [
    /* 0 */ MapSlice { index: 0, length: 0 },
    /* 1 */ MapSlice { index: 0, length: 3 },
    /* 2 */ MapSlice { index: 0, length: 3 },
    /* 3 */ MapSlice { index: 0, length: 0 },
];

static TS_FIELD_MAP_ENTRIES: [FieldMapEntry; 3] = [
    FieldMapEntry { field_id: FIELD_LEFT, child_index: 0, inherited: false },
    FieldMapEntry { field_id: FIELD_RIGHT, child_index: 2, inherited: false },
    FieldMapEntry { field_id: FIELD_RIGHT, child_index: 3, inherited: true },
];

static TS_ALIAS_SEQUENCES: [Symbol; 8] = [
    /* [0][0] */ 0,
    /* [0][1] */ 0,
    /* [1][0] */ 0,
    /* [1][1] */ ALIAS_SYM_NAME,
    /* [2][0] */ ANON_SYM_IF,
    /* [2][1] */ 0,
    /* [3][0] */ 0,
    /* [3][1] */ 0,
];

static TS_NON_TERMINAL_ALIAS_MAP: [u16; 9] = [
    SYM__EXPRESSION, 2,
        SYM__EXPRESSION,
        ALIAS_SYM_NAME,
    SYM_SUM, 2,
        SYM_SUM,
        ANON_SYM_IF,
    0,
];

static TS_PRIMARY_STATE_IDS: [StateId; STATE_COUNT] = [
    /* 0 */ 0,
    /* 1 */ 1,
    /* 2 */ 1,
    /* 3 */ 3,
    /* 4 */ 4,
];

"#
    ));
}

#[test]
fn supertypes_are_listed_with_their_subtypes() {
    let text = render("rich", rich()).unwrap();
    assert!(text.contains(
        "static TS_SUPERTYPE_SYMBOLS: [Symbol; SUPERTYPE_COUNT] = [
    SYM__EXPRESSION,
];

static TS_SUPERTYPE_MAP_SLICES: [MapSlice; 11] = [
    MapSlice { index: 0, length: 0 },
    MapSlice { index: 0, length: 0 },
    MapSlice { index: 0, length: 0 },
    MapSlice { index: 0, length: 0 },
    MapSlice { index: 0, length: 0 },
    MapSlice { index: 0, length: 0 },
    MapSlice { index: 0, length: 0 },
    /* SYM__EXPRESSION */ MapSlice { index: 0, length: 4 },
    MapSlice { index: 0, length: 0 },
    MapSlice { index: 0, length: 0 },
    MapSlice { index: 0, length: 0 },
];

static TS_SUPERTYPE_MAP_ENTRIES: [Symbol; 4] = [
    ALIAS_SYM_NAME,
    SYM_COMMENT,
    SYM_IDENTIFIER,
    SYM_SUM,
];

"
    ));
    assert!(text.contains("        supertype_map_entries: &TS_SUPERTYPE_MAP_ENTRIES,\n"));
}

#[test]
fn supertypes_and_reserved_words_need_a_later_abi() {
    let mut parser = rich();
    parser.abi_version = 14;
    let text = render("rich", parser).unwrap();
    assert!(text.contains("const SUPERTYPE_COUNT: usize = 0;\n"));
    assert!(!text.contains("TS_SUPERTYPE_SYMBOLS"));
    assert!(!text.contains("TS_RESERVED_WORDS"));
    assert!(text.contains("const MAX_RESERVED_WORD_SET_SIZE: usize = 2;\n"));
    assert!(text.contains(
        "    /* 1 */ LexMode { lex_state: 4, external_lex_state: 0, reserved_word_set_id: 0 },\n"
    ));
}

#[test]
fn lexers_are_rendered() {
    let text = render("rich", rich()).unwrap();
    assert!(text.contains(
        "            0 => {
                if eof {
                    state = 1;
                    lexer.advance(skip);
                    continue 'next_state;
                }
                if lookahead == '+' as i32 {
                    state = 2;
                    lexer.advance(skip);
                    continue 'next_state;
                }
                if lookahead == 0x09 ||
                        lookahead == 0x0a ||
                        lookahead == ' ' as i32 {
                    skip = true;
                    state = 0;
                    lexer.advance(skip);
                    continue 'next_state;
                }
                if ('a' as i32 <= lookahead && lookahead <= 'z' as i32) {
                    state = 3;
                    lexer.advance(skip);
                    continue 'next_state;
                }
                return result;
            }
            1 => {
                result = true;
                lexer.set_result_symbol(ts_builtin_sym_end);
                lexer.mark_end();
                return result;
            }
"
    ));
    assert!(text.contains("fn ts_lex_keywords(lexer: &mut dyn Lexer, mut state: StateId) -> bool {\n"));
    assert!(text.contains("        keyword_lex_fn: Some(ts_lex_keywords),\n        keyword_capture_token: SYM_IDENTIFIER,\n"));
    assert!(!text.contains("EXTRAS_CHARACTER_SET_1"));
    for i in 0..4 {
        assert!(text.contains(&format!("            {i} => {{\n")));
    }
}

#[test]
fn states_say_how_they_lex_and_what_they_reserve() {
    let text = render("rich", rich()).unwrap();
    assert!(text.contains(
        "static TS_LEX_MODES: [LexMode; STATE_COUNT] = [
    /* 0 */ LexMode { lex_state: 0, external_lex_state: 0, reserved_word_set_id: 0 },
    /* 1 */ LexMode { lex_state: 4, external_lex_state: 0, reserved_word_set_id: 1 },
    /* 2 */ LexMode { lex_state: 0, external_lex_state: 0, reserved_word_set_id: 0 },
    /* 3 */ LexMode { lex_state: StateId::MAX, external_lex_state: 0, reserved_word_set_id: 0 },
    /* 4 */ LexMode { lex_state: 0, external_lex_state: 1, reserved_word_set_id: 2 },
];

static TS_RESERVED_WORDS: [Symbol; 6] = [
    0,
    0,
    /* set 1 */ ANON_SYM_IF,
    0,
    /* set 2 */ SYM_IDENTIFIER,
    /* set 2 */ ANON_SYM_IF,
];

"
    ));
}

#[test]
fn parse_tables_are_rendered() {
    let text = render("rich", rich()).unwrap();
    let start = text.find("static TS_PARSE_TABLE").unwrap();
    let end = text.find("const TS_EXTERNAL_TOKEN_NEWLINE").unwrap();
    assert_eq!(
        &text[start..end],
        "static TS_PARSE_TABLE: [u16; 30] = [
    // State 0
    /* [0][0] */ 0,
    /* [0][1] */ 0,
    /* [0][2] */ 0,
    /* [0][3] */ 0,
    /* [0][4] */ 0,
    /* [0][5] */ 0,
    /* [0][6] */ 0,
    /* [0][7] */ 0,
    /* [0][8] */ 0,
    /* [0][9] */ 0,
    // State 1
    /* [1][0] */ 0,
    /* [1][1] */ 1,
    /* [1][2] */ 0,
    /* [1][3] */ 3,
    /* [1][4] */ 0,
    /* [1][5] */ 5,
    /* [1][6] */ 1,
    /* [1][7] */ 0,
    /* [1][8] */ 2,
    /* [1][9] */ 0,
    // State 2
    /* [2][0] */ 7,
    /* [2][1] */ 1,
    /* [2][2] */ 9,
    /* [2][3] */ 0,
    /* [2][4] */ 0,
    /* [2][5] */ 0,
    /* [2][6] */ 0,
    /* [2][7] */ 3,
    /* [2][8] */ 3,
    /* [2][9] */ 2,
];

static TS_SMALL_PARSE_TABLE: [u16; 15] = [
    /* 0 */ 1,
    /* 1 */ 11,
    /* 2 */ 1,
    /* 3 */ 0,
    /* 4 */ 3,
    /* 5 */ 3,
    /* 6 */ 1,
    /* 7 */ 7,
    /* 8 */ 4,
    /* 9 */ 1,
    /* 10 */ 8,
    /* 11 */ 1,
    /* 12 */ 2,
    /* 13 */ 1,
    /* 14 */ 2,
];

static TS_SMALL_PARSE_TABLE_MAP: [u32; 2] = [
    /* 3 */ 0,
    /* 4 */ 4,
];

static TS_PARSE_ACTIONS: [u32; 14] = [
    /* [0] count=0, reusable=false */ 0,
    /* [1] count=1, reusable=true */ 65537,
    /* SHIFT_EXTRA */ 16777216,
    /* [3] count=1, reusable=false */ 1,
    /* SHIFT_REPEAT(3) */ 33555200,
    /* [5] count=1, reusable=false */ 1,
    /* RECOVER */ 3,
    /* [7] count=1, reusable=true */ 65537,
    /* ACCEPT */ 2,
    /* [9] count=1, reusable=true */ 65537,
    /* SHIFT(1) */ 256,
    /* [11] count=1, reusable=false */ 1,
    /* REDUCE(SYM_SUM, 2, -1, 1) */ 524801, 131071,
];

"
    );
}

#[test]
fn external_tokens_and_scanner_are_rendered() {
    let text = render("rich", rich()).unwrap();
    assert!(text.contains(
        "const TS_EXTERNAL_TOKEN_NEWLINE: usize = 0;
const TS_EXTERNAL_TOKEN_COMMENT: usize = 1;

static TS_EXTERNAL_SCANNER_SYMBOL_MAP: [Symbol; EXTERNAL_TOKEN_COUNT] = [
    /* TS_EXTERNAL_TOKEN_NEWLINE */ SYM_NEWLINE,
    /* TS_EXTERNAL_TOKEN_COMMENT */ SYM_COMMENT,
];

static TS_EXTERNAL_SCANNER_STATES: [bool; 4] = [
    /* [0][0] */ false,
    /* [0][1] */ false,
    /* [1][0] */ true,
    /* [1][1] */ false,
];

/// Returns the tree-sitter [`Language`] for this grammar.
pub fn language() -> &'static Language {
"
    ));
    assert!(text.contains("        metadata: Some(LanguageMetadata { major_version: 1, minor_version: 20, patch_version: 3 }),\n"));
    assert!(text.contains("        name: \"rich\",\n"));
    assert!(text.contains("        external_scanner: Some(&EXTERNAL_SCANNER),\n"));
    assert!(text.ends_with(
        r#"    &LANGUAGE
}

extern "Rust" {
    fn tree_sitter_rich_external_scanner_create() -> *mut u8;
    fn tree_sitter_rich_external_scanner_destroy(state: *mut u8);
    fn tree_sitter_rich_external_scanner_scan(state: *mut u8, lexer: &mut dyn Lexer, valid_symbols: &[bool]) -> bool;
    fn tree_sitter_rich_external_scanner_serialize(state: *mut u8, buffer: &mut [u8; 1024]) -> u32;
    fn tree_sitter_rich_external_scanner_deserialize(state: *mut u8, buffer: &[u8]);
}

static EXTERNAL_SCANNER: ExternalScanner = ExternalScanner {
    states: &TS_EXTERNAL_SCANNER_STATES,
    symbol_map: &TS_EXTERNAL_SCANNER_SYMBOL_MAP,
    create: || unsafe { tree_sitter_rich_external_scanner_create() },
    destroy: |state| unsafe { tree_sitter_rich_external_scanner_destroy(state) },
    scan: |state, lexer, valid| unsafe { tree_sitter_rich_external_scanner_scan(state, lexer, valid) },
    serialize: |state, buffer| unsafe { tree_sitter_rich_external_scanner_serialize(state, buffer) },
    deserialize: |state, buffer| unsafe { tree_sitter_rich_external_scanner_deserialize(state, buffer) },
};
"#
    ));
}

#[test]
fn external_scanner_without_states_has_none() {
    let mut parser = rich();
    parser.tables.parse_table.external_lex_states = vec![];
    let text = render("rich", parser).unwrap();
    assert!(text.contains("static TS_EXTERNAL_SCANNER_STATES: [bool; 1] = [\n    false,\n];\n"));
    assert!(text.contains("    states: &[],\n"));
}

#[test]
fn alias_sequences_without_aliases_hold_a_zero() {
    let mut parser = minimal();
    parser.tables.parse_table.production_infos =
        vec![ProductionInfo { alias_sequence: vec![], field_map: vec![] }];
    let text = render("minimal", parser).unwrap();
    assert!(text.contains("static TS_ALIAS_SEQUENCES: [Symbol; 1] = [\n    0,\n];\n"));
    assert!(text.contains("        alias_sequences: &TS_ALIAS_SEQUENCES,\n"));
}

#[test]
fn parser_without_states_has_an_empty_table() {
    let mut parser = minimal();
    parser.tables.parse_table.states = vec![];
    let text = render("minimal", parser).unwrap();
    assert!(text.contains("static TS_PARSE_TABLE: [u16; 1] = [\n    0,\n];\n"));
    assert!(text.contains("        small_parse_table: &[],\n"));
    assert!(text.contains("static TS_PARSE_ACTIONS: [u32; 1] = [\n    /* [0] count=0, reusable=false */ 0,\n];\n"));
}

#[test]
fn tokens_with_one_name_are_shown_as_the_first() {
    let mut parser = minimal();
    parser.lexical_grammar.variables.push(token("a", VariableType::Anonymous));
    parser.tables.parse_table.symbols.push(Symbol::terminal(1));
    let text = render("minimal", parser).unwrap();
    assert!(text.contains("const ANON_SYM_A_1: Symbol = 3;\n"));
    assert!(text.contains(
        "static TS_SYMBOL_MAP: [Symbol; 4] = [
    /* ts_builtin_sym_end */ ts_builtin_sym_end,
    /* ANON_SYM_A */ ANON_SYM_A,
    /* SYM_PROGRAM */ SYM_PROGRAM,
    /* ANON_SYM_A_1 */ ANON_SYM_A,
];
"
    ));
}

#[test]
fn default_aliases_are_shown_as_the_symbol_that_has_the_name() {
    let mut parser = minimal();
    parser.default_aliases.insert(Symbol::terminal(0), alias("program", true));
    let text = render("minimal", parser).unwrap();
    assert!(text.contains("    /* ANON_SYM_A */ SYM_PROGRAM,\n"));
    assert!(text.contains("    /* ANON_SYM_A */ \"program\",\n"));
}

/// The minimal parser with one lex state that has the given transitions.
fn with_transitions(
    advance_actions: Vec<(CharacterSet, AdvanceAction)>,
    large_character_sets: Vec<(Option<Symbol>, CharacterSet)>,
) -> String {
    let mut parser = minimal();
    parser.tables.main_lex_table = LexTable { states: vec![lex_state(None, advance_actions)] };
    parser.tables.large_character_sets = large_character_sets;
    render("minimal", parser).unwrap()
}

fn every_fourth(start: u32, count: u32) -> Vec<(u32, u32)> {
    (0..count).map(|k| (start + 4 * k, start + 4 * k + 1)).collect()
}

#[test]
fn leading_transitions_are_looked_up_in_a_table() {
    let mut ranges = every_fourth(40, 7);
    ranges.push((100, 102));
    let text = with_transitions(
        vec![(set(&ranges), step(1)), (set(&[(65, 67)]), step(2)), (set(&[(100, 107)]), step(3))],
        vec![],
    );
    assert!(text.contains(
        "            0 => {
                const ADVANCE_MAP: &[(i32, StateId)] = &[
                    ('(' as i32, 1),
                    (',' as i32, 1),
                    ('0' as i32, 1),
                    ('4' as i32, 1),
                    ('8' as i32, 1),
                    ('<' as i32, 1),
                    ('@' as i32, 1),
                    ('d' as i32, 1),
                    ('e' as i32, 1),
                    ('A' as i32, 2),
                    ('B' as i32, 2),
                ];
                for &(ch, next) in ADVANCE_MAP {
                    if lookahead == ch {
                        state = next;
                        lexer.advance(skip);
                        continue 'next_state;
                    }
                }
                if ('d' as i32 <= lookahead && lookahead <= 'j' as i32) {
                    state = 3;
                    lexer.advance(skip);
                    continue 'next_state;
                }
                return result;
            }
"
    ));
}

#[test]
fn few_leading_transitions_are_tested_one_by_one() {
    let text = with_transitions(vec![(set(&every_fourth(40, 7)), step(1))], vec![]);
    assert!(!text.contains("ADVANCE_MAP"));
    let text = with_transitions(vec![(set(&every_fourth(40, 8)), step(1))], vec![]);
    assert!(text.contains("ADVANCE_MAP"));
    let skipping = AdvanceAction { state: 1, in_main_token: false };
    let text = with_transitions(vec![(set(&every_fourth(40, 8)), skipping)], vec![]);
    assert!(!text.contains("ADVANCE_MAP"));
}

#[test]
fn large_sets_are_searched_with_additions_and_removals() {
    let mut wanted = every_fourth(128, 9);
    wanted.insert(0, (97, 101));
    let mut large = every_fourth(128, 8);
    large.insert(0, (97, 101));
    large.push((200, 201));
    let text = with_transitions(
        vec![(set(&wanted), step(1))],
        vec![(None, set(&[(97, 98)])), (Some(Symbol::terminal(0)), set(&large))],
    );
    assert!(text.contains(
        "                if (set_contains(&ANON_SYM_A_CHARACTER_SET_1, lookahead) ||
                        lookahead == 0xa0) &&
                        lookahead != 0xc8 {
                    state = 1;
"
    ));
    assert!(text.contains(
        "static ANON_SYM_A_CHARACTER_SET_1: [CharacterRange; 10] = [
    CharacterRange { start: 'a' as i32, end: 'd' as i32 },
    CharacterRange { start: 0x80, end: 0x80 },
"
    ));
    assert!(text.contains("    CharacterRange { start: 0xc8, end: 0xc8 },\n];\n\nfn ts_lex("));
    assert!(!text.contains("EXTRAS_CHARACTER_SET"));
}

#[test]
fn the_last_of_equally_good_large_sets_is_used() {
    let mut wanted = every_fourth(128, 9);
    wanted.insert(0, (97, 101));
    let text = with_transitions(
        vec![(set(&wanted), step(1))],
        vec![(None, set(&wanted)), (None, set(&wanted)), (None, set(&[(97, 98)]))],
    );
    assert!(text.contains("                if set_contains(&EXTRAS_CHARACTER_SET_2, lookahead) {\n"));
    assert!(text.contains("static EXTRAS_CHARACTER_SET_2: [CharacterRange; 10] = [\n"));
    assert!(!text.contains("EXTRAS_CHARACTER_SET_1"));
}

#[test]
fn large_sets_with_null_are_not_searched_at_the_end() {
    let mut wanted = every_fourth(128, 9);
    wanted.insert(0, (0, 9));
    let text = with_transitions(vec![(set(&wanted), step(1))], vec![(None, set(&wanted))]);
    assert!(text.contains(
        "                if (!eof && set_contains(&EXTRAS_CHARACTER_SET_1, lookahead)) {\n"
    ));
}

#[test]
fn sets_up_to_the_last_character_are_tested_by_what_they_leave_out() {
    let text = with_transitions(vec![(set(&[(1, 10), (11, 0x110000)]), step(1))], vec![]);
    assert!(text.contains(
        "                if lookahead != 0 &&
                        lookahead != 0x0a {
                    state = 1;
"
    ));
}

#[test]
fn characters_of_earlier_transitions_are_ignored() {
    let text = with_transitions(
        vec![
            (set(&[(99, 100)]), step(1)),
            (set(&[(97, 99), (100, 103)]), step(2)),
        ],
        vec![],
    );
    assert!(text.contains("                if ('a' as i32 <= lookahead && lookahead <= 'f' as i32) {\n"));
}

#[test]
fn transitions_without_new_characters_are_taken_always() {
    let text = with_transitions(
        vec![(set(&[(97, 123)]), step(1)), (set(&[(100, 103)]), step(2))],
        vec![],
    );
    assert!(text.contains(
        "                }
                state = 2;
                lexer.advance(skip);
                continue 'next_state;
                return result;
"
    ));
}

#[test]
fn fields_are_sorted_by_name_and_maps_are_shared() {
    let at = |index: usize| FieldLocation { index, inherited: false };
    let field = |name: &str, locations: Vec<FieldLocation>| (name.to_string(), locations);
    let info = |field_map| ProductionInfo { alias_sequence: vec![], field_map };
    let mut parser = minimal();
    parser.tables.parse_table.production_infos = vec![
        info(vec![field("value", vec![at(1)])]),
        info(vec![field("name", vec![at(0)]), field("value", vec![at(1)])]),
        info(vec![field("body", vec![])]),
        info(vec![field("value", vec![at(1)])]),
    ];
    let text = render("minimal", parser).unwrap();
    assert!(text.contains(
        "const FIELD_BODY: FieldId = 1;
const FIELD_NAME: FieldId = 2;
const FIELD_VALUE: FieldId = 3;

"
    ));
    assert!(text.contains(
        "    /* 0 */ MapSlice { index: 0, length: 1 },
    /* 1 */ MapSlice { index: 1, length: 2 },
    /* 2 */ MapSlice { index: 0, length: 0 },
    /* 3 */ MapSlice { index: 0, length: 1 },
];

static TS_FIELD_MAP_ENTRIES: [FieldMapEntry; 3] = [
    FieldMapEntry { field_id: FIELD_VALUE, child_index: 1, inherited: false },
    FieldMapEntry { field_id: FIELD_NAME, child_index: 0, inherited: false },
    FieldMapEntry { field_id: FIELD_VALUE, child_index: 1, inherited: false },
];
"
    ));
}

#[test]
fn aliases_are_sorted_and_told_apart_by_kind() {
    let mut parser = minimal();
    parser.tables.parse_table.max_aliased_production_length = 4;
    parser.tables.parse_table.production_infos = vec![ProductionInfo {
        alias_sequence: vec![
            Some(alias("z-index", true)),
            Some(alias("b", true)),
            Some(alias("b", false)),
            Some(alias("a", false)),
        ],
        field_map: vec![],
    }];
    let text = render("minimal", parser).unwrap();
    assert!(text.contains(
        "const SYM_PROGRAM: Symbol = 2;
const ANON_ALIAS_SYM_B: Symbol = 3;
const ALIAS_SYM_B: Symbol = 4;
const ALIAS_SYM_Z_DASH_INDEX: Symbol = 5;

"
    ));
    assert!(text.contains("    /* [0][3] */ ANON_SYM_A,\n"));
    assert!(text.contains("const ALIAS_COUNT: usize = 3;\n"));
    assert!(text.contains("    /* ANON_ALIAS_SYM_B */ SymbolMetadata { visible: true, named: false, supertype: false },\n"));
}

#[test]
fn supertypes_without_known_subtypes_hold_a_zero() {
    let mut parser = minimal();
    parser.abi_version = 15;
    parser.supertypes.insert(Symbol::non_terminal(0), vec![]);
    parser.supertypes.insert(Symbol::non_terminal(5), vec![]);
    let text = render("minimal", parser).unwrap();
    assert!(text.contains("const SUPERTYPE_COUNT: usize = 1;\n"));
    assert_eq!(
        rows(&text, "static TS_SUPERTYPE_MAP_SLICES: [MapSlice; 3]"),
        vec![
            "MapSlice { index: 0, length: 0 },",
            "MapSlice { index: 0, length: 0 },",
            "/* SYM_PROGRAM */ MapSlice { index: 0, length: 0 },",
        ]
    );
    assert!(text.contains("static TS_SUPERTYPE_MAP_ENTRIES: [Symbol; 1] = [\n    0,\n];\n"));
}

#[test]
fn a_token_is_shown_as_itself_where_its_twin_is_shown_as_it() {
    let mut parser = minimal();
    parser.lexical_grammar.variables.push(token("a", VariableType::Anonymous));
    parser.tables.parse_table.symbols.push(Symbol::terminal(1));
    parser.default_aliases.insert(Symbol::terminal(0), alias("a", false));
    let text = render("minimal", parser).unwrap();
    assert!(text.contains("    /* ANON_SYM_A */ ANON_SYM_A_1,\n"));
    assert!(text.contains("    /* ANON_SYM_A_1 */ ANON_SYM_A_1,\n"));
}

#[test]
fn symbols_with_one_default_alias_are_shown_as_the_least() {
    let mut parser = minimal();
    parser.lexical_grammar.variables.push(token("b", VariableType::Anonymous));
    parser.tables.parse_table.symbols.insert(1, Symbol::terminal(1));
    parser.default_aliases.insert(Symbol::terminal(0), alias("c", true));
    parser.default_aliases.insert(Symbol::terminal(1), alias("c", true));
    let text = render("minimal", parser).unwrap();
    assert!(text.contains("    /* ANON_SYM_B */ ANON_SYM_A,\n    /* ANON_SYM_A */ ANON_SYM_A,\n"));
}

#[test]
fn parse_actions_can_be_read_back() {
    let mut parser = minimal();
    let program = Symbol::non_terminal(0);
    let reduce = ParseAction::Reduce {
        symbol: program,
        child_count: 255,
        dynamic_precedence: -32768,
        production_id: 65535,
    };
    parser.tables.parse_table.states[0].terminal_entries.push((
        Symbol::end(),
        entry(
            vec![ParseAction::Shift { state: 0xffff, is_repetition: true }, reduce],
            true,
        ),
    ));
    let text = render("minimal", parser).unwrap();
    let head: u32 = 65538;
    let shift: u32 = 0x2ff_ff00;
    let first: u32 = 0x2_ff01;
    let second: u32 = 0xffff_8000;
    assert!(text.contains(&format!(
        "    /* [1] count=2, reusable=true */ {head},
    /* SHIFT_REPEAT(65535) */ {shift},
    /* REDUCE(SYM_PROGRAM, 255, -32768, 65535) */ {first}, {second},
"
    )));
    assert_eq!((head & 0xffff, head & 0x1_0000), (2, 0x1_0000));
    assert_eq!((shift & 0xff, (shift >> 8) & 0xffff), (0, 0xffff));
    assert_eq!((shift & 0x100_0000, shift & 0x200_0000), (0, 0x200_0000));
    assert_eq!((first & 0xff, (first >> 8) & 0xff, first >> 16), (1, 255, 2));
    assert_eq!((second & 0xffff) as u16 as i16, -32768);
    assert_eq!(second >> 16, 65535);
}

#[test]
fn states_beyond_sixteen_bits_are_cut_off() {
    let mut parser = minimal();
    parser.tables.parse_table.states[1].nonterminal_entries[0].1 = GotoAction::Goto(65539);
    let text = render("minimal", parser).unwrap();
    assert!(text.contains("    /* [1][2] */ 3,\n"));
}

#[test]
fn rendered_sets_can_be_searched() {
    let characters = set(&[(97, 101), (128, 129), (0xD7F0, 0xE010), (0x1f600, 0x1f650)]);
    let ranges: Vec<CharacterRange> = characters
        .character_ranges()
        .into_iter()
        .map(|(start, end)| CharacterRange { start: start as i32, end: end as i32 })
        .collect();
    for c in [0, 96, 97, 100, 101, 127, 128, 129, 0xD7EF, 0xD7F0, 0xE00F, 0xE010, 0x1f64f, 0x1f650]
    {
        assert_eq!(set_contains(&ranges, c as i32), characters.contains(c));
    }
}

/// The rows of an array, without white space around them.
fn rows<'a>(text: &'a str, head: &str) -> Vec<&'a str> {
    let start = text.find(head).unwrap();
    text[start..].lines().skip(1).take_while(|row| *row != "];").map(|row| row.trim()).collect()
}

#[test]
fn constants_are_places_in_the_lists() {
    let text = render("rich", rich()).unwrap();
    let mut seen = Vec::new();
    for line in text.lines() {
        let Some((head, number)) = line.split_once(": Symbol = ") else { continue };
        let id = head.strip_prefix("const ").unwrap();
        let number: usize = number.trim_end_matches(';').parse().unwrap();
        for list in ["TS_SYMBOL_NAMES", "TS_SYMBOL_MAP", "TS_SYMBOL_METADATA"] {
            let rows = rows(&text, &format!("static {list}"));
            assert_eq!(rows.len(), 11);
            assert!(rows[number].starts_with(&format!("/* {id} */ ")));
        }
        assert!(!seen.contains(&id));
        seen.push(id);
    }
    assert_eq!(seen.len(), 10);
}

#[test]
fn compact_states_begin_where_the_map_says() {
    let text = render("rich", rich()).unwrap();
    let value = |row: &str| -> usize {
        row.split("*/ ").nth(1).unwrap().trim_end_matches(',').parse().unwrap()
    };
    let table: Vec<usize> =
        rows(&text, "static TS_SMALL_PARSE_TABLE:").iter().map(|row| value(row)).collect();
    let map: Vec<usize> =
        rows(&text, "static TS_SMALL_PARSE_TABLE_MAP:").iter().map(|row| value(row)).collect();
    let mut place = map[1];
    let mut entries = Vec::new();
    let groups = table[place];
    place += 1;
    for _ in 0..groups {
        let (leads_to, count) = (table[place], table[place + 1]);
        for k in 0..count {
            entries.push((table[place + 2 + k], leads_to));
        }
        place += 2 + count;
    }
    assert_eq!(place, table.len());
    assert_eq!(entries, vec![(7, 3), (8, 4), (1, 1), (2, 1)]);
}

#[test]
fn large_sets_of_one_symbol_are_numbered() {
    let mut first = every_fourth(128, 9);
    first.insert(0, (97, 101));
    let mut second = every_fourth(300, 9);
    second.insert(0, (110, 121));
    let symbol = Some(Symbol::terminal(0));
    let text = with_transitions(
        vec![(set(&first), step(1)), (set(&second), step(2))],
        vec![(symbol, set(&first)), (None, set(&[(5, 6)])), (symbol, set(&second))],
    );
    assert!(text.contains("if set_contains(&ANON_SYM_A_CHARACTER_SET_1, lookahead) {\n"));
    assert!(text.contains("if set_contains(&ANON_SYM_A_CHARACTER_SET_2, lookahead) {\n"));
}

/// The values of an array, without its comments.
fn values<'a>(text: &'a str, head: &str) -> Vec<&'a str> {
    let mut found = Vec::new();
    for row in rows(text, head) {
        if row.starts_with("//") {
            continue;
        }
        let listed = row.split_once("*/ ").map_or(row, |(_, listed)| listed);
        found.extend(listed.split(',').map(|value| value.trim()).filter(|value| !value.is_empty()));
    }
    found
}

/// The length that an array is declared with.
fn declared_len(text: &str, name: &str) -> usize {
    let start = text.find(&format!("static {name}: [")).unwrap();
    let line = text[start..].lines().next().unwrap();
    let len = line.split_once("; ").unwrap().1.split_once(']').unwrap().0;
    len.parse().unwrap()
}

#[test]
fn arrays_have_as_many_values_as_declared() {
    let text = render("rich", rich()).unwrap();
    for name in [
        "TS_NON_TERMINAL_ALIAS_MAP",
        "TS_PARSE_ACTIONS",
        "TS_PARSE_TABLE",
        "TS_SMALL_PARSE_TABLE",
        "TS_SMALL_PARSE_TABLE_MAP",
        "TS_ALIAS_SEQUENCES",
        "TS_RESERVED_WORDS",
        "TS_SUPERTYPE_MAP_ENTRIES",
        "TS_EXTERNAL_SCANNER_STATES",
    ] {
        let listed = values(&text, &format!("static {name}:"));
        assert_eq!(listed.len(), declared_len(&text, name), "{name}");
    }
    let slices = rows(&text, "static TS_SUPERTYPE_MAP_SLICES:");
    assert_eq!(slices.len(), declared_len(&text, "TS_SUPERTYPE_MAP_SLICES"));
}

#[test]
fn tables_give_the_places_of_heads() {
    let text = render("minimal", minimal()).unwrap();
    let actions: Vec<u32> = values(&text, "static TS_PARSE_ACTIONS:")
        .iter()
        .map(|value| value.parse().unwrap())
        .collect();
    let table: Vec<usize> = values(&text, "static TS_PARSE_TABLE:")
        .iter()
        .map(|value| value.parse().unwrap())
        .collect();
    let small: Vec<usize> = values(&text, "static TS_SMALL_PARSE_TABLE:")
        .iter()
        .map(|value| value.parse().unwrap())
        .collect();
    assert_eq!(actions, vec![0, 65537, 512, 65537, 131329, 0, 65537, 2]);
    // State 1 shifts on the token with number 1, of three symbols.
    assert_eq!(actions[table[3 + 1]..][..2], [65537, 512]);
    // State 2 reduces at the end, and state 3 accepts.
    assert_eq!(actions[small[1]..][..3], [65537, 131329, 0]);
    assert_eq!(actions[small[5]..][..2], [65537, 2]);
}

/// The values that an action is stored as, in a list of its own.
fn codes(action: ParseAction) -> Vec<String> {
    let mut parser = minimal();
    parser.tables.parse_table.states[0].terminal_entries.push((
        Symbol::end(),
        entry(vec![action, ParseAction::ShiftExtra], false),
    ));
    let text = render("minimal", parser).unwrap();
    let listed = values(&text, "static TS_PARSE_ACTIONS:");
    assert_eq!(listed[1], "2");
    let end = listed.iter().position(|value| *value == "16777216").unwrap();
    listed[2..end].iter().map(|value| value.to_string()).collect()
}

#[test]
fn different_actions_are_stored_differently() {
    let reduce = |symbol, child_count, dynamic_precedence, production_id| ParseAction::Reduce {
        symbol,
        child_count,
        dynamic_precedence,
        production_id,
    };
    let a = Symbol::terminal(0);
    let program = Symbol::non_terminal(0);
    let mut actions = vec![
        ParseAction::Accept,
        ParseAction::Recover,
        reduce(program, 3, -1, 4),
        reduce(a, 3, -1, 4),
        reduce(program, 2, -1, 4),
        reduce(program, 3, 1, 4),
        reduce(program, 3, -1, 5),
    ];
    for state in [0, 1, 2, 3, 256, 257, 65535] {
        actions.push(shift(state));
        actions.push(ParseAction::Shift { state, is_repetition: true });
    }
    let stored: Vec<Vec<String>> = actions.iter().map(|action| codes(*action)).collect();
    for i in 0..stored.len() {
        for j in 0..i {
            assert_ne!(stored[i], stored[j]);
        }
    }
    assert_eq!(stored[0], vec!["2"]);
    assert_eq!(stored[1], vec!["3"]);
    assert_eq!(stored[2], vec!["131841", "327679"]);
}

#[test]
fn compact_states_tell_tokens_and_nonterminals_apart() {
    let mut parser = minimal();
    let a = Symbol::terminal(0);
    let program = Symbol::non_terminal(0);
    let variables = &mut parser.lexical_grammar.variables;
    variables.push(token("b", VariableType::Anonymous));
    parser.tables.parse_table.symbols.push(Symbol::terminal(1));
    parser.tables.parse_table.states[3] = state(
        vec![(a, entry(vec![shift(2)], true))],
        vec![(program, GotoAction::Goto(3))],
        3,
    );
    let text = render("minimal", parser).unwrap();
    assert_eq!(values(&text, "static TS_SMALL_PARSE_TABLE:")[4..], ["2", "1", "1", "1", "3", "1", "2"]);
}

#[test]
fn symbols_that_are_spoken_of_are_declared_or_imported() {
    let text = render("rich", rich()).unwrap();
    let mut known = Vec::new();
    for line in text.lines() {
        if let Some((head, _)) = line.split_once(": Symbol = ") {
            known.push(head.strip_prefix("const ").unwrap());
        }
        if let Some((_, id)) = line.split_once("use tree_sitter_runtime::BUILTIN_SYM_END as ") {
            known.push(id.trim_end_matches(';'));
        }
    }
    for name in [
        "TS_SYMBOL_MAP",
        "TS_ALIAS_SEQUENCES",
        "TS_NON_TERMINAL_ALIAS_MAP",
        "TS_SUPERTYPE_SYMBOLS",
        "TS_SUPERTYPE_MAP_ENTRIES",
        "TS_RESERVED_WORDS",
        "TS_EXTERNAL_SCANNER_SYMBOL_MAP",
    ] {
        for value in values(&text, &format!("static {name}:")) {
            assert!(known.contains(&value) || value.parse::<u16>().is_ok(), "{value}");
        }
    }
    for line in text.lines() {
        if let Some(value) = line.trim().strip_prefix("lexer.set_result_symbol(") {
            assert!(known.contains(&value.trim_end_matches(");")));
        }
    }
}

#[test]
fn quotes_and_backslashes_are_escaped_in_tests_on_characters() {
    let text = with_transitions(
        vec![(set(&[(39, 40)]), step(1)), (set(&[(92, 93)]), step(2))],
        vec![],
    );
    assert!(text.contains(r"if lookahead == '\'' as i32 {"));
    assert!(text.contains(r"if lookahead == '\\' as i32 {"));
    let text = with_transitions(
        vec![(set(&[(1, 97), (123, 0x110000)]), step(1))],
        vec![],
    );
    assert!(text.contains("(lookahead < 'a' as i32 || ('z' as i32) < lookahead) {"));
}

#[test]
fn large_sets_have_as_many_rows_as_declared() {
    let mut wanted = every_fourth(128, 9);
    wanted.insert(0, (97, 101));
    wanted.push((0xD800, 0xD900));
    let text = with_transitions(vec![(set(&wanted), step(1))], vec![(None, set(&wanted))]);
    let listed = rows(&text, "static EXTRAS_CHARACTER_SET_1:");
    assert_eq!(listed.len(), 10);
    assert!(text.contains("static EXTRAS_CHARACTER_SET_1: [CharacterRange; 10] = [\n"));
}
