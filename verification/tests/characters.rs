use tree_sitter_render::nfa::{CharacterSet, CodepointRange};
use tree_sitter_render::render_rust::conditions::{character_i32, character_range_conditions};
use tree_sitter_render::rules::{insert_symbol, Alias, Symbol, SymbolMap, TokenSet};

fn set(ranges: &[(u32, u32)]) -> CharacterSet {
    CharacterSet {
        ranges: ranges.iter().map(|&(start, end)| CodepointRange { start, end }).collect(),
    }
}

#[test]
fn sets_are_combined() {
    let a = set(&[(97, 103), (110, 113)]);
    let b = set(&[(100, 111)]);
    assert_eq!(a.intersection(&b), set(&[(100, 103), (110, 111)]));
    assert_eq!(a.difference(&b), set(&[(97, 100), (111, 113)]));
    assert_eq!(a.add(&b), set(&[(97, 113)]));
    assert_eq!(a.negate(), set(&[(0, 97), (103, 110), (113, 0x110000)]));
    assert_eq!(a.negate().negate(), a);
    assert_eq!(CharacterSet::empty().negate(), set(&[(0, 0x110000)]));
    assert_eq!(CharacterSet::from_codepoints(5, 6), set(&[(5, 6)]));
}

#[test]
fn sets_know_their_characters() {
    let a = set(&[(97, 103), (110, 113)]);
    assert!(a.contains(97) && a.contains(102) && a.contains(112));
    assert!(!a.contains(96) && !a.contains(103) && !a.contains(113));
    assert!(a.contains_codepoint_range(98, 103));
    assert!(!a.contains_codepoint_range(98, 104));
    assert!(CharacterSet::empty().is_empty() && !a.is_empty());
    assert_eq!(a.range_count(), 2);
}

#[test]
fn simplified_sets_join_ranges_across_ignored_characters() {
    let a = set(&[(97, 99), (100, 103), (110, 113), (120, 121)]);
    let ignored = set(&[(99, 100), (120, 121)]);
    assert_eq!(a.simplify_ignoring(&ignored), set(&[(97, 103), (110, 113)]));
    assert_eq!(a.simplify_ignoring(&CharacterSet::empty()), a);
    assert_eq!(a.simplify_ignoring(&set(&[(0, 0x110000)])), CharacterSet::empty());
}

#[test]
fn character_ranges_leave_out_surrogates() {
    assert_eq!(set(&[(97, 99)]).character_ranges(), vec![(97, 98)]);
    assert_eq!(set(&[(0xD7FE, 0xD900)]).character_ranges(), vec![(0xD7FE, 0xD7FF)]);
    assert_eq!(set(&[(0xD900, 0xE001)]).character_ranges(), vec![(0xE000, 0xE000)]);
    assert_eq!(set(&[(0xD800, 0xDA00)]).character_ranges(), vec![]);
    assert_eq!(set(&[(0xD000, 0xE100)]).character_ranges(), vec![(0xD000, 0xE0FF)]);
}

#[test]
fn characters_are_shown_as_literals_or_numbers() {
    assert_eq!(character_i32('a' as u32), "'a' as i32");
    assert_eq!(character_i32(' ' as u32), "' ' as i32");
    assert_eq!(character_i32('~' as u32), "'~' as i32");
    assert_eq!(character_i32('\\' as u32), "'\\\\' as i32");
    assert_eq!(character_i32('\'' as u32), "'\\'' as i32");
    assert_eq!(character_i32('"' as u32), "'\"' as i32");
    assert_eq!(character_i32(0), "0");
    assert_eq!(character_i32('\n' as u32), "0x0a");
    assert_eq!(character_i32(0x7f), "0x7f");
    assert_eq!(character_i32(0x1f600), "0x1f600");
}

#[test]
fn included_ranges_are_alternatives() {
    assert_eq!(
        character_range_conditions(&set(&[(97, 98), (99, 101), (102, 107)]), true, "\n  "),
        "lookahead == 'a' as i32 ||\n  lookahead == 'c' as i32 ||\n  lookahead == 'd' as i32 ||\n  ('f' as i32 <= lookahead && lookahead <= 'j' as i32)"
    );
    assert_eq!(
        character_range_conditions(&set(&[(0, 10), (97, 98)]), true, " "),
        "(!eof && lookahead <= 0x09) || lookahead == 'a' as i32"
    );
    assert_eq!(
        character_range_conditions(&set(&[(0, 1)]), true, " "),
        "(!eof && lookahead == 00)"
    );
    assert_eq!(character_range_conditions(&CharacterSet::empty(), true, " "), "");
}

#[test]
fn excluded_ranges_must_all_be_missed() {
    assert_eq!(
        character_range_conditions(&set(&[(0, 11), (97, 98), (99, 101), (102, 107)]), false, "\n  "),
        "lookahead > 0x0a &&\n  lookahead != 'a' as i32 &&\n  lookahead != 'c' as i32 &&\n  lookahead != 'd' as i32 &&\n  (lookahead < 'f' as i32 || ('j' as i32) < lookahead)"
    );
    assert_eq!(
        character_range_conditions(&set(&[(97, 0x80), (0x90, 0xa0)]), false, " "),
        "(lookahead < 'a' as i32 || 0x7f < lookahead) && (lookahead < 0x90 || 0x9f < lookahead)"
    );
    assert_eq!(character_range_conditions(&set(&[(0, 1)]), false, " "), "lookahead != 0");
    assert_eq!(
        character_range_conditions(&set(&[(0, 2)]), false, " "),
        "lookahead != 0 && lookahead != 0x01"
    );
}

#[test]
fn symbols_are_ordered_by_kind_and_index() {
    let mut symbols: Vec<Symbol> = Vec::new();
    for symbol in [
        Symbol::non_terminal(0),
        Symbol::terminal(3),
        Symbol::external(7),
        Symbol::end(),
        Symbol::terminal(1),
        Symbol::end_of_nonterminal_extra(),
        Symbol::terminal(3),
    ] {
        insert_symbol(&mut symbols, symbol);
    }
    assert_eq!(
        symbols,
        vec![
            Symbol::external(7),
            Symbol::end(),
            Symbol::end_of_nonterminal_extra(),
            Symbol::terminal(1),
            Symbol::terminal(3),
            Symbol::non_terminal(0),
        ]
    );
    assert!(Symbol::terminal(3) < Symbol::non_terminal(0));
    assert!(Symbol::terminal(1).is_less(&Symbol::terminal(3)));
}

#[test]
fn symbol_maps_keep_the_last_value() {
    let mut map: SymbolMap<Alias> = SymbolMap::new();
    let alias = |value: &str| Alias { value: value.to_string(), is_named: true };
    map.insert(Symbol::terminal(2), alias("b"));
    map.insert(Symbol::terminal(1), alias("a"));
    map.insert(Symbol::terminal(2), alias("c"));
    assert_eq!(map.entries.len(), 2);
    assert_eq!(map.get(Symbol::terminal(1)).unwrap().value, "a");
    assert_eq!(map.get(Symbol::terminal(2)).unwrap().value, "c");
    assert!(map.get(Symbol::external(2)).is_none());
}

#[test]
fn token_sets_list_terminals_first() {
    let mut tokens = TokenSet::new();
    tokens.insert(Symbol::end());
    tokens.insert(Symbol::external(0));
    tokens.insert(Symbol::terminal(5));
    tokens.insert(Symbol::terminal(2));
    tokens.insert(Symbol::terminal(5));
    assert_eq!(
        tokens.tokens,
        vec![Symbol::terminal(2), Symbol::terminal(5), Symbol::external(0), Symbol::end()]
    );
    assert_eq!(tokens.len(), 4);
    assert!(tokens.equals(&tokens.clone()));
    assert!(!tokens.equals(&TokenSet::new()));
}
