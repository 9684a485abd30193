use tree_sitter_render::runtime::{set_contains, CharacterRange, ExternalScanner};

fn ranges() -> Vec<CharacterRange> {
    vec![
        CharacterRange { start: 48, end: 57 },
        CharacterRange { start: 65, end: 90 },
        CharacterRange { start: 97, end: 122 },
    ]
}

#[test]
fn set_contains_finds_members_of_sorted_ranges() {
    let set = ranges();
    for c in 0..200 {
        let expected = set.iter().any(|r| r.start <= c && c <= r.end);
        assert_eq!(set_contains(&set, c), expected, "{c}");
    }
}

#[test]
fn set_contains_of_no_ranges_is_false() {
    assert!(!set_contains(&[], 0));
}

#[test]
fn external_states_are_flat() {
    const STATES: [bool; 4] = [false, false, true, false];
    let scanner = ExternalScanner {
        states: &STATES,
        symbol_map: &[5, 4],
        create: (),
        destroy: (),
        scan: (),
        serialize: (),
        deserialize: (),
    };
    let token_count = scanner.symbol_map.len();
    assert!(scanner.states[token_count]);
    assert!(!scanner.states[token_count + 1]);
}
