use tree_sitter_render::grammars::VariableType;
use tree_sitter_render::order::{insert_text, is_same_text, is_text_less};
use tree_sitter_render::render_rust::input::ParserInput;
use tree_sitter_render::render_rust::names::{
    external_token_id, field_id, push_character, sanitize_identifier, sanitize_string,
};
use tree_sitter_render::text::{
    count_text, decimal_text, indent_text, padded_hexadecimal_text, signed_text, truth_text,
    TextList,
};

fn list(items: &[&str]) -> TextList {
    let mut r = TextList::new();
    for item in items {
        r.push(item.to_string());
    }
    r
}

#[test]
fn identifiers_keep_letters_digits_and_underscores() {
    assert_eq!(sanitize_identifier("binary_expression2"), "binary_expression2");
    assert_eq!(sanitize_identifier("größe"), "größe");
    assert_eq!(sanitize_identifier("_hidden"), "_hidden");
}

#[test]
fn identifiers_spell_out_punctuation() {
    assert_eq!(sanitize_identifier("+"), "PLUS");
    assert_eq!(sanitize_identifier("a+b"), "a_PLUS_b");
    assert_eq!(sanitize_identifier("=>"), "EQ_GT");
    assert_eq!(sanitize_identifier("a_-"), "a_DASH");
    assert_eq!(sanitize_identifier("\"\\'"), "DQUOTE_BSLASH_SQUOTE");
    assert_eq!(sanitize_identifier("\t\r\n"), "TAB_CR_LF");
    assert_eq!(
        sanitize_identifier("~`!@#$%^&*()-+={}[]\\|:;'\"<>,.?/"),
        "TILDE_BQUOTE_BANG_AT_POUND_DOLLAR_PERCENT_CARET_AMP_STAR_LPAREN_RPAREN_DASH_PLUS_EQ_LBRACE_RBRACE_LBRACK_RBRACK_BSLASH_PIPE_COLON_SEMI_SQUOTE_DQUOTE_LT_GT_COMMA_DOT_QMARK_SLASH"
    );
}

#[test]
fn identifiers_drop_other_characters_and_one_last_underscore() {
    assert_eq!(sanitize_identifier("a b"), "ab");
    assert_eq!(sanitize_identifier(" "), "");
    assert_eq!(sanitize_identifier(""), "");
    assert_eq!(sanitize_identifier("a_"), "a");
    assert_eq!(sanitize_identifier("a__"), "a_");
}

#[test]
fn characters_are_pushed_as_their_class_says() {
    let mut identifier: Vec<char> = vec!['x'];
    push_character(&mut identifier, '+', false);
    assert_eq!(identifier, vec!['x', '_', 'P', 'L', 'U', 'S', '_']);
    push_character(&mut identifier, '+', true);
    push_character(&mut identifier, ' ', false);
    assert_eq!(identifier, vec!['x', '_', 'P', 'L', 'U', 'S', '_', '+']);
}

#[test]
fn strings_are_escaped() {
    assert_eq!(sanitize_string("if"), "if");
    assert_eq!(sanitize_string("\"\\"), "\\\"\\\\");
    assert_eq!(sanitize_string("\n\r\t\0"), "\\n\\r\\t\\0");
    assert_eq!(sanitize_string("\u{1}\u{1f}"), "\\x01\\x1f");
    assert_eq!(sanitize_string("\u{7f}é\u{ffff}"), "\\u{007f}\\u{00e9}\\u{ffff}");
    assert_eq!(sanitize_string("\u{10000}\u{1f600}"), "\\u{010000}\\u{01f600}");
    assert_eq!(sanitize_string(" ~"), " ~");
}

#[test]
fn escaped_strings_are_printable() {
    let mut all = String::new();
    for code in 0..0x300u32 {
        all.push(char::from_u32(code).unwrap());
    }
    assert!(sanitize_string(&all).chars().all(|c| (' '..='~').contains(&c)));
}

/// The text that the contents of a string literal denote.
fn denoted(literal: &str) -> String {
    let mut text = String::new();
    let mut characters = literal.chars();
    while let Some(c) = characters.next() {
        assert_ne!(c, '"');
        if c != '\\' {
            text.push(c);
            continue;
        }
        text.push(match characters.next().unwrap() {
            'n' => '\n',
            'r' => '\r',
            't' => '\t',
            '0' => '\0',
            'x' => {
                let digits: String = characters.by_ref().take(2).collect();
                char::from_u32(u32::from_str_radix(&digits, 16).unwrap()).unwrap()
            }
            'u' => {
                assert_eq!(characters.next(), Some('{'));
                let digits: String = characters.by_ref().take_while(|c| *c != '}').collect();
                assert!(digits.len() <= 6);
                char::from_u32(u32::from_str_radix(&digits, 16).unwrap()).unwrap()
            }
            escaped => escaped,
        });
    }
    text
}

#[test]
fn escaped_strings_denote_their_names() {
    let mut all = String::new();
    for code in 0..0x110000u32 {
        if code < 0x400 || code % 0x3ff == 0 || code > 0x10ff00 {
            all.extend(char::from_u32(code));
        }
    }
    assert_eq!(denoted(&sanitize_string(&all)), all);
    assert_eq!(denoted("\\u{010000}a\\x1f\\\""), "\u{10000}a\u{1f}\"");
    assert_ne!(sanitize_string("\\n"), sanitize_string("\n"));
}

#[test]
fn fields_and_external_tokens_have_upper_case_identifiers() {
    assert_eq!(field_id("left_side"), "FIELD_LEFT_SIDE");
    assert_eq!(field_id("straße"), "FIELD_STRASSE");
    assert_eq!(external_token_id("string.end"), "TS_EXTERNAL_TOKEN_STRING_DOT_END");
}

#[test]
fn identifiers_of_symbols_are_numbered_when_taken() {
    let used = list(&["SYM_A", "SYM_A_1", "SYM_B_2"]);
    assert_eq!(ParserInput::unused_identifier(VariableType::Named, "A", &used), "SYM_A_2");
    assert_eq!(ParserInput::unused_identifier(VariableType::Hidden, "B", &used), "SYM_B");
    assert_eq!(ParserInput::unused_identifier(VariableType::Anonymous, "A", &used), "ANON_SYM_A");
    assert_eq!(ParserInput::unused_identifier(VariableType::Auxiliary, "A", &used), "AUX_SYM_A");
}

#[test]
fn numbers_have_their_usual_forms() {
    assert_eq!(decimal_text(0), "0");
    assert_eq!(decimal_text(u64::MAX), u64::MAX.to_string());
    assert_eq!(count_text(1050), "1050");
    assert_eq!(signed_text(-12), "-12");
    assert_eq!(signed_text(i32::MIN), i32::MIN.to_string());
    assert_eq!(signed_text(7), "7");
    assert_eq!(padded_hexadecimal_text(0x1f, 4), "001f");
    assert_eq!(padded_hexadecimal_text(0xabcde, 2), "abcde");
    assert_eq!(truth_text(true), "true");
    assert_eq!(truth_text(false), "false");
}

#[test]
fn lines_are_indented_and_ended() {
    let mut lines = TextList::new();
    lines.add_line(0, "a");
    lines.add_line(2, "b");
    lines.add_array("x = [".to_string(), &list(&["1,", "2,"]));
    assert_eq!(lines.text(), "a\n        b\nx = [\n    1,\n    2,\n];\n\n");
    assert_eq!(indent_text(1), "    ");
}

#[test]
fn texts_are_ordered_by_code_points() {
    assert!(is_text_less("a", "b"));
    assert!(is_text_less("a", "ab"));
    assert!(!is_text_less("b", "ab"));
    assert!(!is_text_less("a", "a"));
    assert!(is_text_less("Z", "_"));
    assert!(is_text_less("z", "é"));
    assert!(is_same_text("abc", "abc"));
    assert!(!is_same_text("abc", "abd"));
    assert!(!is_same_text("abc", "ab"));
}

#[test]
fn texts_are_inserted_once_and_in_order() {
    let mut names = TextList::new();
    for name in ["right", "left", "right", "body"] {
        insert_text(&mut names, name);
    }
    assert_eq!(names.lines, vec!["body", "left", "right"]);
}
