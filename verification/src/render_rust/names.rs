//! Identifiers and string literals made from the names of a grammar.
use vstd::prelude::*;

use crate::text::{
    concat2, concat3, digit, hexadecimal, padded_hexadecimal_text, zero_padded,
};

verus! {

/// Whether a character is a letter or a digit of any script.
pub uninterp spec fn alphanumeric(c: char) -> bool;

/// A text in upper case.
pub uninterp spec fn uppercase(s: Seq<char>) -> Seq<char>;

/// `char::is_alphanumeric` tells whether a character is alphabetic or numeric by the tables
/// of Unicode. Its result depends on the character alone and is called `alphanumeric` here.
pub assume_specification[ char::is_alphanumeric ](c: char) -> (r: bool)
    ensures
        r == alphanumeric(c),
;

/// `str::to_uppercase` converts a text to upper case by the tables of Unicode. Its result
/// depends on the text alone and is called `uppercase` here.
pub assume_specification[ str::to_uppercase ](s: &str) -> (r: String)
    ensures
        r@ == uppercase(s@),
;

/// The word that stands for a punctuation character in an identifier.
pub open spec fn punctuation_word(c: char) -> Option<Seq<char>> {
    match c {
        '~' => Some("TILDE"@),
        '`' => Some("BQUOTE"@),
        '!' => Some("BANG"@),
        '@' => Some("AT"@),
        '#' => Some("POUND"@),
        '$' => Some("DOLLAR"@),
        '%' => Some("PERCENT"@),
        '^' => Some("CARET"@),
        '&' => Some("AMP"@),
        '*' => Some("STAR"@),
        '(' => Some("LPAREN"@),
        ')' => Some("RPAREN"@),
        '-' => Some("DASH"@),
        '+' => Some("PLUS"@),
        '=' => Some("EQ"@),
        '{' => Some("LBRACE"@),
        '}' => Some("RBRACE"@),
        '[' => Some("LBRACK"@),
        ']' => Some("RBRACK"@),
        '\\' => Some("BSLASH"@),
        '|' => Some("PIPE"@),
        ':' => Some("COLON"@),
        ';' => Some("SEMI"@),
        '\'' => Some("SQUOTE"@),
        '"' => Some("DQUOTE"@),
        '<' => Some("LT"@),
        '>' => Some("GT"@),
        ',' => Some("COMMA"@),
        '.' => Some("DOT"@),
        '?' => Some("QMARK"@),
        '/' => Some("SLASH"@),
        '\n' => Some("LF"@),
        '\r' => Some("CR"@),
        '\t' => Some("TAB"@),
        _ => None,
    }
}

/// The character stands for itself in an identifier.
pub open spec fn stands_for_itself(c: char) -> bool {
    alphanumeric(c) || c == '_'
}

/// What the next character of a name adds to the identifier made of those before it.
///
/// A letter, a digit or an underscore adds itself. A punctuation character adds its word between
/// underscores, of which the first is left out where there is one already, or nothing in front.
/// Other characters are dropped.
pub open spec fn with_character(identifier: Seq<char>, c: char, is_alphanumeric: bool) -> Seq<char> {
    if is_alphanumeric || c == '_' {
        identifier.push(c)
    } else {
        match punctuation_word(c) {
            Some(word) => {
                let before = if identifier.len() > 0 && identifier.last() != '_' {
                    identifier.push('_')
                } else {
                    identifier
                };
                (before + word).push('_')
            },
            None => identifier,
        }
    }
}

/// The identifier made of all characters of a name.
pub open spec fn with_characters(name: Seq<char>) -> Seq<char>
    decreases name.len(),
{
    if name.len() == 0 {
        Seq::empty()
    } else {
        with_character(with_characters(name.drop_last()), name.last(), alphanumeric(name.last()))
    }
}

/// A text without the underscore at its end, if there is one.
pub open spec fn without_last_underscore(s: Seq<char>) -> Seq<char> {
    if s.len() > 0 && s.last() == '_' {
        s.drop_last()
    } else {
        s
    }
}

/// A name as a part of an identifier.
pub open spec fn sanitized_identifier(name: Seq<char>) -> Seq<char> {
    without_last_underscore(with_characters(name))
}

/// A character of a name inside a string literal.
pub open spec fn escaped(c: char) -> Seq<char> {
    if c == '"' {
        "\\\""@
    } else if c == '\\' {
        "\\\\"@
    } else if c == '\n' {
        "\\n"@
    } else if c == '\r' {
        "\\r"@
    } else if c == '\t' {
        "\\t"@
    } else if c == '\0' {
        "\\0"@
    } else if c <= '\u{1f}' {
        "\\x"@ + zero_padded(hexadecimal(c as u32 as nat), 2)
    } else if '\u{7f}' <= c && c <= '\u{ffff}' {
        "\\u{"@ + zero_padded(hexadecimal(c as u32 as nat), 4) + "}"@
    } else if '\u{10000}' <= c {
        "\\u{"@ + zero_padded(hexadecimal(c as u32 as nat), 6) + "}"@
    } else {
        seq![c]
    }
}

/// A name inside a string literal.
pub open spec fn sanitized_string(name: Seq<char>) -> Seq<char> {
    name.flat_map(|c: char| escaped(c))
}

/// The identifier of a field.
pub open spec fn field_identifier(name: Seq<char>) -> Seq<char> {
    "FIELD_"@ + uppercase(name)
}

/// The identifier of an external token.
pub open spec fn external_token_identifier(name: Seq<char>) -> Seq<char> {
    "TS_EXTERNAL_TOKEN_"@ + uppercase(sanitized_identifier(name))
}

/// The word that stands for a punctuation character in an identifier.
fn punctuation_word_text(c: char) -> (r: Option<&'static str>)
    ensures
        match r {
            Some(word) => punctuation_word(c) == Some(word@),
            None => punctuation_word(c) is None,
        },
{
    match c {
        '~' => Some("TILDE"),
        '`' => Some("BQUOTE"),
        '!' => Some("BANG"),
        '@' => Some("AT"),
        '#' => Some("POUND"),
        '$' => Some("DOLLAR"),
        '%' => Some("PERCENT"),
        '^' => Some("CARET"),
        '&' => Some("AMP"),
        '*' => Some("STAR"),
        '(' => Some("LPAREN"),
        ')' => Some("RPAREN"),
        '-' => Some("DASH"),
        '+' => Some("PLUS"),
        '=' => Some("EQ"),
        '{' => Some("LBRACE"),
        '}' => Some("RBRACE"),
        '[' => Some("LBRACK"),
        ']' => Some("RBRACK"),
        '\\' => Some("BSLASH"),
        '|' => Some("PIPE"),
        ':' => Some("COLON"),
        ';' => Some("SEMI"),
        '\'' => Some("SQUOTE"),
        '"' => Some("DQUOTE"),
        '<' => Some("LT"),
        '>' => Some("GT"),
        ',' => Some("COMMA"),
        '.' => Some("DOT"),
        '?' => Some("QMARK"),
        '/' => Some("SLASH"),
        '\n' => Some("LF"),
        '\r' => Some("CR"),
        '\t' => Some("TAB"),
        _ => None,
    }
}

/// Adds the characters of a text to a list.
fn push_characters(list: &mut Vec<char>, s: &str)
    ensures
        final(list)@ == old(list)@ + s@,
{
    assert(list@ =~= old(list)@ + s@.take(0));
    for c in it: s.chars()
        invariant
            it.seq() == s@,
            list@ == old(list)@ + s@.take(it.index() as int),
    {
        list.push(c);
        assert(list@ =~= old(list)@ + s@.take(it.index() + 1));
    }
    assert(s@.take(s@.len() as int) =~= s@);
}

/// The text of a list of characters.
fn text_of_characters(list: &Vec<char>) -> (r: String)
    ensures
        r@ == list@,
{
    let mut r: String = String::new();
    let mut i: usize = 0;
    while i < list.len()
        invariant
            i <= list@.len(),
            r@ == list@.take(i as int),
        decreases list@.len() - i,
    {
        r.push(list[i]);
        i += 1;
        assert(r@ =~= list@.take(i as int));
    }
    assert(list@.take(i as int) =~= list@);
    r
}

/// Adds the next character of a name to the identifier made of those before it.
pub fn push_character(identifier: &mut Vec<char>, c: char, is_alphanumeric: bool)
    ensures
        final(identifier)@ == with_character(old(identifier)@, c, is_alphanumeric),
{
    if is_alphanumeric || c == '_' {
        identifier.push(c);
    } else {
        match punctuation_word_text(c) {
            Some(word) => {
                if identifier.len() > 0 && identifier[identifier.len() - 1] != '_' {
                    identifier.push('_');
                }
                push_characters(identifier, word);
                identifier.push('_');
            },
            None => {},
        }
    }
}

/// Makes a name fit to be a part of an identifier.
pub fn sanitize_identifier(name: &str) -> (r: String)
    ensures
        r@ == sanitized_identifier(name@),
{
    let mut result: Vec<char> = Vec::new();
    assert(name@.take(0) =~= Seq::<char>::empty());
    for c in it: name.chars()
        invariant
            it.seq() == name@,
            result@ == with_characters(name@.take(it.index() as int)),
    {
        proof {
            let next = name@.take(it.index() + 1);
            assert(next.drop_last() =~= name@.take(it.index() as int));
            assert(next.last() == c);
        }
        push_character(&mut result, c, c.is_alphanumeric());
    }
    assert(name@.take(name@.len() as int) =~= name@);
    if result.len() > 0 && result[result.len() - 1] == '_' {
        result.pop();
    }
    text_of_characters(&result)
}

/// Makes a name fit to stand inside a string literal.
pub fn sanitize_string(name: &str) -> (r: String)
    ensures
        r@ == sanitized_string(name@),
{
    let ghost escape = |c: char| escaped(c);
    let mut result: String = String::new();
    assert(name@.take(0).flat_map(escape) =~= Seq::<char>::empty());
    for c in it: name.chars()
        invariant
            it.seq() == name@,
            escape == (|c: char| escaped(c)),
            result@ == name@.take(it.index() as int).flat_map(escape),
    {
        proof {
            name@.lemma_flat_map_take_append(escape, it.index() as int);
        }
        let code: u32 = c as u32;
        if c == '"' {
            result.append("\\\"");
        } else if c == '\\' {
            result.append("\\\\");
        } else if c == '\n' {
            result.append("\\n");
        } else if c == '\r' {
            result.append("\\r");
        } else if c == '\t' {
            result.append("\\t");
        } else if c == '\0' {
            result.append("\\0");
        } else if c <= '\u{1f}' {
            result.append(concat2("\\x", padded_hexadecimal_text(code, 2).as_str()).as_str());
        } else if '\u{7f}' <= c && c <= '\u{ffff}' {
            result.append(
                concat3("\\u{", padded_hexadecimal_text(code, 4).as_str(), "}").as_str(),
            );
        } else if '\u{10000}' <= c {
            result.append(
                concat3("\\u{", padded_hexadecimal_text(code, 6).as_str(), "}").as_str(),
            );
        } else {
            let ghost before = result@;
            result.push(c);
            assert(result@ =~= before + seq![c]);
        }
        assert(result@ == name@.take(it.index() as int).flat_map(escape) + escaped(c));
    }
    assert(name@.take(name@.len() as int) =~= name@);
    result
}

/// The identifier of a field.
pub fn field_id(field_name: &str) -> (r: String)
    ensures
        r@ == field_identifier(field_name@),
{
    concat2("FIELD_", field_name.to_uppercase().as_str())
}

/// The identifier of an external token.
pub fn external_token_id(name: &str) -> (r: String)
    ensures
        r@ == external_token_identifier(name@),
{
    concat2("TS_EXTERNAL_TOKEN_", sanitize_identifier(name).to_uppercase().as_str())
}

/// The character is one of the printable characters of ASCII.
pub open spec fn is_printable(c: char) -> bool {
    ' ' <= c <= '~'
}

/// All characters of the text are printable.
pub open spec fn all_printable(s: Seq<char>) -> bool {
    forall|i: int| 0 <= i < s.len() ==> is_printable(#[trigger] s[i])
}

/// A name inside a string literal has only printable characters.
pub proof fn sanitized_string_is_printable(name: Seq<char>)
    ensures
        all_printable(sanitized_string(name)),
    decreases name.len(),
{
    if name.len() == 0 {
        assert(sanitized_string(name) =~= Seq::<char>::empty());
    } else {
        sanitized_string_is_printable(name.drop_last());
        lemma_escaped_is_printable(name.last());
        lemma_sanitized_back(name);
    }
}

/// The last character of a name is the last inside a string literal.
pub proof fn lemma_sanitized_back(name: Seq<char>)
    requires
        name.len() > 0,
    ensures
        sanitized_string(name) == sanitized_string(name.drop_last()) + escaped(name.last()),
{
    let escape = |c: char| escaped(c);
    name.lemma_flat_map_take_append(escape, name.len() - 1);
    assert(name.take(name.len() as int) =~= name);
    assert(name.take(name.len() - 1) =~= name.drop_last());
}

proof fn lemma_escaped_is_printable(c: char)
    ensures
        all_printable(escaped(c)),
{
    reveal_strlit("\\\"");
    reveal_strlit("\\\\");
    reveal_strlit("\\n");
    reveal_strlit("\\r");
    reveal_strlit("\\t");
    reveal_strlit("\\0");
    reveal_strlit("\\x");
    reveal_strlit("\\u{");
    reveal_strlit("}");
    lemma_hexadecimal_is_printable(c as u32 as nat);
}

proof fn lemma_hexadecimal_is_printable(n: nat)
    ensures
        all_printable(hexadecimal(n)),
    decreases n,
{
    if n >= 16 {
        lemma_hexadecimal_is_printable(n / 16);
    }
}

/// A name as a part of an identifier has only letters, digits and underscores.
pub proof fn sanitized_identifier_characters(name: Seq<char>)
    ensures
        forall|i: int|
            0 <= i < sanitized_identifier(name).len() ==> {
                let c = #[trigger] sanitized_identifier(name)[i];
                stands_for_itself(c) || 'A' <= c <= 'Z'
            },
{
    lemma_with_characters(name);
}

proof fn lemma_with_characters(name: Seq<char>)
    ensures
        forall|i: int|
            0 <= i < with_characters(name).len() ==> {
                let c = #[trigger] with_characters(name)[i];
                stands_for_itself(c) || 'A' <= c <= 'Z'
            },
    decreases name.len(),
{
    if name.len() > 0 {
        let before = with_characters(name.drop_last());
        lemma_with_characters(name.drop_last());
        if punctuation_word(name.last()) is Some {
            lemma_punctuation_word(name.last());
        }
        assert forall|i: int| 0 <= i < with_characters(name).len() implies {
            let c = #[trigger] with_characters(name)[i];
            stands_for_itself(c) || 'A' <= c <= 'Z'
        } by {
            if i < before.len() {
                assert(with_characters(name)[i] == before[i]);
            }
        }
    }
}

proof fn lemma_punctuation_word(c: char)
    requires
        punctuation_word(c) is Some,
    ensures
        forall|i: int|
            0 <= i < punctuation_word(c)->0.len() ==> 'A' <= #[trigger] punctuation_word(c)->0[i]
                <= 'Z',
{
    reveal_strlit("TILDE");
    reveal_strlit("BQUOTE");
    reveal_strlit("BANG");
    reveal_strlit("AT");
    reveal_strlit("POUND");
    reveal_strlit("DOLLAR");
    reveal_strlit("PERCENT");
    reveal_strlit("CARET");
    reveal_strlit("AMP");
    reveal_strlit("STAR");
    reveal_strlit("LPAREN");
    reveal_strlit("RPAREN");
    reveal_strlit("DASH");
    reveal_strlit("PLUS");
    reveal_strlit("EQ");
    reveal_strlit("LBRACE");
    reveal_strlit("RBRACE");
    reveal_strlit("LBRACK");
    reveal_strlit("RBRACK");
    reveal_strlit("BSLASH");
    reveal_strlit("PIPE");
    reveal_strlit("COLON");
    reveal_strlit("SEMI");
    reveal_strlit("SQUOTE");
    reveal_strlit("DQUOTE");
    reveal_strlit("LT");
    reveal_strlit("GT");
    reveal_strlit("COMMA");
    reveal_strlit("DOT");
    reveal_strlit("QMARK");
    reveal_strlit("SLASH");
    reveal_strlit("LF");
    reveal_strlit("CR");
    reveal_strlit("TAB");
}

} // verus!
