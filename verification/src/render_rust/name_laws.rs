//! What identifiers and literals are made of.
use vstd::prelude::*;

use crate::render_rust::literal_laws::{hexadecimal_value, lemma_padded_value};
use crate::render_rust::names::{
    alphanumeric, escaped, external_token_identifier, field_identifier, punctuation_word,
    sanitized_identifier, sanitized_string, uppercase, with_characters,
};
use crate::text::{hexadecimal, zero_padded};
use crate::text_laws::padding_adds_zeros;

verus! {

/// The punctuation characters of a keyboard, line feeds, carriage returns and tabs have words that
/// stand for them.
pub proof fn punctuation_is_spelled_out(c: char)
    ensures
        c == '~' ==> punctuation_word(c) == Some("TILDE"@),
        c == '`' ==> punctuation_word(c) == Some("BQUOTE"@),
        c == '!' ==> punctuation_word(c) == Some("BANG"@),
        c == '@' ==> punctuation_word(c) == Some("AT"@),
        c == '#' ==> punctuation_word(c) == Some("POUND"@),
        c == '$' ==> punctuation_word(c) == Some("DOLLAR"@),
        c == '%' ==> punctuation_word(c) == Some("PERCENT"@),
        c == '^' ==> punctuation_word(c) == Some("CARET"@),
        c == '&' ==> punctuation_word(c) == Some("AMP"@),
        c == '*' ==> punctuation_word(c) == Some("STAR"@),
        c == '(' ==> punctuation_word(c) == Some("LPAREN"@),
        c == ')' ==> punctuation_word(c) == Some("RPAREN"@),
        c == '-' ==> punctuation_word(c) == Some("DASH"@),
        c == '+' ==> punctuation_word(c) == Some("PLUS"@),
        c == '=' ==> punctuation_word(c) == Some("EQ"@),
        c == '{' ==> punctuation_word(c) == Some("LBRACE"@),
        c == '}' ==> punctuation_word(c) == Some("RBRACE"@),
        c == '[' ==> punctuation_word(c) == Some("LBRACK"@),
        c == ']' ==> punctuation_word(c) == Some("RBRACK"@),
        c == '\\' ==> punctuation_word(c) == Some("BSLASH"@),
        c == '|' ==> punctuation_word(c) == Some("PIPE"@),
        c == ':' ==> punctuation_word(c) == Some("COLON"@),
        c == ';' ==> punctuation_word(c) == Some("SEMI"@),
        c == '\'' ==> punctuation_word(c) == Some("SQUOTE"@),
        c == '"' ==> punctuation_word(c) == Some("DQUOTE"@),
        c == '<' ==> punctuation_word(c) == Some("LT"@),
        c == '>' ==> punctuation_word(c) == Some("GT"@),
        c == ',' ==> punctuation_word(c) == Some("COMMA"@),
        c == '.' ==> punctuation_word(c) == Some("DOT"@),
        c == '?' ==> punctuation_word(c) == Some("QMARK"@),
        c == '/' ==> punctuation_word(c) == Some("SLASH"@),
        c == '\n' ==> punctuation_word(c) == Some("LF"@),
        c == '\r' ==> punctuation_word(c) == Some("CR"@),
        c == '\t' ==> punctuation_word(c) == Some("TAB"@),
        punctuation_word(c) is Some ==> c == '\n' || c == '\r' || c == '\t' || '!' <= c <= '/' || ':'
            <= c <= '@' || '[' <= c <= '^' || c == '`' || '{' <= c <= '~',
{
}

/// A letter, a digit or an underscore at the end of a name adds itself to the identifier. A
/// punctuation character adds its word and an underscore, behind another underscore unless there is
/// one or the identifier is still empty. Any other character adds nothing.
pub proof fn identifiers_grow(name: Seq<char>, c: char)
    ensures
        with_characters(Seq::empty()) == Seq::<char>::empty(),
        ({
            let before = with_characters(name);
            let after = with_characters(name.push(c));
            let is_kept = alphanumeric(c) || c == '_';
            let is_parted = before.len() == 0 || before.last() == '_';
            &&& is_kept ==> after == before.push(c)
            &&& !is_kept && punctuation_word(c) is None ==> after == before
            &&& !is_kept && punctuation_word(c) is Some && is_parted ==> after == before
                + punctuation_word(c)->0 + seq!['_']
            &&& !is_kept && punctuation_word(c) is Some && !is_parted ==> after == before + seq!['_']
                + punctuation_word(c)->0 + seq!['_']
        }),
{
    assert(name.push(c).drop_last() =~= name);
    if punctuation_word(c) is Some {
        let word = punctuation_word(c)->0;
        let before = with_characters(name);
        assert((before + word).push('_') =~= before + word + seq!['_']);
        assert((before.push('_') + word).push('_') =~= before + seq!['_'] + word + seq!['_']);
    }
}

/// One underscore at the end is taken off an identifier, and nothing else.
pub proof fn identifiers_lose_one_underscore(name: Seq<char>)
    ensures
        ({
            let whole = with_characters(name);
            let part = sanitized_identifier(name);
            &&& whole.len() == 0 || whole.last() != '_' ==> part == whole
            &&& whole.len() > 0 && whole.last() == '_' ==> part.push('_') == whole
        }),
{
    let whole = with_characters(name);
    if whole.len() > 0 && whole.last() == '_' {
        assert(sanitized_identifier(name).push('_') =~= whole);
    }
}

/// A name of letters, digits and underscores that does not end with an underscore is an identifier
/// as it is.
pub proof fn plain_names_are_identifiers(name: Seq<char>)
    requires
        forall|i: int| 0 <= i < name.len() ==> alphanumeric(#[trigger] name[i]) || name[i] == '_',
    ensures
        name.len() == 0 || name.last() != '_' ==> sanitized_identifier(name) == name,
{
    lemma_plain(name);
}

proof fn lemma_plain(name: Seq<char>)
    requires
        forall|i: int| 0 <= i < name.len() ==> alphanumeric(#[trigger] name[i]) || name[i] == '_',
    ensures
        with_characters(name) == name,
    decreases name.len(),
{
    if name.len() > 0 {
        lemma_plain(name.drop_last());
        assert(name.drop_last().push(name.last()) =~= name);
    } else {
        assert(name =~= Seq::<char>::empty());
    }
}

/// The identifiers of fields and of external tokens are in upper case, behind what says which they
/// are.
pub proof fn identifiers_say_what_they_are_of(name: Seq<char>)
    ensures
        field_identifier(name) == "FIELD_"@ + uppercase(name),
        external_token_identifier(name) == "TS_EXTERNAL_TOKEN_"@ + uppercase(
            sanitized_identifier(name),
        ),
{
}

/// A name inside a string literal is its characters there, one after another.
pub proof fn literals_grow(name: Seq<char>, c: char)
    ensures
        sanitized_string(Seq::empty()) == Seq::<char>::empty(),
        sanitized_string(name.push(c)) == sanitized_string(name) + escaped(c),
{
    name.lemma_flat_map_push(|c: char| escaped(c), c);
    assert(sanitized_string(Seq::empty()) =~= Seq::<char>::empty());
}

/// Inside a string literal a printable character is itself, but for quotes and backslashes; line
/// feeds, carriage returns, tabs and zeros have their own escapes; and other characters are given by
/// their numbers, with at least two, four or six digits.
pub proof fn characters_are_escaped(c: char)
    ensures
        c == '"' ==> escaped(c) == "\\\""@,
        c == '\\' ==> escaped(c) == "\\\\"@,
        c == '\n' ==> escaped(c) == "\\n"@,
        c == '\r' ==> escaped(c) == "\\r"@,
        c == '\t' ==> escaped(c) == "\\t"@,
        c == '\0' ==> escaped(c) == "\\0"@,
        ' ' <= c <= '~' && c != '"' && c != '\\' ==> escaped(c) == seq![c],
        '\u{1}' <= c <= '\u{1f}' && c != '\n' && c != '\r' && c != '\t' ==> {
            &&& escaped(c).len() == 4
            &&& escaped(c).take(2) == "\\x"@
            &&& hexadecimal_value(escaped(c).skip(2)) == Some(c as nat)
        },
        '\u{7f}' <= c ==> {
            let n = escaped(c).len();
            &&& n == (if c <= '\u{ffff}' {
                8
            } else {
                10nat
            })
            &&& escaped(c).take(3) == "\\u{"@
            &&& hexadecimal_value(escaped(c).subrange(3, n - 1)) == Some(c as nat)
            &&& escaped(c).skip(n - 1) == "}"@
        },
{
    let number = c as u32 as nat;
    reveal_strlit("\\x");
    reveal_strlit("\\u{");
    reveal_strlit("}");
    reveal_with_fuel(hexadecimal, 6);
    if '\u{1}' <= c <= '\u{1f}' && c != '\n' && c != '\r' && c != '\t' {
        let digits = zero_padded(hexadecimal(number), 2);
        lemma_padded_value(number, 2);
        padding_adds_zeros(hexadecimal(number), 2);
        assert(hexadecimal(number).len() <= 2);
        assert(escaped(c) == "\\x"@ + digits);
        assert(escaped(c).take(2) =~= "\\x"@);
        assert(escaped(c).skip(2) =~= digits);
    } else if '\u{7f}' <= c {
        let width: nat = if c <= '\u{ffff}' {
            4
        } else {
            6
        };
        let digits = zero_padded(hexadecimal(number), width);
        lemma_padded_value(number, width);
        padding_adds_zeros(hexadecimal(number), width);
        assert(hexadecimal(number).len() <= width);
        assert(escaped(c) == "\\u{"@ + digits + "}"@);
        assert(escaped(c).take(3) =~= "\\u{"@);
        assert(escaped(c).subrange(3, escaped(c).len() - 1) =~= digits);
        assert(escaped(c).skip(escaped(c).len() - 1) =~= "}"@);
    }
}

} // verus!
