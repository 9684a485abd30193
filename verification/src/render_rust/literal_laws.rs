//! What the contents of string literals denote.
use vstd::prelude::*;

use crate::order::{first_index, is_first, lemma_first_index};
use crate::render_rust::names::{escaped, lemma_sanitized_back, sanitized_string};
use crate::text::{digit, hexadecimal, zero_padded};

verus! {

/// The value of a hexadecimal digit in upper or lower case.
pub open spec fn digit_value(c: char) -> Option<nat> {
    if '0' <= c <= '9' {
        Some((c as int - '0' as int) as nat)
    } else if 'a' <= c <= 'f' {
        Some((c as int - 'a' as int + 10) as nat)
    } else if 'A' <= c <= 'F' {
        Some((c as int - 'A' as int + 10) as nat)
    } else {
        None
    }
}

/// The number with the given hexadecimal digits.
pub open spec fn hexadecimal_value(digits: Seq<char>) -> Option<nat>
    decreases digits.len(),
{
    if digits.len() == 0 {
        Some(0)
    } else {
        match (hexadecimal_value(digits.drop_last()), digit_value(digits.last())) {
            (Some(n), Some(d)) => Some(n * 16 + d),
            _ => None,
        }
    }
}

/// The number is that of a character.
pub open spec fn is_scalar(n: nat) -> bool {
    n < 0xD800 || 0xE000 <= n <= 0x10FFFF
}

/// The text is a closing brace.
pub open spec fn is_closing_brace() -> spec_fn(char) -> bool {
    |c: char| c == '}'
}

/// The first character that the contents of a string literal denote, with the length of its
/// spelling. Contents that do not begin with the spelling of a character denote none.
pub open spec fn first_character(s: Seq<char>) -> Option<(char, int)> {
    if s.len() == 0 || s[0] == '"' {
        None
    } else if s[0] != '\\' {
        Some((s[0], 1))
    } else if s.len() == 1 {
        None
    } else if s[1] == '"' || s[1] == '\'' || s[1] == '\\' {
        Some((s[1], 2))
    } else if s[1] == 'n' {
        Some(('\n', 2))
    } else if s[1] == 'r' {
        Some(('\r', 2))
    } else if s[1] == 't' {
        Some(('\t', 2))
    } else if s[1] == '0' {
        Some(('\0', 2))
    } else if s[1] == 'x' && s.len() >= 4 {
        match hexadecimal_value(s.subrange(2, 4)) {
            Some(n) => if n <= 0x7f {
                Some((n as char, 4))
            } else {
                None
            },
            None => None,
        }
    } else if s[1] == 'u' && s.len() >= 3 && s[2] == '{' && s.any(is_closing_brace()) {
        let end = first_index(s, is_closing_brace());
        match hexadecimal_value(s.subrange(3, end)) {
            Some(n) => if 4 <= end <= 9 && is_scalar(n) {
                Some((n as char, end + 1))
            } else {
                None
            },
            None => None,
        }
    } else {
        None
    }
}

/// The text that the contents of a string literal denote.
pub open spec fn denoted(s: Seq<char>) -> Option<Seq<char>>
    decreases s.len(),
{
    if s.len() == 0 {
        Some(Seq::empty())
    } else {
        match first_character(s) {
            Some((c, n)) => if 0 < n <= s.len() {
                match denoted(s.skip(n)) {
                    Some(rest) => Some(seq![c] + rest),
                    None => None,
                }
            } else {
                None
            },
            None => None,
        }
    }
}

/// A name inside a string literal denotes that name; no quote inside ends the literal.
pub proof fn sanitized_string_denotes_name(name: Seq<char>)
    ensures
        denoted(sanitized_string(name)) == Some(name),
    decreases name.len(),
{
    if name.len() == 0 {
        assert(sanitized_string(name) =~= Seq::<char>::empty());
        assert(name =~= Seq::<char>::empty());
    } else {
        let rest = sanitized_string(name.drop_first());
        sanitized_string_denotes_name(name.drop_first());
        lemma_sanitized_front(name);
        lemma_first_character(name[0], rest);
        let n = escaped(name[0]).len() as int;
        assert((escaped(name[0]) + rest).skip(n) =~= rest);
        assert(name =~= seq![name[0]] + name.drop_first());
    }
}

/// Different names are different inside a string literal.
pub proof fn sanitized_strings_differ(a: Seq<char>, b: Seq<char>)
    requires
        a != b,
    ensures
        sanitized_string(a) != sanitized_string(b),
{
    sanitized_string_denotes_name(a);
    sanitized_string_denotes_name(b);
}

/// The first character of a name is the first inside a string literal.
proof fn lemma_sanitized_front(name: Seq<char>)
    requires
        name.len() > 0,
    ensures
        sanitized_string(name) == escaped(name[0]) + sanitized_string(name.drop_first()),
    decreases name.len(),
{
    lemma_sanitized_back(name);
    let shorter = name.drop_last();
    if name.len() == 1 {
        assert(sanitized_string(shorter) =~= Seq::<char>::empty());
        assert(sanitized_string(name.drop_first()) =~= Seq::<char>::empty());
        assert(sanitized_string(name) =~= escaped(name[0]) + sanitized_string(name.drop_first()));
    } else {
        lemma_sanitized_front(shorter);
        lemma_sanitized_back(name.drop_first());
        assert(name.drop_first().drop_last() =~= shorter.drop_first());
        assert(sanitized_string(name) =~= escaped(name[0]) + sanitized_string(name.drop_first()));
    }
}

/// An escaped character is read back, whatever stands behind it.
proof fn lemma_first_character(c: char, rest: Seq<char>)
    ensures
        escaped(c).len() > 0,
        first_character(escaped(c) + rest) == Some((c, escaped(c).len() as int)),
{
    let s = escaped(c) + rest;
    let n = c as u32 as nat;
    reveal_strlit("\\\"");
    reveal_strlit("\\\\");
    reveal_strlit("\\n");
    reveal_strlit("\\r");
    reveal_strlit("\\t");
    reveal_strlit("\\0");
    reveal_strlit("\\x");
    reveal_strlit("\\u{");
    reveal_strlit("}");
    if c == '"' || c == '\\' || c == '\n' || c == '\r' || c == '\t' || c == '\0' {
        assert(s[0] == escaped(c)[0] && s[1] == escaped(c)[1]);
    } else if c <= '\u{1f}' {
        let digits = zero_padded(hexadecimal(n), 2);
        lemma_hexadecimal_len(n);
        lemma_padded_value(n, 2);
        assert(s[0] == '\\' && s[1] == 'x');
        assert(s.subrange(2, 4) =~= digits);
    } else if '\u{7f}' <= c {
        let width: nat = if c <= '\u{ffff}' {
            4
        } else {
            6
        };
        let digits = zero_padded(hexadecimal(n), width);
        let end = 3 + width;
        lemma_hexadecimal_len(n);
        lemma_padded_value(n, width);
        assert(escaped(c) == "\\u{"@ + digits + "}"@);
        assert(s[0] == '\\' && s[1] == 'u' && s[2] == '{');
        assert(s.subrange(3, end as int) =~= digits);
        assert(s[end as int] == '}');
        assert forall|i: int| 0 <= i < end implies #[trigger] s[i] != '}' by {
            if i >= 3 {
                assert(s[i] == digits[i - 3]);
                assert(digit_value(digits[i - 3]) is Some);
            }
        }
        assert((is_closing_brace())(s[end as int]));
        assert(is_first(s, is_closing_brace(), end as int));
        lemma_first_index(s, is_closing_brace(), end as int);
    } else {
        assert(s[0] == c);
    }
}

/// How many hexadecimal digits a character's number has.
proof fn lemma_hexadecimal_len(n: nat)
    requires
        n <= 0x10FFFF,
    ensures
        n <= 0xff ==> hexadecimal(n).len() <= 2,
        n <= 0xffff ==> hexadecimal(n).len() <= 4,
        hexadecimal(n).len() <= 6,
{
    reveal_with_fuel(hexadecimal, 6);
}

/// Hexadecimal digits are read back, also behind zeros.
pub proof fn lemma_padded_value(n: nat, width: nat)
    ensures
        hexadecimal_value(zero_padded(hexadecimal(n), width)) == Some(n),
        forall|i: int|
            0 <= i < zero_padded(hexadecimal(n), width).len() ==> digit_value(
                #[trigger] zero_padded(hexadecimal(n), width)[i],
            ) is Some,
    decreases n,
{
    lemma_hexadecimal_value(n);
    if hexadecimal(n).len() < width {
        let zeros = Seq::new((width - hexadecimal(n).len()) as nat, |i: int| '0');
        lemma_zeros(zeros, hexadecimal(n));
    }
}

proof fn lemma_hexadecimal_value(n: nat)
    ensures
        hexadecimal_value(hexadecimal(n)) == Some(n),
        forall|i: int|
            0 <= i < hexadecimal(n).len() ==> digit_value(#[trigger] hexadecimal(n)[i]) is Some,
    decreases n,
{
    reveal_with_fuel(hexadecimal_value, 2);
    if n >= 16 {
        lemma_hexadecimal_value(n / 16);
        assert(hexadecimal(n).drop_last() =~= hexadecimal(n / 16));
        assert(hexadecimal(n).last() == digit(n % 16));
    } else {
        assert(hexadecimal(n).drop_last() =~= Seq::<char>::empty());
        assert(hexadecimal(n).last() == digit(n));
    }
}

/// Zeros in front of digits change nothing.
proof fn lemma_zeros(zeros: Seq<char>, digits: Seq<char>)
    requires
        forall|i: int| 0 <= i < zeros.len() ==> #[trigger] zeros[i] == '0',
    ensures
        hexadecimal_value(zeros + digits) == hexadecimal_value(digits),
    decreases zeros.len() + digits.len(),
{
    let all = zeros + digits;
    if digits.len() > 0 {
        lemma_zeros(zeros, digits.drop_last());
        assert(all.drop_last() =~= zeros + digits.drop_last());
    } else if zeros.len() > 0 {
        lemma_zeros(zeros.drop_last(), digits);
        assert(all.drop_last() =~= zeros.drop_last() + digits);
        assert(all.last() == '0');
    } else {
        assert(all =~= digits);
    }
}

} // verus!
