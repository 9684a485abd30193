//! Tests on the next character of the input, as a rendered lexer makes them.
use vstd::prelude::*;

use crate::nfa::{
    character_bounds, character_ranges, covers, range_has, CharacterSet, CodepointRange, END,
};
use crate::text::{
    concat2, concat3, concat5, hexadecimal, padded_hexadecimal_text, zero_padded,
};

verus! {

/// The last code point.
pub const LAST_CHARACTER: u32 = 0x10FFFF;

/// A character in rendered source: a literal if it is printable, and else its number.
pub open spec fn character_text(c: u32) -> Seq<char> {
    if c == 39 {
        "'\\'' as i32"@
    } else if c == 92 {
        "'\\\\' as i32"@
    } else if c == 0 {
        "0"@
    } else if 32 <= c < 127 {
        "'"@ + seq![c as char] + "' as i32"@
    } else {
        "0x"@ + zero_padded(hexadecimal(c as nat), 2)
    }
}

/// A character in rendered source on the left of a `<`, where a cast stands in parentheses.
pub open spec fn lesser_text(c: u32) -> Seq<char> {
    if 32 <= c < 127 {
        "("@ + character_text(c) + ")"@
    } else {
        character_text(c)
    }
}

/// A test on the next character.
pub enum CharacterTest {
    /// The input is not at its end, and the character is the one with code point 0.
    IsNull,
    /// The input is not at its end, and the character is at most this one.
    IsAtMost(u32),
    Is(u32),
    IsEither(u32, u32),
    IsBetween(u32, u32),
    IsNot(u32),
    IsNeither(u32, u32),
    IsOutside(u32, u32),
    IsAbove(u32),
}

impl CharacterTest {
    /// The test for a range of characters: that the next one is in it, or that it is not.
    pub open spec fn of_range(range: (u32, u32), is_included: bool) -> CharacterTest {
        let (start, end) = range;
        if is_included {
            if start == 0 && end == 0 {
                CharacterTest::IsNull
            } else if start == 0 {
                CharacterTest::IsAtMost(end)
            } else if end == start {
                CharacterTest::Is(start)
            } else if end == start + 1 {
                CharacterTest::IsEither(start, end)
            } else {
                CharacterTest::IsBetween(start, end)
            }
        } else {
            if end == start {
                CharacterTest::IsNot(start)
            } else if end == start + 1 {
                CharacterTest::IsNeither(start, end)
            } else if start != 0 {
                CharacterTest::IsOutside(start, end)
            } else {
                CharacterTest::IsAbove(end)
            }
        }
    }

    /// The test in rendered source, with the given break between the parts of a long one.
    pub open spec fn text(self, line_break: Seq<char>) -> Seq<char> {
        match self {
            CharacterTest::IsNull => "(!eof && lookahead == 0"@ + character_text(0) + ")"@,
            CharacterTest::IsAtMost(c) => "(!eof && lookahead <= "@ + character_text(c) + ")"@,
            CharacterTest::Is(c) => "lookahead == "@ + character_text(c),
            CharacterTest::IsEither(a, b) => "lookahead == "@ + character_text(a) + " ||"@
                + line_break + "lookahead == "@ + character_text(b),
            CharacterTest::IsBetween(a, b) => "("@ + character_text(a)
                + " <= lookahead && lookahead <= "@ + character_text(b) + ")"@,
            CharacterTest::IsNot(c) => "lookahead != "@ + character_text(c),
            CharacterTest::IsNeither(a, b) => "lookahead != "@ + character_text(a) + " &&"@
                + line_break + "lookahead != "@ + character_text(b),
            CharacterTest::IsOutside(a, b) => "(lookahead < "@ + character_text(a) + " || "@
                + lesser_text(b) + " < lookahead)"@,
            CharacterTest::IsAbove(c) => "lookahead > "@ + character_text(c),
        }
    }

    /// The test holds of the next character.
    pub open spec fn holds(self, lookahead: int, eof: bool) -> bool {
        match self {
            CharacterTest::IsNull => !eof && lookahead == 0,
            CharacterTest::IsAtMost(c) => !eof && lookahead <= c,
            CharacterTest::Is(c) => lookahead == c,
            CharacterTest::IsEither(a, b) => lookahead == a || lookahead == b,
            CharacterTest::IsBetween(a, b) => a <= lookahead && lookahead <= b,
            CharacterTest::IsNot(c) => lookahead != c,
            CharacterTest::IsNeither(a, b) => lookahead != a && lookahead != b,
            CharacterTest::IsOutside(a, b) => lookahead < a || b < lookahead,
            CharacterTest::IsAbove(c) => lookahead > c,
        }
    }
}

/// The tests for the first `n` ranges: one of them must hold if characters in the ranges are
/// looked for, and else all.
pub open spec fn conditions_upto(
    ranges: Seq<(u32, u32)>,
    is_included: bool,
    line_break: Seq<char>,
    n: nat,
) -> Seq<char>
    decreases n,
{
    if n == 0 {
        Seq::empty()
    } else {
        let before = conditions_upto(ranges, is_included, line_break, (n - 1) as nat);
        let test = CharacterTest::of_range(ranges[n - 1], is_included).text(line_break);
        if n == 1 {
            before + test
        } else if is_included {
            before + " ||"@ + line_break + test
        } else {
            before + " &&"@ + line_break + test
        }
    }
}

/// The tests for all ranges.
pub open spec fn range_conditions(
    ranges: Seq<(u32, u32)>,
    is_included: bool,
    line_break: Seq<char>,
) -> Seq<char> {
    conditions_upto(ranges, is_included, line_break, ranges.len())
}

/// What the tests for all ranges say together.
pub open spec fn conditions_hold(
    ranges: Seq<(u32, u32)>,
    is_included: bool,
    lookahead: int,
    eof: bool,
) -> bool {
    if is_included {
        exists|i: int|
            0 <= i < ranges.len() && CharacterTest::of_range(
                #[trigger] ranges[i],
                is_included,
            ).holds(lookahead, eof)
    } else {
        forall|i: int|
            0 <= i < ranges.len() ==> CharacterTest::of_range(
                #[trigger] ranges[i],
                is_included,
            ).holds(lookahead, eof)
    }
}

/// The tests for the ranges of a set say whether the next character is in the set, at the end of
/// the input only if the set does not have the character with code point 0.
pub proof fn range_conditions_decide_membership(
    ranges: Seq<CodepointRange>,
    is_included: bool,
    lookahead: int,
    eof: bool,
)
    requires
        crate::nfa::is_canonical(ranges),
        0 <= lookahead < END,
        !(0xD800 <= lookahead < 0xE000),
        eof ==> !is_included || !covers(ranges, 0),
    ensures
        conditions_hold(character_ranges(ranges), is_included, lookahead, eof) == (covers(
            ranges,
            lookahead,
        ) == is_included),
{
    let chars = character_ranges(ranges);
    lemma_character_ranges(ranges);
    if covers(ranges, lookahead) {
        let i = choose|i: int| 0 <= i < ranges.len() && range_has(#[trigger] ranges[i], lookahead);
        let bounds = character_bounds(ranges[i])->0;
        assert(chars.contains(bounds));
        let k = chars.index_of(bounds);
        assert(chars[k] == bounds);
        if is_included && eof && bounds.0 == 0 {
            assert(range_has(ranges[i], 0));
            assert(false);
        }
        assert(CharacterTest::of_range(chars[k], is_included).holds(lookahead, eof) == is_included);
    } else {
        assert forall|k: int| 0 <= k < chars.len() implies CharacterTest::of_range(
            #[trigger] chars[k],
            is_included,
        ).holds(lookahead, eof) == !is_included by {
            assert(chars.contains(chars[k]));
            let i = choose|i: int|
                0 <= i < ranges.len() && character_bounds(#[trigger] ranges[i]) == Some(chars[k]);
            assert(!range_has(ranges[i], lookahead));
        }
    }
}

/// The character ranges are those of the ranges that have characters.
pub proof fn lemma_character_ranges(ranges: Seq<CodepointRange>)
    ensures
        forall|i: int|
            0 <= i < ranges.len() && character_bounds(#[trigger] ranges[i]) is Some
                ==> character_ranges(ranges).contains(character_bounds(ranges[i])->0),
        forall|b: (u32, u32)| #[trigger]
            character_ranges(ranges).contains(b) ==> exists|i: int|
                0 <= i < ranges.len() && character_bounds(#[trigger] ranges[i]) == Some(b),
    decreases ranges.len(),
{
    reveal(Seq::filter_map);
    if ranges.len() > 0 {
        let shorter = ranges.drop_last();
        lemma_character_ranges(shorter);
        let before = character_ranges(shorter);
        let after = character_ranges(ranges);
        assert forall|i: int|
            0 <= i < ranges.len() && character_bounds(#[trigger] ranges[i]) is Some implies
            after.contains(character_bounds(ranges[i])->0) by {
            let b = character_bounds(ranges[i])->0;
            if i < shorter.len() {
                assert(shorter[i] == ranges[i]);
                assert(before.contains(b));
                assert(after[before.index_of(b)] == b);
            } else {
                assert(after[before.len() as int] == b);
            }
        }
        assert forall|b: (u32, u32)| #[trigger] after.contains(b) implies exists|i: int|
            0 <= i < ranges.len() && character_bounds(#[trigger] ranges[i]) == Some(b) by {
            let k = after.index_of(b);
            if k < before.len() {
                assert(before[k] == b);
                assert(before.contains(b));
                let i = choose|i: int|
                    0 <= i < shorter.len() && character_bounds(#[trigger] shorter[i]) == Some(b);
                assert(ranges[i] == shorter[i]);
            } else {
                assert(character_bounds(ranges[ranges.len() - 1]) == Some(b));
            }
        }
    }
}

/// The text of a character in rendered source.
pub fn character_i32(c: u32) -> (r: String)
    ensures
        r@ == character_text(c),
{
    if c == 39 {
        "'\\'' as i32".to_owned()
    } else if c == 92 {
        "'\\\\' as i32".to_owned()
    } else if c == 0 {
        "0".to_owned()
    } else if 32 <= c && c < 127 {
        let mut r: String = "'".to_owned();
        r.push((c as u8) as char);
        assert(r@ =~= "'"@ + seq![c as char]);
        r.append("' as i32");
        r
    } else {
        let digits: String = padded_hexadecimal_text(c, 2);
        concat2("0x", digits.as_str())
    }
}

/// The test for a range of characters.
fn range_test(range: (u32, u32), is_included: bool, line_break: &str) -> (r: String)
    requires
        range.0 <= range.1 < END,
    ensures
        r@ == CharacterTest::of_range(range, is_included).text(line_break@),
{
    let (start, end): (u32, u32) = range;
    let first: String = character_i32(start);
    let last: String = character_i32(end);
    if is_included {
        if start == 0 && end == 0 {
            concat3("(!eof && lookahead == 0", last.as_str(), ")")
        } else if start == 0 {
            concat3("(!eof && lookahead <= ", last.as_str(), ")")
        } else if end == start {
            concat2("lookahead == ", first.as_str())
        } else if end == start + 1 {
            let mut r: String = concat5(
                "lookahead == ",
                first.as_str(),
                " ||",
                line_break,
                "lookahead == ",
            );
            r.append(last.as_str());
            r
        } else {
            concat5(
                "(",
                first.as_str(),
                " <= lookahead && lookahead <= ",
                last.as_str(),
                ")",
            )
        }
    } else {
        if end == start {
            concat2("lookahead != ", first.as_str())
        } else if end == start + 1 {
            let mut r: String = concat5(
                "lookahead != ",
                first.as_str(),
                " &&",
                line_break,
                "lookahead != ",
            );
            r.append(last.as_str());
            r
        } else if start != 0 {
            let bound: String = if 32 <= end && end < 127 {
                concat3("(", last.as_str(), ")")
            } else {
                last
            };
            concat5("(lookahead < ", first.as_str(), " || ", bound.as_str(), " < lookahead)")
        } else {
            concat2("lookahead > ", last.as_str())
        }
    }
}

/// The tests for the ranges of a set.
pub fn character_range_conditions(
    characters: &CharacterSet,
    is_included: bool,
    line_break: &str,
) -> (r: String)
    requires
        characters.wf(),
    ensures
        r@ == range_conditions(character_ranges(characters.ranges@), is_included, line_break@),
{
    let ranges: Vec<(u32, u32)> = characters.character_ranges();
    proof {
        lemma_character_ranges(characters.ranges@);
    }
    let mut r: String = String::new();
    let mut i: usize = 0;
    while i < ranges.len()
        invariant
            characters.wf(),
            ranges@ == character_ranges(characters.ranges@),
            forall|b: (u32, u32)| #[trigger]
                ranges@.contains(b) ==> exists|i: int|
                    0 <= i < characters.ranges@.len() && character_bounds(
                        #[trigger] characters.ranges@[i],
                    ) == Some(b),
            i <= ranges@.len(),
            r@ == conditions_upto(ranges@, is_included, line_break@, i as nat),
        decreases ranges@.len() - i,
    {
        if i > 0 {
            if is_included {
                r.append(" ||");
            } else {
                r.append(" &&");
            }
            r.append(line_break);
        }
        assert(ranges@.contains(ranges@[i as int]));
        r.append(range_test(ranges[i], is_included, line_break).as_str());
        i += 1;
    }
    r
}

} // verus!
