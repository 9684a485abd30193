//! What rendered numbers and lines give back.
use vstd::prelude::*;

use crate::text::{
    array_lines, decimal, digit, indent, lemma_decimal_nonempty, line, lines_at, signed_decimal,
    text_of, truth, zero_padded,
};

verus! {

/// The number with the given decimal digits.
pub open spec fn decimal_value(digits: Seq<char>) -> int
    decreases digits.len(),
{
    if digits.len() == 0 {
        0
    } else {
        decimal_value(digits.drop_last()) * 10 + (digits.last() as int - 48)
    }
}

/// The decimal form of a number has only digits, begins with a zero only where it is one, and
/// gives the number back.
pub proof fn decimal_gives_number(n: nat)
    ensures
        decimal(n).len() > 0,
        forall|i: int| 0 <= i < decimal(n).len() ==> '0' <= #[trigger] decimal(n)[i] <= '9',
        decimal(n)[0] == '0' ==> n == 0,
        decimal_value(decimal(n)) == n,
    decreases n,
{
    lemma_decimal_nonempty(n);
    reveal_with_fuel(decimal_value, 2);
    if n >= 10 {
        decimal_gives_number(n / 10);
        assert(decimal(n).drop_last() =~= decimal(n / 10));
        assert(decimal(n).last() == digit(n % 10));
        assert(decimal(n)[0] == decimal(n / 10)[0]);
    } else {
        assert(decimal(n).drop_last() =~= Seq::<char>::empty());
        assert(decimal(n).last() == digit(n));
    }
}

/// A negative number is written as its magnitude behind a minus sign, and any other as it is.
pub proof fn signed_decimal_gives_number(n: int)
    ensures
        n < 0 ==> signed_decimal(n)[0] == '-' && decimal_value(signed_decimal(n).drop_first())
            == -n,
        n >= 0 ==> decimal_value(signed_decimal(n)) == n,
{
    if n < 0 {
        decimal_gives_number((-n) as nat);
        assert(signed_decimal(n).drop_first() =~= decimal((-n) as nat));
    } else {
        decimal_gives_number(n as nat);
    }
}

/// Digits are filled up with zeros in front, and nothing else is changed.
pub proof fn padding_adds_zeros(digits: Seq<char>, width: nat)
    ensures
        zero_padded(digits, width).len() >= width,
        zero_padded(digits, width).len() >= digits.len(),
        zero_padded(digits, width).len() == width || zero_padded(digits, width) == digits,
        zero_padded(digits, width).skip(zero_padded(digits, width).len() - digits.len()) == digits,
        forall|i: int|
            0 <= i < zero_padded(digits, width).len() - digits.len() ==> #[trigger] zero_padded(
                digits,
                width,
            )[i] == '0',
{
    let padded = zero_padded(digits, width);
    assert(padded.skip(padded.len() - digits.len()) =~= digits);
}

/// Truth values are spelled as in Rust.
pub proof fn truth_values_are_spelled()
    ensures
        truth(true) == "true"@,
        truth(false) == "false"@,
{
}

/// A line has four blanks for each nesting level, and then its content.
pub proof fn lines_are_indented(level: nat, content: Seq<char>)
    ensures
        line(level, content).len() == 4 * level + content.len(),
        forall|i: int| 0 <= i < 4 * level ==> #[trigger] line(level, content)[i] == ' ',
        line(level, content).skip(4 * level as int) == content,
{
    lemma_indent(level);
    assert(line(level, content).skip(4 * level as int) =~= content);
}

proof fn lemma_indent(level: nat)
    ensures
        indent(level).len() == 4 * level,
        forall|i: int| 0 <= i < 4 * level ==> #[trigger] indent(level)[i] == ' ',
    decreases level,
{
    reveal_strlit("    ");
    if level > 0 {
        lemma_indent((level - 1) as nat);
    }
}

/// Each of several contents has its line.
pub proof fn contents_have_lines(level: nat, contents: Seq<Seq<char>>)
    ensures
        lines_at(level, contents).len() == contents.len(),
        forall|i: int|
            0 <= i < contents.len() ==> #[trigger] lines_at(level, contents)[i] == line(
                level,
                contents[i],
            ),
{
}

/// A text has its lines one after another, each with a line feed behind it.
pub proof fn text_has_its_lines(lines: Seq<Seq<char>>, last: Seq<char>)
    ensures
        text_of(Seq::<Seq<char>>::empty()) == Seq::<char>::empty(),
        text_of(lines.push(last)) == text_of(lines) + last.push('\n'),
{
    reveal_strlit("\n");
    assert(lines.push(last).drop_last() =~= lines);
    assert(text_of(lines.push(last)) =~= text_of(lines) + last.push('\n'));
}

/// The lines have the given block of lines at a place.
pub open spec fn is_block_at<T>(lines: Seq<T>, block: Seq<T>, place: int) -> bool {
    &&& 0 <= place
    &&& place + block.len() <= lines.len()
    &&& lines.subrange(place, place + block.len()) == block
}

/// The lines have the given block of lines.
pub open spec fn has_block<T>(lines: Seq<T>, block: Seq<T>) -> bool {
    exists|place: int| is_block_at(lines, block, place)
}

/// The lines have an array at a place: a head, a line for each row, and the end of the array.
pub open spec fn is_array_at(
    lines: Seq<Seq<char>>,
    head: Seq<char>,
    rows: Seq<Seq<char>>,
    place: int,
) -> bool {
    &&& 0 <= place
    &&& place + rows.len() + 2 <= lines.len()
    &&& lines[place] == head
    &&& forall|i: int| 0 <= i < rows.len() ==> lines[place + 1 + i] == "    "@ + #[trigger] rows[i]
    &&& lines[place + 1 + rows.len()] == "];"@
}

/// The lines have an array with the given head and rows.
pub open spec fn has_array(
    lines: Seq<Seq<char>>,
    head: Seq<char>,
    rows: Seq<Seq<char>>,
) -> bool {
    exists|place: int| is_array_at(lines, head, rows, place)
}

/// Where the lines have a sum of two blocks, they have each of them.
pub proof fn lemma_peel<T>(lines: Seq<T>, a: Seq<T>, b: Seq<T>)
    requires
        has_block(lines, a + b),
    ensures
        has_block(lines, a),
        has_block(lines, b),
{
    let p = choose|p: int| is_block_at(lines, a + b, p);
    let sum = lines.subrange(p, p + (a + b).len());
    assert(lines.subrange(p, p + a.len()) =~= a) by {
        assert forall|i: int| 0 <= i < a.len() implies lines[p + i] == a[i] by {
            assert(sum[i] == a[i]);
        }
    }
    assert(is_block_at(lines, a, p));
    let q = p + a.len();
    assert(lines.subrange(q, q + b.len()) =~= b) by {
        assert forall|i: int| 0 <= i < b.len() implies lines[q + i] == b[i] by {
            assert(sum[a.len() + i] == b[i]);
        }
    }
    assert(is_block_at(lines, b, q));
}

/// All lines are a block of themselves.
pub proof fn lemma_whole_block<T>(lines: Seq<T>)
    ensures
        has_block(lines, lines),
{
    assert(lines.subrange(0, lines.len() as int) =~= lines);
    assert(is_block_at(lines, lines, 0));
}

/// What stands in a block stands in the lines.
pub proof fn lemma_block_contains<T>(lines: Seq<T>, block: Seq<T>, x: T)
    requires
        has_block(lines, block),
        block.contains(x),
    ensures
        lines.contains(x),
{
    let p = choose|p: int| is_block_at(lines, block, p);
    let i = block.index_of(x);
    assert(lines.subrange(p, p + block.len())[i] == x);
    assert(lines[p + i] == x);
}

/// Where the lines have the lines of an array, they have the array.
pub proof fn lemma_array(lines: Seq<Seq<char>>, head: Seq<char>, rows: Seq<Seq<char>>)
    requires
        has_block(lines, array_lines(head, rows)),
    ensures
        has_array(lines, head, rows),
{
    let block = array_lines(head, rows);
    let p = choose|p: int| is_block_at(lines, block, p);
    let part = lines.subrange(p, p + block.len());
    assert(block.len() == rows.len() + 3);
    assert(part[0] == block[0] && block[0] == head);
    assert forall|i: int| 0 <= i < rows.len() implies lines[p + 1 + i] == "    "@
        + #[trigger] rows[i] by {
        assert(part[1 + i] == block[1 + i]);
        assert(block[1 + i] == line(1, rows[i]));
        reveal_with_fuel(indent, 2);
        assert(indent(1) =~= "    "@);
    }
    assert(part[rows.len() as int + 1] == block[rows.len() as int + 1]);
    assert(block[rows.len() as int + 1] == "];"@);
    assert(is_array_at(lines, head, rows, p));
}

} // verus!
