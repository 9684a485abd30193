//! What the ranges of a set of characters say, and what becomes of them.
use vstd::prelude::*;

use crate::nfa::{
    character_bounds, character_ranges, covers, has_all, is_canonical, lemma_simplified_upto,
    range_has, simplified, simplified_upto, CharacterSet, CodepointRange,
};

verus! {

/// A set has a code point if one of its ranges starts at or before it and ends behind it.
pub proof fn sets_have_what_their_ranges_have(set: CharacterSet, c: int)
    ensures
        set@.contains(c) <==> exists|i: int|
            0 <= i < set.ranges@.len() && (#[trigger] set.ranges@[i]).start <= c
                < set.ranges@[i].end,
{
    if exists|i: int|
        0 <= i < set.ranges@.len() && (#[trigger] set.ranges@[i]).start <= c < set.ranges@[i].end {
        let i = choose|i: int|
            0 <= i < set.ranges@.len() && (#[trigger] set.ranges@[i]).start <= c
                < set.ranges@[i].end;
        assert(range_has(set.ranges@[i], c));
    }
}

/// Some code point from `start` up to, but not including, `end` is not in `s`.
pub open spec fn lacks_one(s: Set<int>, start: int, end: int) -> bool {
    exists|c: int| start <= c < end && !#[trigger] s.contains(c)
}

/// What is left of ranges after simplification: each piece starts where a range starts and ends
/// where one ends, has a code point that is not ignored, and is parted from the next by one.
pub open spec fn is_reduced(
    pieces: Seq<CodepointRange>,
    ranges: Seq<CodepointRange>,
    ignored: Set<int>,
) -> bool {
    forall|i: int|
        0 <= i < pieces.len() ==> {
            &&& lacks_one(ignored, (#[trigger] pieces[i]).start as int, pieces[i].end as int)
            &&& i + 1 < pieces.len() ==> lacks_one(
                ignored,
                pieces[i].end as int,
                pieces[i + 1].start as int,
            )
            &&& exists|k: int| 0 <= k < ranges.len() && (#[trigger] ranges[k]).start == pieces[i].start
            &&& exists|k: int| 0 <= k < ranges.len() && (#[trigger] ranges[k]).end == pieces[i].end
        }
}

/// Ranges are simplified as far as they can be: no range that is ignored as a whole is left, and
/// none that is parted from the next by ignored code points only. What is not ignored stays.
pub proof fn ranges_are_simplified(ranges: Seq<CodepointRange>, ignored: Set<int>, c: int)
    requires
        is_canonical(ranges),
    ensures
        is_reduced(simplified(ranges, ignored), ranges, ignored),
        is_canonical(simplified(ranges, ignored)),
        !ignored.contains(c) ==> ((exists|i: int|
            0 <= i < ranges.len() && (#[trigger] ranges[i]).start <= c < ranges[i].end) <==> (
        exists|i: int|
            0 <= i < simplified(ranges, ignored).len() && (#[trigger] simplified(ranges, ignored)[i]).start
                <= c < simplified(ranges, ignored)[i].end)),
{
    let pieces = simplified(ranges, ignored);
    lemma_reduced(ranges, ignored, ranges.len());
    lemma_simplified_upto(ranges, ignored, ranges.len());
    assert(ranges.take(ranges.len() as int) =~= ranges);
    if !ignored.contains(c) {
        assert(covers(pieces, c) == covers(ranges, c));
        lemma_covered(pieces, c);
        lemma_covered(ranges, c);
    }
}

proof fn lemma_covered(ranges: Seq<CodepointRange>, c: int)
    ensures
        covers(ranges, c) <==> exists|i: int|
            0 <= i < ranges.len() && (#[trigger] ranges[i]).start <= c < ranges[i].end,
{
    if exists|i: int| 0 <= i < ranges.len() && (#[trigger] ranges[i]).start <= c < ranges[i].end {
        let i = choose|i: int|
            0 <= i < ranges.len() && (#[trigger] ranges[i]).start <= c < ranges[i].end;
        assert(range_has(ranges[i], c));
    }
}

proof fn lemma_lacks_one(s: Set<int>, start: int, end: int)
    ensures
        has_all(s, start, end) == !lacks_one(s, start, end),
{
}

proof fn lemma_reduced(ranges: Seq<CodepointRange>, ignored: Set<int>, n: nat)
    requires
        is_canonical(ranges),
        n <= ranges.len(),
    ensures
        is_reduced(simplified_upto(ranges, ignored, n), ranges, ignored),
    decreases n,
{
    if n > 0 {
        let before = simplified_upto(ranges, ignored, (n - 1) as nat);
        let after = simplified_upto(ranges, ignored, n);
        let range = ranges[n - 1];
        lemma_reduced(ranges, ignored, (n - 1) as nat);
        lemma_simplified_upto(ranges, ignored, (n - 1) as nat);
        lemma_lacks_one(ignored, range.start as int, range.end as int);
        if before.len() > 0 {
            lemma_lacks_one(ignored, before.last().end as int, range.start as int);
        }
        if has_all(ignored, range.start as int, range.end as int) {
        } else {
            if n > 1 {
                assert(ranges[n - 2].end < ranges[n - 1].start);
            }
            assert forall|i: int| 0 <= i < after.len() implies {
                &&& lacks_one(ignored, (#[trigger] after[i]).start as int, after[i].end as int)
                &&& i + 1 < after.len() ==> lacks_one(
                    ignored,
                    after[i].end as int,
                    after[i + 1].start as int,
                )
                &&& exists|k: int|
                    0 <= k < ranges.len() && (#[trigger] ranges[k]).start == after[i].start
                &&& exists|k: int| 0 <= k < ranges.len() && (#[trigger] ranges[k]).end == after[i].end
            } by {
                assert(ranges[n - 1] == range);
                if i < before.len() {
                    assert(before[i].start == after[i].start);
                    if i + 1 < before.len() {
                        assert(before[i + 1].start == after[i + 1].start);
                    }
                    if i + 1 == before.len() && after.len() == before.len() {
                        let c = choose|c: int|
                            range.start <= c < range.end && !#[trigger] ignored.contains(c);
                        assert(before[i].start < before[i].end);
                        assert(after[i].start <= c < after[i].end && !ignored.contains(c));
                    }
                }
            }
        }
    }
}

/// The code point is none of those that stand for halves of characters.
pub open spec fn is_character(c: int) -> bool {
    !(0xD800 <= c <= 0xDFFF)
}

/// A range adds its first and its last character, if it has any.
pub proof fn ranges_add_their_characters(ranges: Seq<CodepointRange>, range: CodepointRange)
    requires
        range.start < range.end <= 0x110000,
    ensures
        character_ranges(Seq::empty()) == Seq::<(u32, u32)>::empty(),
        ({
            let before = character_ranges(ranges);
            let after = character_ranges(ranges.push(range));
            let (first, last) = after.last();
            if exists|c: int| range.start <= c < range.end && #[trigger] is_character(c) {
                &&& after.len() == before.len() + 1
                &&& after.drop_last() == before
                &&& range.start <= first <= last < range.end
                &&& is_character(first as int)
                &&& is_character(last as int)
                &&& forall|c: int|
                    range.start <= c < range.end && #[trigger] is_character(c) ==> first <= c
                        <= last
            } else {
                after == before
            }
        }),
{
    let bounds = |range: CodepointRange| character_bounds(range);
    reveal(Seq::filter_map);
    assert(ranges.push(range).drop_last() =~= ranges);
    assert(character_ranges(Seq::empty()) =~= Seq::<(u32, u32)>::empty());
    match character_bounds(range) {
        Some((first, last)) => {
            assert(is_character(first as int) && is_character(last as int));
            assert(character_ranges(ranges.push(range)).drop_last() =~= character_ranges(ranges));
        },
        None => {
            assert(character_ranges(ranges.push(range)) =~= character_ranges(ranges));
        },
    }
}

} // verus!
