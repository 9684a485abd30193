//! Sets of characters, as sorted lists of code point ranges.
use vstd::prelude::*;

verus! {

/// The number that follows the last code point.
pub const END: u32 = 0x110000;

/// The code points from `start` up to, but not including, `end`.
#[derive(Clone, Copy, Debug, PartialEq, Eq, Structural)]
pub struct CodepointRange {
    pub start: u32,
    pub end: u32,
}

/// The range has `c`.
pub open spec fn range_has(range: CodepointRange, c: int) -> bool {
    range.start <= c < range.end
}

/// One of the ranges has `c`.
pub open spec fn covers(ranges: Seq<CodepointRange>, c: int) -> bool {
    exists|i: int| 0 <= i < ranges.len() && range_has(#[trigger] ranges[i], c)
}

/// The code points that the ranges have.
pub open spec fn codepoints(ranges: Seq<CodepointRange>) -> Set<int> {
    Set::new(|c: int| covers(ranges, c))
}

/// No range is empty, and each is followed by a gap before the next.
pub open spec fn is_canonical(ranges: Seq<CodepointRange>) -> bool {
    &&& forall|i: int|
        0 <= i < ranges.len() ==> (#[trigger] ranges[i]).start < ranges[i].end <= END
    &&& forall|i: int, j: int|
        0 <= i < j < ranges.len() ==> (#[trigger] ranges[i]).end < (#[trigger] ranges[j]).start
}

/// The fewest ranges that have the code points of `s`, in ascending order.
pub open spec fn ranges_of(s: Set<int>) -> Seq<CodepointRange> {
    choose|ranges: Seq<CodepointRange>| #[trigger] is_canonical(ranges) && codepoints(ranges) == s
}

/// All code points from `start` up to, but not including, `end` are in `s`.
pub open spec fn has_all(s: Set<int>, start: int, end: int) -> bool {
    forall|c: int| start <= c < end ==> #[trigger] s.contains(c)
}

/// The first `n` of the ranges, without those that lie in `ignored`, and with those joined
/// that only code points in `ignored` part.
pub open spec fn simplified_upto(ranges: Seq<CodepointRange>, ignored: Set<int>, n: nat) -> Seq<
    CodepointRange,
>
    decreases n,
{
    if n == 0 {
        Seq::empty()
    } else {
        let before = simplified_upto(ranges, ignored, (n - 1) as nat);
        let range = ranges[n - 1];
        if has_all(ignored, range.start as int, range.end as int) {
            before
        } else if before.len() > 0 && has_all(ignored, before.last().end as int, range.start as int) {
            before.drop_last().push(CodepointRange { start: before.last().start, end: range.end })
        } else {
            before.push(range)
        }
    }
}

/// A reduced list of ranges, which may differ from the given one on code points in `ignored`.
pub open spec fn simplified(ranges: Seq<CodepointRange>, ignored: Set<int>) -> Seq<CodepointRange> {
    simplified_upto(ranges, ignored, ranges.len())
}

/// The first and the last character of a range: code points that are no surrogates.
pub open spec fn character_bounds(range: CodepointRange) -> Option<(u32, u32)> {
    let first = if 0xD800 <= range.start < 0xE000 {
        0xE000u32
    } else {
        range.start
    };
    let last = if 0xD800 <= range.end - 1 < 0xE000 {
        0xD7FFu32
    } else {
        (range.end - 1) as u32
    };
    if first <= last {
        Some((first, last))
    } else {
        None
    }
}

/// The first and last characters of those ranges that have characters.
pub open spec fn character_ranges(ranges: Seq<CodepointRange>) -> Seq<(u32, u32)> {
    ranges.filter_map(|range: CodepointRange| character_bounds(range))
}

/// Ranges in canonical form are determined by their code points.
pub proof fn lemma_canonical_same(a: Seq<CodepointRange>, b: Seq<CodepointRange>)
    requires
        is_canonical(a),
        is_canonical(b),
        codepoints(a) == codepoints(b),
    ensures
        a == b,
    decreases a.len(),
{
    assert forall|c: int| covers(a, c) == covers(b, c) by {
        assert(covers(a, c) == codepoints(a).contains(c));
        assert(covers(b, c) == codepoints(b).contains(c));
    }
    if a.len() == 0 {
        if b.len() > 0 {
            assert(range_has(b[0], b[0].start as int));
            assert(covers(b, b[0].start as int));
        }
        assert(a =~= b);
    } else {
        assert(range_has(a[0], a[0].start as int));
        assert(covers(b, a[0].start as int));
        assert(b.len() > 0);
        assert(range_has(b[0], b[0].start as int));
        assert(covers(a, b[0].start as int));
        assert(a[0].start == b[0].start) by {
            let i = choose|i: int| 0 <= i < a.len() && range_has(#[trigger] a[i], b[0].start as int);
            let j = choose|j: int| 0 <= j < b.len() && range_has(#[trigger] b[j], a[0].start as int);
            if i > 0 {
                assert(a[0].end < a[i].start);
            }
            if j > 0 {
                assert(b[0].end < b[j].start);
            }
        }
        lemma_gap_after_first(a);
        lemma_gap_after_first(b);
        assert(a[0].end == b[0].end) by {
            if a[0].end < b[0].end {
                assert(range_has(b[0], a[0].end as int));
                assert(covers(b, a[0].end as int));
            }
            if b[0].end < a[0].end {
                assert(range_has(a[0], b[0].end as int));
                assert(covers(a, b[0].end as int));
            }
        }
        lemma_drop_first_canonical(a);
        lemma_drop_first_canonical(b);
        assert(codepoints(a.drop_first()) =~= codepoints(b.drop_first()));
        lemma_canonical_same(a.drop_first(), b.drop_first());
        assert(a =~= seq![a[0]] + a.drop_first());
        assert(b =~= seq![b[0]] + b.drop_first());
    }
}

proof fn lemma_gap_after_first(a: Seq<CodepointRange>)
    requires
        is_canonical(a),
        a.len() > 0,
    ensures
        !covers(a, a[0].end as int),
{
    if covers(a, a[0].end as int) {
        let i = choose|i: int| 0 <= i < a.len() && range_has(#[trigger] a[i], a[0].end as int);
        if i > 0 {
            assert(a[0].end < a[i].start);
        }
    }
}

proof fn lemma_drop_first_canonical(a: Seq<CodepointRange>)
    requires
        is_canonical(a),
        a.len() > 0,
    ensures
        is_canonical(a.drop_first()),
        forall|c: int|
            #![trigger covers(a.drop_first(), c)]
            covers(a.drop_first(), c) == (covers(a, c) && !range_has(a[0], c)),
{
    let d = a.drop_first();
    assert forall|c: int| #![trigger covers(d, c)] covers(d, c) == (covers(a, c) && !range_has(
        a[0],
        c,
    )) by {
        if covers(d, c) {
            let i = choose|i: int| 0 <= i < d.len() && range_has(#[trigger] d[i], c);
            assert(range_has(a[i + 1], c));
            assert(a[0].end < a[i + 1].start);
        }
        if covers(a, c) && !range_has(a[0], c) {
            let i = choose|i: int| 0 <= i < a.len() && range_has(#[trigger] a[i], c);
            assert(range_has(d[i - 1], c));
        }
    }
}

/// Canonical ranges are the canonical ranges of their code points.
pub proof fn lemma_ranges_of(ranges: Seq<CodepointRange>)
    requires
        is_canonical(ranges),
    ensures
        ranges_of(codepoints(ranges)) == ranges,
{
    lemma_canonical_same(ranges_of(codepoints(ranges)), ranges);
}

/// Each canonical range but the first has at least two code points before it that the
/// previous one has not, so there are far fewer ranges than code points.
pub proof fn lemma_range_count(ranges: Seq<CodepointRange>)
    requires
        is_canonical(ranges),
    ensures
        ranges.len() <= END,
        ranges.len() > 0 ==> ranges.len() <= ranges.last().end,
    decreases ranges.len(),
{
    if ranges.len() > 1 {
        lemma_range_count(ranges.drop_last());
        assert(ranges[ranges.len() - 2].end < ranges[ranges.len() - 1].start);
    }
}

/// What `simplified_upto` keeps: the form of its list, and the code points outside `ignored`.
pub proof fn lemma_simplified_upto(ranges: Seq<CodepointRange>, ignored: Set<int>, n: nat)
    requires
        is_canonical(ranges),
        n <= ranges.len(),
    ensures
        is_canonical(simplified_upto(ranges, ignored, n)),
        simplified_upto(ranges, ignored, n).len() <= n,
        simplified_upto(ranges, ignored, n).len() > 0 ==> simplified_upto(
            ranges,
            ignored,
            n,
        ).last().end <= ranges[n - 1].end,
        forall|c: int|
            !ignored.contains(c) ==> #[trigger] covers(simplified_upto(ranges, ignored, n), c)
                == covers(ranges.take(n as int), c),
    decreases n,
{
    let out = simplified_upto(ranges, ignored, n);
    if n > 0 {
        let before = simplified_upto(ranges, ignored, (n - 1) as nat);
        lemma_simplified_upto(ranges, ignored, (n - 1) as nat);
        let range = ranges[n - 1];
        if n > 1 {
            assert(ranges[n - 2].end < ranges[n - 1].start);
        }
        assert forall|c: int| !ignored.contains(c) implies #[trigger] covers(out, c) == covers(
            ranges.take(n as int),
            c,
        ) by {
            lemma_covers_push(ranges.take(n - 1), range, c);
            assert(ranges.take(n as int) =~= ranges.take(n - 1).push(range));
            assert(covers(before, c) == covers(ranges.take(n - 1), c));
            if has_all(ignored, range.start as int, range.end as int) {
            } else if before.len() > 0 && has_all(
                ignored,
                before.last().end as int,
                range.start as int,
            ) {
                let joined = CodepointRange { start: before.last().start, end: range.end };
                lemma_covers_push(before.drop_last(), joined, c);
                lemma_covers_push(before.drop_last(), before.last(), c);
                assert(before =~= before.drop_last().push(before.last()));
            } else {
                lemma_covers_push(before, range, c);
            }
        }
    } else {
        assert(ranges.take(0) =~= Seq::<CodepointRange>::empty());
    }
}

/// Adding a range adds its code points.
pub proof fn lemma_covers_push(ranges: Seq<CodepointRange>, range: CodepointRange, c: int)
    ensures
        covers(ranges.push(range), c) == (covers(ranges, c) || range_has(range, c)),
{
    let more = ranges.push(range);
    if covers(ranges, c) {
        let i = choose|i: int| 0 <= i < ranges.len() && range_has(#[trigger] ranges[i], c);
        assert(range_has(more[i], c));
    }
    if range_has(range, c) {
        assert(range_has(more[ranges.len() as int], c));
    }
    if covers(more, c) {
        let i = choose|i: int| 0 <= i < more.len() && range_has(#[trigger] more[i], c);
        if i < ranges.len() {
            assert(range_has(ranges[i], c));
        }
    }
}

/// A set of characters.
#[derive(Debug, PartialEq, Eq)]
pub struct CharacterSet {
    pub ranges: Vec<CodepointRange>,
}

impl View for CharacterSet {
    type V = Set<int>;

    open spec fn view(&self) -> Set<int> {
        codepoints(self.ranges@)
    }
}

impl CharacterSet {
    /// The ranges are in canonical form.
    pub open spec fn wf(&self) -> bool {
        is_canonical(self.ranges@)
    }

    /// The set without characters.
    pub fn empty() -> (r: Self)
        ensures
            r.wf(),
            r@ == Set::<int>::empty(),
    {
        let r: CharacterSet = CharacterSet { ranges: Vec::new() };
        assert(r@ =~= Set::<int>::empty());
        r
    }

    /// The code points from `start` up to, but not including, `end`.
    pub fn from_codepoints(start: u32, end: u32) -> (r: Self)
        requires
            start < end <= END,
        ensures
            r.wf(),
            r@ == Set::new(|c: int| start <= c < end),
    {
        let mut ranges: Vec<CodepointRange> = Vec::new();
        ranges.push(CodepointRange { start, end });
        let r: CharacterSet = CharacterSet { ranges };
        assert forall|c: int| covers(r.ranges@, c) == (start <= c < end) by {
            if start <= c < end {
                assert(range_has(r.ranges@[0], c));
            }
        }
        assert(r@ =~= Set::new(|c: int| start <= c < end));
        r
    }

    /// The number of ranges.
    pub fn range_count(&self) -> (n: usize)
        ensures
            n == self.ranges@.len(),
    {
        self.ranges.len()
    }

    /// The set has no characters.
    pub fn is_empty(&self) -> (r: bool)
        ensures
            r == (self.ranges@.len() == 0),
            self.wf() ==> r == (self@ == Set::<int>::empty()),
    {
        proof {
            if self.wf() {
                if self.ranges@.len() > 0 {
                    assert(range_has(self.ranges@[0], self.ranges@[0].start as int));
                    assert(self@.contains(self.ranges@[0].start as int));
                } else {
                    assert(self@ =~= Set::<int>::empty());
                }
            }
        }
        self.ranges.len() == 0
    }

    /// The first and last characters of the ranges.
    pub fn character_ranges(&self) -> (r: Vec<(u32, u32)>)
        requires
            self.wf(),
        ensures
            r@ == character_ranges(self.ranges@),
    {
        let ghost bounds = |range: CodepointRange| character_bounds(range);
        let mut r: Vec<(u32, u32)> = Vec::new();
        let mut i: usize = 0;
        assert(self.ranges@.take(0).filter_map(bounds) =~= Seq::<(u32, u32)>::empty());
        while i < self.ranges.len()
            invariant
                self.wf(),
                bounds == (|range: CodepointRange| character_bounds(range)),
                i <= self.ranges@.len(),
                r@ == self.ranges@.take(i as int).filter_map(bounds),
            decreases self.ranges@.len() - i,
        {
            let range: CodepointRange = self.ranges[i];
            let first: u32 = if 0xD800 <= range.start && range.start < 0xE000 {
                0xE000
            } else {
                range.start
            };
            let last: u32 = if 0xD800 <= range.end - 1 && range.end - 1 < 0xE000 {
                0xD7FF
            } else {
                range.end - 1
            };
            proof {
                self.ranges@.lemma_filter_map_take_succ(bounds, i as int);
            }
            if first <= last {
                r.push((first, last));
            }
            i += 1;
        }
        assert(self.ranges@.take(i as int) =~= self.ranges@);
        r
    }

    /// All code points from `start` up to, but not including, `end` are in the set.
    pub fn contains_codepoint_range(&self, start: u32, end: u32) -> (r: bool)
        requires
            self.wf(),
            start < end,
        ensures
            r == has_all(self@, start as int, end as int),
    {
        let mut i: usize = 0;
        while i < self.ranges.len()
            invariant
                self.wf(),
                start < end,
                i <= self.ranges@.len(),
                forall|j: int| 0 <= j < i ==> !range_has(#[trigger] self.ranges@[j], start as int),
            decreases self.ranges@.len() - i,
        {
            let range: CodepointRange = self.ranges[i];
            if range.start <= start && start < range.end {
                if end <= range.end {
                    assert forall|c: int| start <= c < end implies #[trigger] self@.contains(c) by {
                        assert(range_has(self.ranges@[i as int], c));
                    }
                    return true;
                } else {
                    assert(!self@.contains(range.end as int)) by {
                        if covers(self.ranges@, range.end as int) {
                            let k = choose|k: int|
                                0 <= k < self.ranges@.len() && range_has(
                                    #[trigger] self.ranges@[k],
                                    range.end as int,
                                );
                            if k > i {
                                assert(self.ranges@[i as int].end < self.ranges@[k].start);
                            } else if k < i {
                                assert(self.ranges@[k].end < self.ranges@[i as int].start);
                            }
                        }
                    }
                    return false;
                }
            }
            i += 1;
        }
        assert(!self@.contains(start as int));
        false
    }

    /// The code point is in the set.
    pub fn contains(&self, c: u32) -> (r: bool)
        requires
            self.wf(),
            c < END,
        ensures
            r == self@.contains(c as int),
    {
        let r: bool = self.contains_codepoint_range(c, c + 1);
        assert(r ==> self@.contains(c as int));
        r
    }

    /// All code points that are not in the set.
    pub fn negate(&self) -> (r: Self)
        requires
            self.wf(),
        ensures
            r.wf(),
            r@ == Set::new(|c: int| 0 <= c < END && !self@.contains(c)),
    {
        let mut out: Vec<CodepointRange> = Vec::new();
        let mut previous_end: u32 = 0;
        let mut i: usize = 0;
        while i < self.ranges.len()
            invariant
                self.wf(),
                i <= self.ranges@.len(),
                previous_end == (if i == 0 {
                    0
                } else {
                    self.ranges@[i - 1].end
                }),
                is_canonical(out@),
                out@.len() > 0 ==> i > 0 && out@.last().end < previous_end,
                forall|c: int|
                    #[trigger] covers(out@, c) == (0 <= c < previous_end && !covers(
                        self.ranges@.take(i as int),
                        c,
                    )),
                forall|c: int| covers(self.ranges@.take(i as int), c) ==> c < previous_end,
            decreases self.ranges@.len() - i,
        {
            let range: CodepointRange = self.ranges[i];
            let ghost before = out@;
            let ghost start = previous_end;
            proof {
                if i > 0 {
                    assert(self.ranges@[i - 1].end < self.ranges@[i as int].start);
                }
            }
            if previous_end < range.start {
                out.push(CodepointRange { start: previous_end, end: range.start });
            }
            previous_end = range.end;
            i += 1;
            proof {
                let seen = self.ranges@.take(i - 1);
                assert(self.ranges@.take(i as int) =~= seen.push(range));
                assert forall|c: int| covers(self.ranges@.take(i as int), c) implies c < previous_end by {
                    lemma_covers_push(seen, range, c);
                }
                assert forall|c: int| #[trigger] covers(out@, c) == (0 <= c < previous_end && !covers(
                    self.ranges@.take(i as int),
                    c,
                )) by {
                    lemma_covers_push(seen, range, c);
                    assert(covers(before, c) == (0 <= c < start && !covers(seen, c)));
                    if start < range.start {
                        lemma_covers_push(
                            before,
                            CodepointRange { start: start, end: range.start },
                            c,
                        );
                    }
                }
            }
        }
        let ghost before = out@;
        assert(self.ranges@.take(i as int) =~= self.ranges@);
        proof {
            if i > 0 {
                assert(self.ranges@[i - 1].end <= END);
            }
        }
        if previous_end < END {
            out.push(CodepointRange { start: previous_end, end: END });
            proof {
                assert forall|c: int| #[trigger] covers(out@, c) == (0 <= c < END && !covers(
                    self.ranges@,
                    c,
                )) by {
                    lemma_covers_push(before, CodepointRange { start: previous_end, end: END }, c);
                }
            }
        }
        let r: CharacterSet = CharacterSet { ranges: out };
        assert forall|c: int| r@.contains(c) == (0 <= c < END && !self@.contains(c)) by {
            assert(covers(r.ranges@, c) == (0 <= c < END && !covers(self.ranges@, c)));
        }
        assert(r@ =~= Set::new(|c: int| 0 <= c < END && !self@.contains(c)));
        r
    }

    /// The code points that are in both sets.
    pub fn intersection(&self, other: &CharacterSet) -> (r: Self)
        requires
            self.wf(),
            other.wf(),
        ensures
            r.wf(),
            r@ == self@.intersect(other@),
    {
        let ghost a = self.ranges@;
        let ghost b = other.ranges@;
        let mut out: Vec<CodepointRange> = Vec::new();
        let mut i: usize = 0;
        let mut j: usize = 0;
        while i < self.ranges.len() && j < other.ranges.len()
            invariant
                a == self.ranges@,
                b == other.ranges@,
                is_canonical(a),
                is_canonical(b),
                i <= a.len(),
                j <= b.len(),
                is_canonical(out@),
                out@.len() > 0 ==> ((i > 0 && out@.last().end <= a[i - 1].end) || (j > 0
                    && out@.last().end <= b[j - 1].end)),
                forall|c: int| covers(out@, c) ==> covers(a, c) && covers(b, c),
                forall|c: int, k: int, l: int|
                    #![trigger range_has(a[k], c), range_has(b[l], c)]
                    0 <= k < a.len() && 0 <= l < b.len() && range_has(a[k], c) && range_has(b[l], c)
                        && (k < i || l < j) ==> covers(out@, c),
            decreases a.len() - i + b.len() - j,
        {
            let x: CodepointRange = self.ranges[i];
            let y: CodepointRange = other.ranges[j];
            let low: u32 = if x.start < y.start {
                y.start
            } else {
                x.start
            };
            let high: u32 = if x.end < y.end {
                x.end
            } else {
                y.end
            };
            let ghost before = out@;
            proof {
                if i > 0 {
                    assert(a[i - 1].end < a[i as int].start);
                }
                if j > 0 {
                    assert(b[j - 1].end < b[j as int].start);
                }
            }
            if low < high {
                out.push(CodepointRange { start: low, end: high });
            }
            proof {
                let added = CodepointRange { start: low, end: high };
                assert forall|c: int| covers(out@, c) implies covers(a, c) && covers(b, c) by {
                    if low < high {
                        lemma_covers_push(before, added, c);
                        if range_has(added, c) {
                            assert(range_has(a[i as int], c));
                            assert(range_has(b[j as int], c));
                        }
                    }
                }
                assert forall|c: int, k: int, l: int|
                    #![trigger range_has(a[k], c), range_has(b[l], c)]
                    0 <= k < a.len() && 0 <= l < b.len() && range_has(a[k], c) && range_has(b[l], c)
                        && (k < i || l < j || (k == i && l == j) || (k == i && x.end <= y.end) || (l
                        == j && y.end < x.end)) implies covers(out@, c) by {
                    if low < high {
                        lemma_covers_push(before, added, c);
                    }
                    if k < i || l < j {
                        assert(covers(before, c));
                    } else if k == i && l == j {
                        assert(range_has(added, c));
                    } else if k == i {
                        assert(b[j as int].end < b[l].start);
                    } else {
                        assert(a[i as int].end < a[k].start);
                    }
                }
            }
            if x.end <= y.end {
                i += 1;
            } else {
                j += 1;
            }
        }
        let r: CharacterSet = CharacterSet { ranges: out };
        assert forall|c: int| r@.contains(c) == self@.intersect(other@).contains(c) by {
            if covers(a, c) && covers(b, c) {
                let k = choose|k: int| 0 <= k < a.len() && range_has(#[trigger] a[k], c);
                let l = choose|l: int| 0 <= l < b.len() && range_has(#[trigger] b[l], c);
                assert(range_has(a[k], c) && range_has(b[l], c));
            }
        }
        assert(r@ =~= self@.intersect(other@));
        r
    }

    /// The code points that are in this set and not in the other.
    pub fn difference(&self, other: &CharacterSet) -> (r: Self)
        requires
            self.wf(),
            other.wf(),
        ensures
            r.wf(),
            r@ == self@.difference(other@),
    {
        let r: CharacterSet = self.intersection(&other.negate());
        proof {
            self.lemma_codepoints();
        }
        assert(r@ =~= self@.difference(other@));
        r
    }

    /// The code points that are in one of the sets or in both.
    pub fn add(&self, other: &CharacterSet) -> (r: Self)
        requires
            self.wf(),
            other.wf(),
        ensures
            r.wf(),
            r@ == self@.union(other@),
    {
        let r: CharacterSet = self.negate().intersection(&other.negate()).negate();
        proof {
            self.lemma_codepoints();
            other.lemma_codepoints();
        }
        assert(r@ =~= self@.union(other@));
        r
    }

    /// All members of a set are code points.
    pub proof fn lemma_codepoints(&self)
        requires
            self.wf(),
        ensures
            forall|c: int| #[trigger] self@.contains(c) ==> 0 <= c < END,
    {
    }

    /// An empty set has no ranges.
    pub proof fn lemma_no_ranges(&self)
        requires
            self.wf(),
            self@ == Set::<int>::empty(),
        ensures
            self.ranges@.len() == 0,
    {
        if self.ranges@.len() > 0 {
            assert(range_has(self.ranges@[0], self.ranges@[0].start as int));
            assert(self@.contains(self.ranges@[0].start as int));
        }
    }

    /// A reduced set of ranges that may differ from this one in the characters of `ignored`.
    pub fn simplify_ignoring(&self, ignored: &CharacterSet) -> (r: Self)
        requires
            self.wf(),
            ignored.wf(),
        ensures
            r.wf(),
            r.ranges@ == simplified(self.ranges@, ignored@),
            forall|c: int| !ignored@.contains(c) ==> #[trigger] r@.contains(c) == self@.contains(c),
    {
        let ghost ranges = self.ranges@;
        let mut out: Vec<CodepointRange> = Vec::new();
        let mut i: usize = 0;
        while i < self.ranges.len()
            invariant
                ranges == self.ranges@,
                is_canonical(ranges),
                ignored.wf(),
                i <= ranges.len(),
                out@ == simplified_upto(ranges, ignored@, i as nat),
            decreases ranges.len() - i,
        {
            let range: CodepointRange = self.ranges[i];
            proof {
                lemma_simplified_upto(ranges, ignored@, i as nat);
                if i > 0 {
                    assert(ranges[i - 1].end < ranges[i as int].start);
                }
            }
            if !ignored.contains_codepoint_range(range.start, range.end) {
                let n: usize = out.len();
                if n > 0 && ignored.contains_codepoint_range(out[n - 1].end, range.start) {
                    let start: u32 = out[n - 1].start;
                    let ghost before = out@;
                    out.pop();
                    out.push(CodepointRange { start, end: range.end });
                    assert(out@ =~= before.drop_last().push(
                        CodepointRange { start, end: range.end },
                    ));
                } else {
                    out.push(range);
                }
            }
            i += 1;
        }
        let r: CharacterSet = CharacterSet { ranges: out };
        proof {
            lemma_simplified_upto(ranges, ignored@, ranges.len());
            assert(ranges.take(ranges.len() as int) =~= ranges);
            assert forall|c: int| !ignored@.contains(c) implies #[trigger] r@.contains(c)
                == self@.contains(c) by {
                assert(covers(r.ranges@, c) == covers(ranges, c));
            }
        }
        r
    }
}

} // verus!
