//! Ascending sequences, and the lexicographic order of texts.
use vstd::prelude::*;

use crate::text::TextList;

verus! {

/// `lt` is a strict total order.
pub open spec fn is_strict_order<T>(lt: spec_fn(T, T) -> bool) -> bool {
    &&& forall|a: T, b: T| #[trigger] lt(a, b) ==> !lt(b, a)
    &&& forall|a: T, b: T, c: T| #[trigger] lt(a, b) && #[trigger] lt(b, c) ==> lt(a, c)
    &&& forall|a: T, b: T| #[trigger] lt(a, b) || a == b || lt(b, a)
}

/// Each element of `q` is less than all that follow it.
pub open spec fn is_ascending<T>(q: Seq<T>, lt: spec_fn(T, T) -> bool) -> bool {
    forall|i: int, j: int| 0 <= i < j < q.len() ==> lt(#[trigger] q[i], #[trigger] q[j])
}

/// The elements of `s` in ascending order.
pub open spec fn ascending<T>(s: Set<T>, lt: spec_fn(T, T) -> bool) -> Seq<T> {
    choose|q: Seq<T>| #[trigger] is_ascending(q, lt) && q.to_set() == s
}

/// A set has only one ascending sequence.
pub proof fn lemma_ascending_same<T>(p: Seq<T>, q: Seq<T>, lt: spec_fn(T, T) -> bool)
    requires
        is_strict_order(lt),
        is_ascending(p, lt),
        is_ascending(q, lt),
        p.to_set() == q.to_set(),
    ensures
        p == q,
    decreases p.len(),
{
    if p.len() == 0 {
        if q.len() > 0 {
            assert(q.to_set().contains(q[0]));
            assert(p.to_set().contains(q[0]));
        }
        assert(p =~= q);
    } else {
        assert(p.to_set().contains(p[0]));
        assert(q.contains(p[0]));
        assert(q.to_set().contains(q[0]));
        assert(p.contains(q[0]));
        let k = choose|k: int| 0 <= k < q.len() && q[k] == p[0];
        let m = choose|m: int| 0 <= m < p.len() && p[m] == q[0];
        assert(k == 0) by {
            if k > 0 {
                assert(lt(q[0], q[k]));
                if m > 0 {
                    assert(lt(p[0], p[m]));
                }
            }
        }
        let p1 = p.drop_first();
        let q1 = q.drop_first();
        assert(is_ascending(p1, lt)) by {
            assert forall|i: int, j: int| 0 <= i < j < p1.len() implies lt(#[trigger] p1[i], #[trigger] p1[j]) by {
                assert(lt(p[i + 1], p[j + 1]));
            }
        }
        assert(is_ascending(q1, lt)) by {
            assert forall|i: int, j: int| 0 <= i < j < q1.len() implies lt(#[trigger] q1[i], #[trigger] q1[j]) by {
                assert(lt(q[i + 1], q[j + 1]));
            }
        }
        assert(p1.to_set() =~= q1.to_set()) by {
            assert forall|x: T| p1.to_set().contains(x) <==> q1.to_set().contains(x) by {
                if p1.contains(x) {
                    let i = choose|i: int| 0 <= i < p1.len() && p1[i] == x;
                    assert(p[i + 1] == x);
                    assert(lt(p[0], p[i + 1]));
                    assert(p.to_set().contains(x));
                    assert(q.contains(x));
                    let j = choose|j: int| 0 <= j < q.len() && q[j] == x;
                    assert(j > 0);
                    assert(q1[j - 1] == x);
                }
                if q1.contains(x) {
                    let i = choose|i: int| 0 <= i < q1.len() && q1[i] == x;
                    assert(q[i + 1] == x);
                    assert(lt(q[0], q[i + 1]));
                    assert(q.to_set().contains(x));
                    assert(p.contains(x));
                    let j = choose|j: int| 0 <= j < p.len() && p[j] == x;
                    assert(j > 0);
                    assert(p1[j - 1] == x);
                }
            }
        }
        lemma_ascending_same(p1, q1, lt);
        assert(p =~= seq![p[0]] + p1);
        assert(q =~= seq![q[0]] + q1);
    }
}

/// An ascending sequence is the ascending sequence of its elements.
pub proof fn lemma_ascending_is<T>(q: Seq<T>, s: Set<T>, lt: spec_fn(T, T) -> bool)
    requires
        is_strict_order(lt),
        is_ascending(q, lt),
        q.to_set() == s,
    ensures
        ascending(s, lt) == q,
{
    lemma_ascending_same(ascending(s, lt), q, lt);
}

/// Putting a new element at its place keeps a sequence ascending.
pub proof fn lemma_insert_ascending<T>(q: Seq<T>, i: int, x: T, lt: spec_fn(T, T) -> bool)
    requires
        is_strict_order(lt),
        is_ascending(q, lt),
        0 <= i <= q.len(),
        forall|j: int| 0 <= j < i ==> lt(#[trigger] q[j], x),
        i < q.len() ==> lt(x, q[i]),
    ensures
        is_ascending(q.insert(i, x), lt),
        q.insert(i, x).to_set() == q.to_set().insert(x),
{
    let r = q.insert(i, x);
    q.insert_ensures(i, x);
    assert forall|a: int, b: int| 0 <= a < b < r.len() implies lt(#[trigger] r[a], #[trigger] r[b]) by {
        let qa = if a < i { a } else { a - 1 };
        let qb = if b < i { b } else { b - 1 };
        if a != i && b != i {
            assert(lt(q[qa], q[qb]));
        } else if a == i {
            assert(r[b] == q[qb]);
            if qb > i {
                assert(lt(q[i], q[qb]));
            }
        } else {
            assert(r[a] == q[a]);
        }
    }
    assert(r.to_set() =~= q.to_set().insert(x)) by {
        assert forall|y: T| q.to_set().insert(x).contains(y) implies r.to_set().contains(y) by {
            if y == x {
                assert(r[i] == x);
            } else {
                let k = choose|k: int| 0 <= k < q.len() && q[k] == y;
                assert(r[if k < i { k } else { k + 1 }] == y);
            }
        }
        assert forall|y: T| r.to_set().contains(y) implies q.to_set().insert(x).contains(y) by {
            let k = choose|k: int| 0 <= k < r.len() && r[k] == y;
            if k != i {
                assert(q[if k < i { k } else { k - 1 }] == y);
            }
        }
    }
}

/// The place of the first element that is not less than `x`.
proof fn place_of<T>(q: Seq<T>, x: T, lt: spec_fn(T, T) -> bool) -> (p: int)
    ensures
        0 <= p <= q.len(),
        forall|j: int| 0 <= j < p ==> lt(#[trigger] q[j], x),
        p < q.len() ==> !lt(q[p], x),
    decreases q.len(),
{
    if q.len() == 0 {
        0
    } else {
        let p = place_of(q.drop_last(), x, lt);
        assert forall|j: int| 0 <= j < p implies lt(#[trigger] q[j], x) by {
            assert(lt(q.drop_last()[j], x));
        }
        if p < q.len() - 1 {
            assert(q.drop_last()[p] == q[p]);
            p
        } else if lt(q[p], x) {
            p + 1
        } else {
            p
        }
    }
}

/// The elements of a finite set can be put in order.
proof fn some_ascending<T>(s: Set<T>, lt: spec_fn(T, T) -> bool) -> (q: Seq<T>)
    requires
        s.finite(),
        is_strict_order(lt),
    ensures
        is_ascending(q, lt),
        q.to_set() == s,
    decreases s.len(),
{
    if s.len() == 0 {
        assert(Seq::<T>::empty().to_set() =~= s);
        Seq::empty()
    } else {
        let x = s.choose();
        let q = some_ascending(s.remove(x), lt);
        let p = place_of(q, x, lt);
        assert(!q.contains(x)) by {
            assert(!q.to_set().contains(x));
        }
        if p < q.len() {
            assert(lt(q[p], x) || q[p] == x || lt(x, q[p]));
        }
        lemma_insert_ascending(q, p, x, lt);
        assert(s.remove(x).insert(x) =~= s);
        q.insert(p, x)
    }
}

/// The ascending sequence of a finite set has its elements, in ascending order.
pub proof fn lemma_ascending_exists<T>(s: Set<T>, lt: spec_fn(T, T) -> bool)
    requires
        s.finite(),
        is_strict_order(lt),
    ensures
        is_ascending(ascending(s, lt), lt),
        ascending(s, lt).to_set() == s,
{
    let q = some_ascending(s, lt);
    assert(is_ascending(q, lt) && q.to_set() == s);
}

/// `i` is the first place in `q` with an element that `pred` holds of.
pub open spec fn is_first<T>(q: Seq<T>, pred: spec_fn(T) -> bool, i: int) -> bool {
    &&& 0 <= i < q.len()
    &&& pred(q[i])
    &&& forall|j: int| 0 <= j < i ==> !pred(#[trigger] q[j])
}

/// The first place in `q` with an element that `pred` holds of.
pub open spec fn first_index<T>(q: Seq<T>, pred: spec_fn(T) -> bool) -> int {
    choose|i: int| is_first(q, pred, i)
}

/// There is at most one first place.
pub proof fn lemma_first_index<T>(q: Seq<T>, pred: spec_fn(T) -> bool, i: int)
    requires
        is_first(q, pred, i),
    ensures
        first_index(q, pred) == i,
{
    let k = first_index(q, pred);
    assert(is_first(q, pred, k));
    if k < i {
        assert(!pred(q[k]));
    } else if i < k {
        assert(!pred(q[i]));
    }
}

/// The lexicographic order of texts by the code points of their characters.
pub open spec fn text_less(a: Seq<char>, b: Seq<char>) -> bool
    decreases a.len(),
{
    if b.len() == 0 {
        false
    } else if a.len() == 0 {
        true
    } else if a[0] != b[0] {
        (a[0] as int) < (b[0] as int)
    } else {
        text_less(a.drop_first(), b.drop_first())
    }
}

/// `text_less` as an order to sort by.
pub open spec fn text_order() -> spec_fn(Seq<char>, Seq<char>) -> bool {
    |a: Seq<char>, b: Seq<char>| text_less(a, b)
}

proof fn lemma_text_less_asymmetric(a: Seq<char>, b: Seq<char>)
    ensures
        !(text_less(a, b) && text_less(b, a)),
    decreases a.len(),
{
    if a.len() > 0 && b.len() > 0 && a[0] == b[0] {
        lemma_text_less_asymmetric(a.drop_first(), b.drop_first());
    }
}

proof fn lemma_text_less_total(a: Seq<char>, b: Seq<char>)
    ensures
        text_less(a, b) || a == b || text_less(b, a),
    decreases a.len(),
{
    if a.len() > 0 && b.len() > 0 && a[0] == b[0] {
        lemma_text_less_total(a.drop_first(), b.drop_first());
        if a.drop_first() == b.drop_first() {
            assert(a =~= seq![a[0]] + a.drop_first());
            assert(b =~= seq![b[0]] + b.drop_first());
        }
    } else if a.len() == 0 && b.len() == 0 {
        assert(a =~= b);
    }
}

proof fn lemma_text_less_transitive(a: Seq<char>, b: Seq<char>, c: Seq<char>)
    requires
        text_less(a, b),
        text_less(b, c),
    ensures
        text_less(a, c),
    decreases a.len(),
{
    if a.len() > 0 && a[0] == b[0] && b[0] == c[0] {
        lemma_text_less_transitive(a.drop_first(), b.drop_first(), c.drop_first());
    }
}

/// The lexicographic order is a strict total order.
pub proof fn lemma_text_order()
    ensures
        is_strict_order(text_order()),
{
    let lt = text_order();
    assert forall|a: Seq<char>, b: Seq<char>| #[trigger] lt(a, b) implies !lt(b, a) by {
        lemma_text_less_asymmetric(a, b);
    }
    assert forall|a: Seq<char>, b: Seq<char>, c: Seq<char>| #[trigger]
        lt(a, b) && #[trigger] lt(b, c) implies lt(a, c) by {
        lemma_text_less_transitive(a, b, c);
    }
    assert forall|a: Seq<char>, b: Seq<char>| #[trigger] lt(a, b) || a == b || lt(b, a) by {
        lemma_text_less_total(a, b);
    }
}

/// Compares two texts lexicographically.
pub fn is_text_less(a: &str, b: &str) -> (r: bool)
    ensures
        r == text_less(a@, b@),
{
    let mut left = a.chars();
    let mut right = b.chars();
    let ghost mut k: int = 0;
    loop
        invariant
            0 <= k <= a@.len(),
            k <= b@.len(),
            vstd::std_specs::iter::IteratorSpec::remaining(&left) == a@.skip(k),
            vstd::std_specs::iter::IteratorSpec::remaining(&right) == b@.skip(k),
            text_less(a@, b@) == text_less(a@.skip(k), b@.skip(k)),
        decreases a@.len() - k,
    {
        let x: Option<char> = left.next();
        let y: Option<char> = right.next();
        match (x, y) {
            (_, None) => {
                return false;
            },
            (None, Some(_)) => {
                return true;
            },
            (Some(c), Some(d)) => {
                if c != d {
                    return c < d;
                }
            },
        }
        proof {
            assert(a@.skip(k).drop_first() =~= a@.skip(k + 1));
            assert(b@.skip(k).drop_first() =~= b@.skip(k + 1));
            k = k + 1;
        }
    }
}

/// Compares two texts for equality.
pub fn is_same_text(a: &str, b: &str) -> (r: bool)
    ensures
        r == (a@ == b@),
{
    let mut left = a.chars();
    let mut right = b.chars();
    let ghost mut k: int = 0;
    loop
        invariant
            0 <= k <= a@.len(),
            k <= b@.len(),
            vstd::std_specs::iter::IteratorSpec::remaining(&left) == a@.skip(k),
            vstd::std_specs::iter::IteratorSpec::remaining(&right) == b@.skip(k),
            a@.take(k) == b@.take(k),
        decreases a@.len() - k,
    {
        let x: Option<char> = left.next();
        let y: Option<char> = right.next();
        match (x, y) {
            (None, None) => {
                assert(a@.take(k) =~= a@);
                assert(b@.take(k) =~= b@);
                return true;
            },
            (Some(c), Some(d)) => {
                if c != d {
                    assert(a@.skip(k)[0] == a@[k]);
                    assert(b@.skip(k)[0] == b@[k]);
                    return false;
                }
            },
            _ => {
                assert(a@.len() != b@.len());
                return false;
            },
        }
        proof {
            assert(a@.skip(k)[0] == a@[k]);
            assert(b@.skip(k)[0] == b@[k]);
            assert(a@.take(k + 1) =~= a@.take(k).push(a@[k]));
            assert(b@.take(k + 1) =~= b@.take(k).push(b@[k]));
            assert(a@.skip(k).drop_first() =~= a@.skip(k + 1));
            assert(b@.skip(k).drop_first() =~= b@.skip(k + 1));
            k = k + 1;
        }
    }
}

/// Adds a text to an ascending list that does not hold it yet.
pub fn insert_text(list: &mut TextList, new: &str)
    requires
        is_ascending(old(list)@, text_order()),
    ensures
        is_ascending(final(list)@, text_order()),
        final(list)@.to_set() == old(list)@.to_set().insert(new@),
        old(list)@.contains(new@) ==> final(list)@ == old(list)@,
{
    let ghost q = list@;
    let ghost lt = text_order();
    proof {
        lemma_text_order();
    }
    let mut i: usize = 0;
    while i < list.lines.len() && is_text_less(list.lines[i].as_str(), new)
        invariant
            i <= list.lines.len(),
            list@ == q,
            lt == text_order(),
            forall|j: int| 0 <= j < i ==> lt(#[trigger] q[j], new@),
        decreases list.lines.len() - i,
    {
        i += 1;
    }
    let value: String = new.to_owned();
    if i < list.lines.len() && list.lines[i] == value {
        assert(q[i as int] == new@);
        assert(q.to_set().insert(new@) =~= q.to_set());
    } else {
        assert(!q.contains(new@)) by {
            if q.contains(new@) {
                let k = choose|k: int| 0 <= k < q.len() && q[k] == new@;
                if k < i {
                    assert(lt(q[k], new@));
                } else if k > i {
                    assert(lt(q[i as int], q[k]));
                }
            }
        }
        proof {
            if i < q.len() {
                assert(lt(q[i as int], new@) || q[i as int] == new@ || lt(new@, q[i as int]));
                assert(!text_less(q[i as int], new@));
            }
            lemma_insert_ascending(q, i as int, new@, lt);
        }
        list.lines.insert(i, value);
        assert(list@ =~= q.insert(i as int, new@));
    }
}

} // verus!
