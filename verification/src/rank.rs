//! Sorting by insertion, as a specification, and the order of texts.

use vstd::prelude::*;
use crate::search::{last_below, last_below_is_greatest};
use crate::text::chars_of;

verus! {

/// Whether `x` may not come before the element at an index.
pub open spec fn is_not_behind<T>(s: Seq<T>, precedes: spec_fn(T, T) -> bool, x: T) -> spec_fn(
    int,
) -> bool {
    |k: int| !precedes(x, s[k])
}

/// Where `x` is put into a sorted list: behind the last element that it may not come
/// before.
pub open spec fn place_for<T>(s: Seq<T>, precedes: spec_fn(T, T) -> bool, x: T) -> int {
    match last_below(is_not_behind(s, precedes, x), s.len() as int) {
        Some(k) => k + 1,
        None => 0,
    }
}

/// A list in order. Elements of which neither precedes the other keep their order.
pub open spec fn sorted_by<T>(s: Seq<T>, precedes: spec_fn(T, T) -> bool) -> Seq<T>
    decreases s.len(),
{
    if s.len() == 0 {
        s
    } else {
        let rest = sorted_by(s.drop_last(), precedes);
        rest.insert(place_for(rest, precedes, s.last()), s.last())
    }
}

/// Whether a relation orders things: nothing precedes what precedes it, and what lies
/// between two of which one precedes the other precedes or is preceded.
pub open spec fn is_order<T>(precedes: spec_fn(T, T) -> bool) -> bool {
    &&& forall|x: T, y: T| #[trigger] precedes(x, y) ==> !precedes(y, x)
    &&& forall|x: T, y: T, z: T| #[trigger]
        precedes(x, z) ==> #[trigger] precedes(x, y) || precedes(y, z)
}

/// A list that was sorted is in order, and holds what it held before.
pub proof fn sorting_orders<T>(s: Seq<T>, precedes: spec_fn(T, T) -> bool)
    requires
        is_order(precedes),
    ensures
        forall|i: int, j: int|
            0 <= i < j < sorted_by(s, precedes).len() ==> !precedes(
                #[trigger] sorted_by(s, precedes)[j],
                #[trigger] sorted_by(s, precedes)[i],
            ),
        sorted_by(s, precedes).to_multiset() == s.to_multiset(),
        sorted_by(s, precedes).len() == s.len(),
    decreases s.len(),
{
    if s.len() > 0 {
        let x = s.last();
        let rest = sorted_by(s.drop_last(), precedes);
        let p = place_for(rest, precedes, x);
        let after = sorted_by(s, precedes);
        sorting_orders(s.drop_last(), precedes);
        let q = is_not_behind(rest, precedes, x);
        last_below_is_greatest(q, rest.len() as int);
        assert forall|k: int| 0 <= k < p implies !precedes(x, #[trigger] rest[k]) by {
            assert(q(p - 1));
            if k < p - 1 && precedes(x, rest[k]) {
                assert(precedes(x, rest[p - 1]) || precedes(rest[p - 1], rest[k]));
            }
        }
        assert forall|k: int| p <= k < rest.len() implies !precedes(#[trigger] rest[k], x) by {
            assert(!q(k));
        }
        assert forall|i: int, j: int| 0 <= i < j < after.len() implies !precedes(
            #[trigger] after[j],
            #[trigger] after[i],
        ) by {
            let a = if i < p {
                i
            } else {
                i - 1
            };
            let b = if j < p {
                j
            } else {
                j - 1
            };
            if i == p {
                assert(after[i] == x && after[j] == rest[b]);
            } else if j == p {
                assert(after[j] == x && after[i] == rest[a]);
            } else {
                assert(after[i] == rest[a] && after[j] == rest[b]);
            }
        }
        assert(after.remove(p) =~= rest);
        assert(s.drop_last().push(x) =~= s);
        vstd::seq_lib::to_multiset_remove(after, p);
        vstd::seq_lib::to_multiset_build(s.drop_last(), x);
        after.to_multiset_ensures();
        assert(after[p] == x);
        assert(after.contains(x));
        assert(after.to_multiset().remove(x).insert(x) =~= after.to_multiset());
    }
}

/// Whether a text comes before another: at the first character in which they differ, its
/// own is smaller, or it ends there.
pub open spec fn text_before(a: Seq<char>, b: Seq<char>) -> bool
    decreases b.len(),
{
    if b.len() == 0 {
        false
    } else if a.len() == 0 {
        true
    } else if a[0] != b[0] {
        (a[0] as u32) < (b[0] as u32)
    } else {
        text_before(a.skip(1), b.skip(1))
    }
}

/// No text comes before one that comes before it.
pub proof fn text_before_is_one_way(a: Seq<char>, b: Seq<char>)
    requires
        text_before(a, b),
    ensures
        !text_before(b, a),
    decreases b.len(),
{
    if a.len() > 0 && a[0] == b[0] {
        text_before_is_one_way(a.skip(1), b.skip(1));
    }
}

proof fn text_before_leaves_no_gap(a: Seq<char>, b: Seq<char>, c: Seq<char>)
    requires
        text_before(a, c),
    ensures
        text_before(a, b) || text_before(b, c),
    decreases c.len(),
{
    if a.len() > 0 && b.len() > 0 && a[0] == b[0] && b[0] == c[0] {
        text_before_leaves_no_gap(a.skip(1), b.skip(1), c.skip(1));
    } else if a.len() > 0 && b.len() > 0 {
        chars_differ(a[0], b[0]);
        chars_differ(b[0], c[0]);
    }
}

proof fn chars_differ(a: char, b: char)
    ensures
        a == b || (a as u32) < (b as u32) || (b as u32) < (a as u32),
{
}

/// Texts are ordered.
pub proof fn texts_are_ordered()
    ensures
        is_order(|a: Seq<char>, b: Seq<char>| text_before(a, b)),
{
    let precedes = |a: Seq<char>, b: Seq<char>| text_before(a, b);
    assert forall|x: Seq<char>, y: Seq<char>| #[trigger] precedes(x, y) implies !precedes(
        y,
        x,
    ) by {
        text_before_is_one_way(x, y);
    }
    assert forall|x: Seq<char>, y: Seq<char>, z: Seq<char>| #[trigger]
        precedes(x, z) implies #[trigger] precedes(x, y) || precedes(y, z) by {
        text_before_leaves_no_gap(x, y, z);
    }
}

/// Different texts stand in one order or the other.
pub proof fn texts_differ_in_order(a: Seq<char>, b: Seq<char>)
    ensures
        a == b || text_before(a, b) || text_before(b, a),
    decreases b.len(),
{
    if a.len() > 0 && b.len() > 0 {
        if a[0] == b[0] {
            texts_differ_in_order(a.skip(1), b.skip(1));
            if a.skip(1) == b.skip(1) {
                assert(seq![a[0]] + a.skip(1) =~= a);
                assert(seq![b[0]] + b.skip(1) =~= b);
            }
        } else {
            chars_differ(a[0], b[0]);
        }
    } else if a.len() == 0 && b.len() == 0 {
        assert(a =~= b);
    }
}

/// Whether a text comes before another.
pub fn comes_before(a: &str, b: &str) -> (r: bool)
    ensures
        r == text_before(a@, b@),
{
    let left = chars_of(a);
    let right = chars_of(b);
    let mut i: usize = 0;
    assert(left@.skip(0) =~= left@ && right@.skip(0) =~= right@);
    while i < left.len() && i < right.len()
        invariant
            i <= left.len(),
            i <= right.len(),
            left@ == a@,
            right@ == b@,
            text_before(left@, right@) == text_before(left@.skip(i as int), right@.skip(i as int)),
        decreases left.len() - i,
    {
        if left[i] != right[i] {
            return (left[i] as u32) < (right[i] as u32);
        }
        assert(left@.skip(i as int).skip(1) =~= left@.skip(i + 1));
        assert(right@.skip(i as int).skip(1) =~= right@.skip(i + 1));
        i = i + 1;
    }
    i < right.len()
}

} // verus!
