//! Linear search, as a specification: the least or greatest index that meets a
//! condition.

use vstd::prelude::*;

verus! {

/// The least index in `i..n` that meets `p`.
pub open spec fn first_from(p: spec_fn(int) -> bool, i: int, n: int) -> Option<int>
    decreases n - i,
{
    if i >= n {
        None
    } else if p(i) {
        Some(i)
    } else {
        first_from(p, i + 1, n)
    }
}

/// The greatest index in `0..n` that meets `p`.
pub open spec fn last_below(p: spec_fn(int) -> bool, n: int) -> Option<int>
    decreases n,
{
    if n <= 0 {
        None
    } else if p(n - 1) {
        Some(n - 1)
    } else {
        last_below(p, n - 1)
    }
}

/// `first_from` finds an index exactly when one exists, and it finds the least one.
pub proof fn first_from_is_least(p: spec_fn(int) -> bool, i: int, n: int)
    ensures
        match first_from(p, i, n) {
            Some(k) => i <= k < n && p(k) && forall|j: int| i <= j < k ==> !#[trigger] p(j),
            None => forall|j: int| i <= j < n ==> !#[trigger] p(j),
        },
    decreases n - i,
{
    if i < n && !p(i) {
        first_from_is_least(p, i + 1, n);
    }
}

/// An index that meets `p`, with none before it, is the one that `first_from` finds.
pub proof fn first_from_at(p: spec_fn(int) -> bool, i: int, k: int, n: int)
    requires
        i <= k < n,
        p(k),
        forall|j: int| i <= j < k ==> !#[trigger] p(j),
    ensures
        first_from(p, i, n) == Some(k),
    decreases k - i,
{
    if i < k {
        first_from_at(p, i + 1, k, n);
    }
}

/// Conditions that agree on a range find the same index in it.
pub proof fn first_from_same(
    p: spec_fn(int) -> bool,
    q: spec_fn(int) -> bool,
    i: int,
    n: int,
)
    requires
        forall|j: int| i <= j < n ==> #[trigger] p(j) == q(j),
    ensures
        first_from(p, i, n) == first_from(q, i, n),
    decreases n - i,
{
    if i < n {
        assert(p(i) == q(i));
        first_from_same(p, q, i + 1, n);
    }
}

/// A search of a range in two parts.
pub proof fn first_from_split(p: spec_fn(int) -> bool, i: int, m: int, n: int)
    requires
        i <= m <= n,
    ensures
        first_from(p, i, n) == (match first_from(p, i, m) {
            Some(k) => Some(k),
            None => first_from(p, m, n),
        }),
    decreases m - i,
{
    if i < m {
        first_from_split(p, i + 1, m, n);
    }
}

/// `last_below` finds an index exactly when one exists, and it finds the greatest one.
pub proof fn last_below_is_greatest(p: spec_fn(int) -> bool, n: int)
    ensures
        match last_below(p, n) {
            Some(k) => 0 <= k < n && p(k) && forall|j: int| k < j < n ==> !#[trigger] p(j),
            None => forall|j: int| 0 <= j < n ==> !#[trigger] p(j),
        },
    decreases n,
{
    if n > 0 && !p(n - 1) {
        last_below_is_greatest(p, n - 1);
    }
}

} // verus!
