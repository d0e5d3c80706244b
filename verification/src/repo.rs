//! The persistence seam. All reads and the single write path of the
//! in-memory repository live in [`memory`]; this module holds the shared
//! bound and the sequence helpers its contracts are written with.
//!
//! Traversal-shaped reads take only a constant instant filter: there is no
//! read accepting a caller-supplied predicate over traversal state.

use vstd::prelude::*;

pub mod memory;

verus! {

/// Bound on `group_ancestors` traversal depth.
pub const MAX_GROUP_DEPTH: usize = 5;

/// Index of the first element satisfying `p`, or `s.len()` when none does.
pub open spec fn first_where<T>(s: Seq<T>, p: spec_fn(T) -> bool) -> int
    decreases s.len(),
{
    if s.len() == 0 {
        0
    } else if p(s[0]) {
        0
    } else {
        1 + first_where(s.drop_first(), p)
    }
}

pub proof fn lemma_first_where<T>(s: Seq<T>, p: spec_fn(T) -> bool)
    ensures
        0 <= first_where(s, p) <= s.len(),
        forall|j: int| 0 <= j < first_where(s, p) ==> !p(#[trigger] s[j]),
        first_where(s, p) < s.len() ==> p(s[first_where(s, p)]),
    decreases s.len(),
{
    if s.len() > 0 && !p(s[0]) {
        lemma_first_where(s.drop_first(), p);
        assert forall|j: int| 0 <= j < first_where(s, p) implies !p(#[trigger] s[j]) by {
            if j > 0 {
                assert(s[j] == s.drop_first()[j - 1]);
            }
        }
    }
}

/// The first index satisfying `p` is the one before which nothing does.
pub proof fn lemma_first_where_is<T>(s: Seq<T>, p: spec_fn(T) -> bool, i: int)
    requires
        0 <= i <= s.len(),
        forall|j: int| 0 <= j < i ==> !p(#[trigger] s[j]),
        i < s.len() ==> p(s[i]),
    ensures
        first_where(s, p) == i,
    decreases s.len(),
{
    if s.len() > 0 && i > 0 {
        assert(!p(s[0]));
        assert forall|j: int| 0 <= j < i - 1 implies !p(#[trigger] s.drop_first()[j]) by {
            assert(s.drop_first()[j] == s[j + 1]);
        }
        lemma_first_where_is(s.drop_first(), p, i - 1);
    }
}

/// Replacing an element by one that `p` judges alike leaves the first
/// index satisfying `p` where it was.
pub proof fn lemma_first_where_update<T>(s: Seq<T>, p: spec_fn(T) -> bool, i: int, x: T)
    requires
        0 <= i < s.len(),
        p(s[i]) == p(x),
    ensures
        first_where(s.update(i, x), p) == first_where(s, p),
        find_where(s.update(i, x), p) == (if first_where(s, p) == i {
            Some(x)
        } else {
            find_where(s, p)
        }),
{
    lemma_first_where(s, p);
    let f = first_where(s, p);
    let u = s.update(i, x);
    assert forall|j: int| 0 <= j < f implies !p(#[trigger] u[j]) by {
        if j != i {
            assert(u[j] == s[j]);
        }
    }
    if f < s.len() {
        if f == i {
            assert(u[f] == x);
        } else {
            assert(u[f] == s[f]);
        }
    }
    lemma_first_where_is(u, p, f);
}

/// Appending keeps the first index satisfying `p` when one exists.
pub proof fn lemma_first_where_push<T>(s: Seq<T>, p: spec_fn(T) -> bool, x: T)
    ensures
        first_where(s, p) < s.len() ==> first_where(s.push(x), p) == first_where(s, p),
        first_where(s, p) < s.len() ==> find_where(s.push(x), p) == find_where(s, p),
{
    lemma_first_where(s, p);
    let f = first_where(s, p);
    if f < s.len() {
        let u = s.push(x);
        assert forall|j: int| 0 <= j < f implies !p(#[trigger] u[j]) by {
            assert(u[j] == s[j]);
        }
        assert(u[f] == s[f]);
        lemma_first_where_is(u, p, f);
    }
}

/// Upserting an element that matches its own key twice is upserting it
/// once.
pub proof fn lemma_upsert_twice<T>(s: Seq<T>, p: spec_fn(T) -> bool, x: T)
    requires
        p(x),
    ensures
        upsert_where(upsert_where(s, p, x), p, x) == upsert_where(s, p, x),
{
    lemma_first_where(s, p);
    let f = first_where(s, p);
    let u = upsert_where(s, p, x);
    if f < s.len() {
        lemma_first_where_update(s, p, f, x);
        assert(u.update(f, x) =~= u);
    } else {
        assert forall|j: int| 0 <= j < s.len() implies !p(#[trigger] u[j]) by {
            assert(u[j] == s[j]);
        }
        lemma_first_where_is(u, p, s.len() as int);
        assert(u.update(s.len() as int, x) =~= u);
    }
}

/// An upsert keeps every match it did not replace, and the element it
/// writes matches whatever it matches.
pub proof fn lemma_upsert_presence<T>(s: Seq<T>, p: spec_fn(T) -> bool, x: T, q: spec_fn(T) -> bool)
    requires
        p(x),
        q(x) || forall|y: T| #[trigger] p(y) ==> !q(y),
    ensures
        find_where(s, q) is Some ==> find_where(upsert_where(s, p, x), q) is Some,
        q(x) ==> find_where(upsert_where(s, p, x), q) is Some,
{
    lemma_first_where(s, p);
    lemma_first_where(s, q);
    let u = upsert_where(s, p, x);
    lemma_first_where(u, q);
    let f = first_where(s, p);
    let j = first_where(s, q);
    if f < s.len() {
        if j < s.len() {
            if j != f {
                assert(u[j] == s[j]);
                assert(q(u[j]));
            } else {
                assert(q(s[f]) && p(s[f]));
                assert(q(x));
                assert(u[f] == x);
            }
        }
        if q(x) {
            assert(u[f] == x);
        }
    } else {
        if j < s.len() {
            assert(u[j] == s[j]);
        }
        if q(x) {
            assert(u[s.len() as int] == x);
        }
    }
}

/// The first element satisfying `p`.
pub open spec fn find_where<T>(s: Seq<T>, p: spec_fn(T) -> bool) -> Option<T> {
    if first_where(s, p) < s.len() {
        Some(s[first_where(s, p)])
    } else {
        None
    }
}

/// Replace the first element satisfying `p` by `x`, or append `x` when
/// none does.
pub open spec fn upsert_where<T>(s: Seq<T>, p: spec_fn(T) -> bool, x: T) -> Seq<T> {
    if first_where(s, p) < s.len() {
        s.update(first_where(s, p), x)
    } else {
        s.push(x)
    }
}

/// Index of the first minimum of a non-empty sequence of integers.
pub open spec fn first_min(d: Seq<int>) -> int
    decreases d.len(),
{
    if d.len() <= 1 {
        0
    } else {
        let j = first_min(d.drop_last());
        if d.last() < d[j] {
            d.len() - 1
        } else {
            j
        }
    }
}

pub proof fn lemma_first_min(d: Seq<int>)
    requires
        d.len() > 0,
    ensures
        0 <= first_min(d) < d.len(),
        forall|k: int| 0 <= k < d.len() ==> d[first_min(d)] <= #[trigger] d[k],
        forall|k: int| 0 <= k < first_min(d) ==> d[first_min(d)] < #[trigger] d[k],
    decreases d.len(),
{
    if d.len() > 1 {
        lemma_first_min(d.drop_last());
        let j = first_min(d.drop_last());
        let m = first_min(d);
        assert forall|k: int| 0 <= k < d.len() implies d[m] <= #[trigger] d[k] by {
            if k < d.len() - 1 {
                assert(d[k] == d.drop_last()[k]);
            }
        }
        assert forall|k: int| 0 <= k < m implies d[m] < #[trigger] d[k] by {
            if k < d.len() - 1 {
                assert(d[k] == d.drop_last()[k]);
            }
        }
    }
}

} // verus!
