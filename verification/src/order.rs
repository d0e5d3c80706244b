//! Ordering utilities shared by every module that returns sorted output:
//! lexicographic sort keys, a stable insertion sort, and sorted
//! deduplicated identifier lists.
//!
//! A sort key is a sequence of `u128` compared lexicographically (a proper
//! prefix sorts first). Every key the library sorts by fits this shape:
//! identifiers are `u128`, timestamps map order-preservingly onto `u128`,
//! flags are 0/1, digests are their bytes and strings their characters.

use vstd::prelude::*;

verus! {

/// Strict lexicographic order on keys.
pub open spec fn key_lt(a: Seq<u128>, b: Seq<u128>) -> bool
    decreases a.len(),
{
    if a.len() == 0 {
        b.len() > 0
    } else if b.len() == 0 {
        false
    } else if a[0] < b[0] {
        true
    } else if a[0] > b[0] {
        false
    } else {
        key_lt(a.drop_first(), b.drop_first())
    }
}

pub open spec fn key_le(a: Seq<u128>, b: Seq<u128>) -> bool {
    !key_lt(b, a)
}

pub proof fn lemma_key_lt_irreflexive(a: Seq<u128>)
    ensures
        !key_lt(a, a),
    decreases a.len(),
{
    if a.len() > 0 {
        lemma_key_lt_irreflexive(a.drop_first());
    }
}

pub proof fn lemma_key_lt_transitive(a: Seq<u128>, b: Seq<u128>, c: Seq<u128>)
    requires
        key_lt(a, b),
        key_lt(b, c),
    ensures
        key_lt(a, c),
    decreases a.len(),
{
    if a.len() > 0 && b.len() > 0 && c.len() > 0 && a[0] == b[0] && b[0] == c[0] {
        lemma_key_lt_transitive(a.drop_first(), b.drop_first(), c.drop_first());
    }
}

pub proof fn lemma_key_lt_total(a: Seq<u128>, b: Seq<u128>)
    ensures
        a == b || key_lt(a, b) || key_lt(b, a),
    decreases a.len(),
{
    if a.len() > 0 && b.len() > 0 && a[0] == b[0] {
        lemma_key_lt_total(a.drop_first(), b.drop_first());
        if a.drop_first() == b.drop_first() {
            assert(a =~= seq![a[0]] + a.drop_first());
            assert(b =~= seq![b[0]] + b.drop_first());
        }
    } else if a.len() == 0 && b.len() == 0 {
        assert(a =~= b);
    }
}

pub proof fn lemma_key_lt_asymmetric(a: Seq<u128>, b: Seq<u128>)
    requires
        key_lt(a, b),
    ensures
        !key_lt(b, a),
{
    if key_lt(b, a) {
        lemma_key_lt_transitive(a, b, a);
        lemma_key_lt_irreflexive(a);
    }
}

/// Executable strict lexicographic comparison.
pub fn key_less(a: &Vec<u128>, b: &Vec<u128>) -> (r: bool)
    ensures
        r == key_lt(a@, b@),
{
    assert(a@.skip(0) =~= a@);
    assert(b@.skip(0) =~= b@);
    let mut i: usize = 0;
    while i < a.len() && i < b.len()
        invariant
            i <= a.len(),
            i <= b.len(),
            key_lt(a@, b@) == key_lt(a@.skip(i as int), b@.skip(i as int)),
        decreases a.len() - i,
    {
        assert(a@.skip(i as int).drop_first() =~= a@.skip(i + 1));
        assert(b@.skip(i as int).drop_first() =~= b@.skip(i + 1));
        if a[i] < b[i] {
            return true;
        }
        if a[i] > b[i] {
            return false;
        }
        i += 1;
    }
    i == a.len() && i < b.len()
}

/// Order-preserving image of an `i64` in `u128`.
pub open spec fn ts_key_spec(x: i64) -> u128 {
    (x as int + 0x8000_0000_0000_0000) as u128
}

pub fn ts_key(x: i64) -> (r: u128)
    ensures
        r == ts_key_spec(x),
        r as int == x as int + 0x8000_0000_0000_0000,
{
    (x as i128 + 0x8000_0000_0000_0000i128) as u128
}

/// Elements of a keyed sequence, keys dropped.
pub open spec fn payloads<T>(s: Seq<(Vec<u128>, T)>) -> Seq<T> {
    s.map_values(|e: (Vec<u128>, T)| e.1)
}

/// Non-decreasing by key.
pub open spec fn sorted_by<T>(s: Seq<T>, key: spec_fn(T) -> Seq<u128>) -> bool {
    forall|i: int, j: int| 0 <= i < j < s.len() ==> key_le(key(#[trigger] s[i]), key(#[trigger] s[j]))
}

/// Position at which a stable insertion places an element with key `k`:
/// before the first element whose key is greater than `k`.
pub open spec fn insert_pos<T>(s: Seq<T>, key: spec_fn(T) -> Seq<u128>, k: Seq<u128>) -> int
    decreases s.len(),
{
    if s.len() == 0 {
        0
    } else if key_lt(k, key(s[0])) {
        0
    } else {
        1 + insert_pos(s.drop_first(), key, k)
    }
}

/// Stable sort by key: each element, in input order, is inserted after
/// every earlier element whose key is not greater.
pub open spec fn stable_sort_by<T>(s: Seq<T>, key: spec_fn(T) -> Seq<u128>) -> Seq<T>
    decreases s.len(),
{
    if s.len() == 0 {
        s
    } else {
        let rest = stable_sort_by(s.drop_last(), key);
        rest.insert(insert_pos(rest, key, key(s.last())), s.last())
    }
}

proof fn lemma_insert_pos_bounds<T>(s: Seq<T>, key: spec_fn(T) -> Seq<u128>, k: Seq<u128>)
    ensures
        0 <= insert_pos(s, key, k) <= s.len(),
        forall|i: int| 0 <= i < insert_pos(s, key, k) ==> !key_lt(k, key(#[trigger] s[i])),
    decreases s.len(),
{
    if s.len() > 0 && !key_lt(k, key(s[0])) {
        lemma_insert_pos_bounds(s.drop_first(), key, k);
        assert forall|i: int| 0 <= i < insert_pos(s, key, k) implies !key_lt(k, key(#[trigger] s[i])) by {
            if i > 0 {
                assert(s[i] == s.drop_first()[i - 1]);
            }
        }
    }
}

proof fn lemma_insert_pos_sorted<T>(s: Seq<T>, key: spec_fn(T) -> Seq<u128>, k: Seq<u128>)
    requires
        sorted_by(s, key),
    ensures
        forall|i: int| insert_pos(s, key, k) <= i < s.len() ==> key_lt(k, key(#[trigger] s[i])),
    decreases s.len(),
{
    lemma_insert_pos_bounds(s, key, k);
    if s.len() > 0 {
        if key_lt(k, key(s[0])) {
            assert forall|i: int| 0 <= i < s.len() implies key_lt(k, key(#[trigger] s[i])) by {
                if i > 0 {
                    assert(key_le(key(s[0]), key(s[i])));
                    lemma_key_lt_total(key(s[0]), key(s[i]));
                    if key_lt(key(s[0]), key(s[i])) {
                        lemma_key_lt_transitive(k, key(s[0]), key(s[i]));
                    }
                }
            }
        } else {
            let t = s.drop_first();
            assert(sorted_by(t, key)) by {
                assert forall|i: int, j: int| 0 <= i < j < t.len() implies key_le(
                    key(#[trigger] t[i]),
                    key(#[trigger] t[j]),
                ) by {
                    assert(t[i] == s[i + 1] && t[j] == s[j + 1]);
                }
            }
            lemma_insert_pos_sorted(t, key, k);
            lemma_insert_pos_bounds(t, key, k);
            assert(insert_pos(s, key, k) == 1 + insert_pos(t, key, k));
            assert forall|i: int| insert_pos(s, key, k) <= i < s.len() implies key_lt(
                k,
                key(#[trigger] s[i]),
            ) by {
                assert(s[i] == t[i - 1]);
            }
        }
    }
}

/// The stable sort is sorted by key and a permutation of its input.
pub proof fn lemma_stable_sort<T>(s: Seq<T>, key: spec_fn(T) -> Seq<u128>)
    ensures
        sorted_by(stable_sort_by(s, key), key),
        stable_sort_by(s, key).to_multiset() == s.to_multiset(),
        stable_sort_by(s, key).len() == s.len(),
    decreases s.len(),
{
    if s.len() > 0 {
        let rest = stable_sort_by(s.drop_last(), key);
        lemma_stable_sort(s.drop_last(), key);
        let x = s.last();
        let p = insert_pos(rest, key, key(x));
        lemma_insert_pos_bounds(rest, key, key(x));
        lemma_insert_pos_sorted(rest, key, key(x));
        let r = rest.insert(p, x);
        assert(r == stable_sort_by(s, key));
        assert forall|i: int, j: int| 0 <= i < j < r.len() implies key_le(
            key(#[trigger] r[i]),
            key(#[trigger] r[j]),
        ) by {
            if j < p {
                assert(r[i] == rest[i] && r[j] == rest[j]);
            } else if j == p {
                assert(r[i] == rest[i]);
            } else if i == p {
                assert(r[j] == rest[j - 1]);
                lemma_key_lt_asymmetric(key(x), key(rest[j - 1]));
            } else if i < p {
                assert(r[i] == rest[i] && r[j] == rest[j - 1]);
            } else {
                assert(r[i] == rest[i - 1] && r[j] == rest[j - 1]);
            }
        }
        vstd::seq_lib::to_multiset_insert(rest, p, x);
        assert(s =~= s.drop_last().push(x));
        vstd::seq_lib::to_multiset_build(s.drop_last(), x);
        vstd::seq_lib::to_multiset_len(s);
        vstd::seq_lib::to_multiset_len(r);
    }
}

proof fn lemma_insert_pos_map<A, B>(s: Seq<A>, f: spec_fn(A) -> B, key: spec_fn(B) -> Seq<u128>, k: Seq<u128>)
    ensures
        insert_pos(s.map_values(f), key, k) == insert_pos(s, |a: A| key(f(a)), k),
    decreases s.len(),
{
    if s.len() > 0 {
        assert(s.map_values(f).drop_first() =~= s.drop_first().map_values(f));
        lemma_insert_pos_map(s.drop_first(), f, key, k);
    }
}

/// Sorting commutes with a map when the key only looks at the mapped
/// value.
pub proof fn lemma_sort_map<A, B>(s: Seq<A>, f: spec_fn(A) -> B, key: spec_fn(B) -> Seq<u128>, kf: spec_fn(A) -> Seq<u128>)
    requires
        forall|a: A| #[trigger] kf(a) == key(f(a)),
    ensures
        stable_sort_by(s.map_values(f), key) == stable_sort_by(s, kf).map_values(f),
    decreases s.len(),
{
    assert(kf =~= (|a: A| key(f(a))));
    if s.len() > 0 {
        assert(s.map_values(f).drop_last() =~= s.drop_last().map_values(f));
        lemma_sort_map(s.drop_last(), f, key, kf);
        let rest = stable_sort_by(s.drop_last(), kf);
        lemma_insert_pos_map(rest, f, key, key(f(s.last())));
        lemma_stable_sort(s.drop_last(), kf);
        crate::order::lemma_insert_pos_bounds(rest, kf, kf(s.last()));
        let p = insert_pos(rest, kf, kf(s.last()));
        assert(rest.insert(p, s.last()).map_values(f) =~= rest.map_values(f).insert(p, f(s.last())));
    } else {
        assert(s.map_values(f) =~= Seq::<B>::empty());
    }
}

/// Sorting keeps the multiset of any image of the elements.
pub proof fn lemma_sort_image_multiset<A, B>(s: Seq<A>, key: spec_fn(A) -> Seq<u128>, f: spec_fn(A) -> B)
    ensures
        stable_sort_by(s, key).map_values(f).to_multiset() == s.map_values(f).to_multiset(),
    decreases s.len(),
{
    if s.len() > 0 {
        lemma_sort_image_multiset(s.drop_last(), key, f);
        let rest = stable_sort_by(s.drop_last(), key);
        lemma_insert_pos_bounds(rest, key, key(s.last()));
        let p = insert_pos(rest, key, key(s.last()));
        assert(rest.insert(p, s.last()).map_values(f) =~= rest.map_values(f).insert(p, f(s.last())));
        vstd::seq_lib::to_multiset_insert(rest.map_values(f), p, f(s.last()));
        assert(s.map_values(f) =~= s.drop_last().map_values(f).push(f(s.last())));
        vstd::seq_lib::to_multiset_build(s.drop_last().map_values(f), f(s.last()));
    } else {
        assert(stable_sort_by(s, key).map_values(f) =~= s.map_values(f));
    }
}

/// Two multisets that are equal after inserting the same element were
/// equal before.
proof fn lemma_multiset_insert_cancel<T>(m1: vstd::multiset::Multiset<T>, m2: vstd::multiset::Multiset<T>, x: T)
    requires
        m1.insert(x) == m2.insert(x),
    ensures
        m1 == m2,
{
    assert forall|y: T| m1.count(y) == m2.count(y) by {
        vstd::multiset::lemma_insert_increases_count_by_1(m1, x);
        vstd::multiset::lemma_insert_increases_count_by_1(m2, x);
        if y != x {
            vstd::multiset::lemma_insert_other_elements_unchanged(m1, x, y);
            vstd::multiset::lemma_insert_other_elements_unchanged(m2, x, y);
        }
    }
    assert(m1 =~= m2);
}

/// Two arrangements of one multiset, both sorted by a key that tells
/// elements apart, are the same sequence.
pub proof fn lemma_sorted_perm_unique<T>(a: Seq<T>, b: Seq<T>, key: spec_fn(T) -> Seq<u128>)
    requires
        sorted_by(a, key),
        sorted_by(b, key),
        a.to_multiset() == b.to_multiset(),
        forall|x: T, y: T| #[trigger] key(x) == #[trigger] key(y) ==> x == y,
    ensures
        a == b,
    decreases a.len(),
{
    vstd::seq_lib::to_multiset_len(a);
    vstd::seq_lib::to_multiset_len(b);
    if a.len() == 0 {
        assert(a =~= b);
    } else {
        let n = a.len() as int;
        let x = a.last();
        let y = b.last();
        assert(b.contains(y)) by {
            assert(b[n - 1] == y);
        }
        vstd::seq_lib::to_multiset_contains(b, y);
        vstd::seq_lib::to_multiset_contains(a, y);
        let i = choose|i: int| 0 <= i < a.len() && a[i] == y;
        assert(a.contains(x)) by {
            assert(a[n - 1] == x);
        }
        vstd::seq_lib::to_multiset_contains(a, x);
        vstd::seq_lib::to_multiset_contains(b, x);
        let j = choose|j: int| 0 <= j < b.len() && b[j] == x;
        if i < n - 1 {
            assert(key_le(key(a[i]), key(a[n - 1])));
        } else {
            lemma_key_lt_irreflexive(key(x));
        }
        if j < n - 1 {
            assert(key_le(key(b[j]), key(b[n - 1])));
        } else {
            lemma_key_lt_irreflexive(key(y));
        }
        lemma_key_lt_total(key(x), key(y));
        assert(key(x) == key(y));
        assert(x == y);
        let ra = a.drop_last();
        let rb = b.drop_last();
        assert(a =~= ra.push(x));
        assert(b =~= rb.push(x));
        vstd::seq_lib::to_multiset_build(ra, x);
        vstd::seq_lib::to_multiset_build(rb, x);
        lemma_multiset_insert_cancel(ra.to_multiset(), rb.to_multiset(), x);
        assert(sorted_by(ra, key)) by {
            assert forall|p: int, q: int| 0 <= p < q < ra.len() implies key_le(key(#[trigger] ra[p]), key(#[trigger] ra[q])) by {
                assert(ra[p] == a[p] && ra[q] == a[q]);
            }
        }
        assert(sorted_by(rb, key)) by {
            assert forall|p: int, q: int| 0 <= p < q < rb.len() implies key_le(key(#[trigger] rb[p]), key(#[trigger] rb[q])) by {
                assert(rb[p] == b[p] && rb[q] == b[q]);
            }
        }
        lemma_sorted_perm_unique(ra, rb, key);
        assert(a =~= b);
    }
}

/// Every element carries the key `key` gives its payload.
pub open spec fn keyed_by<T>(s: Seq<(Vec<u128>, T)>, key: spec_fn(T) -> Seq<u128>) -> bool {
    forall|i: int| 0 <= i < s.len() ==> (#[trigger] s[i]).0@ == key(s[i].1)
}

/// Executable position of a stable insertion.
fn find_insert_pos<T>(s: &Vec<(Vec<u128>, T)>, k: &Vec<u128>, Ghost(key): Ghost<spec_fn(T) -> Seq<u128>>) -> (r: usize)
    requires
        keyed_by(s@, key),
    ensures
        r == insert_pos(payloads(s@), key, k@),
        r <= s@.len(),
{
    let ghost ps = payloads(s@);
    proof {
        lemma_insert_pos_bounds(ps, key, k@);
    }
    assert(ps.skip(0) =~= ps);
    let mut i: usize = 0;
    while i < s.len()
        invariant
            i <= s@.len(),
            ps == payloads(s@),
            keyed_by(s@, key),
            insert_pos(ps, key, k@) == i + insert_pos(ps.skip(i as int), key, k@),
        decreases s.len() - i,
    {
        assert(ps.skip(i as int)[0] == s@[i as int].1);
        if key_less(k, &s[i].0) {
            return i;
        }
        assert(ps.skip(i as int).drop_first() =~= ps.skip(i + 1));
        i += 1;
    }
    i
}

/// Stable sort of keyed elements (insertion sort); the key of each element
/// is the one `key` gives its payload.
pub fn sort_keyed<T>(items: Vec<(Vec<u128>, T)>, Ghost(key): Ghost<spec_fn(T) -> Seq<u128>>) -> (r: Vec<(Vec<u128>, T)>)
    requires
        keyed_by(items@, key),
    ensures
        payloads(r@) == stable_sort_by(payloads(items@), key),
        keyed_by(r@, key),
        r@.len() == items@.len(),
{
    let ghost input = items@;
    let ghost po = payloads(input);
    let mut rest = items;
    let mut rev: Vec<(Vec<u128>, T)> = Vec::new();
    while rest.len() > 0
        invariant
            rev@ + rest@.reverse() == input.reverse(),
        decreases rest.len(),
    {
        let x = rest.pop().unwrap();
        proof {
            assert(rest@.push(x).reverse() =~= seq![x] + rest@.reverse());
        }
        rev.push(x);
        assert(rev@ + rest@.reverse() =~= input.reverse());
    }
    assert(rev@ =~= input.reverse());
    let mut out: Vec<(Vec<u128>, T)> = Vec::new();
    let ghost n = input.len();
    while rev.len() > 0
        invariant
            rev@.len() <= n,
            n == input.len(),
            po == payloads(input),
            keyed_by(input, key),
            rev@ == input.skip(n - rev@.len()).reverse(),
            payloads(out@) == stable_sort_by(po.take(n - rev@.len()), key),
            keyed_by(out@, key),
            out@.len() == n - rev@.len(),
        decreases rev.len(),
    {
        let ghost taken = n - rev@.len();
        let x = rev.pop().unwrap();
        proof {
            assert(x == input[taken]);
            assert(po.take(taken + 1).drop_last() =~= po.take(taken));
            assert(po.take(taken + 1).last() == x.1);
            assert(rev@ =~= input.skip(taken + 1).reverse());
            lemma_stable_sort(po.take(taken), key);
        }
        let p = find_insert_pos(&out, &x.0, Ghost(key));
        let ghost before = out@;
        out.insert(p, x);
        proof {
            assert(payloads(out@) =~= payloads(before).insert(p as int, x.1));
            assert forall|i: int| 0 <= i < out@.len() implies (#[trigger] out@[i]).0@ == key(out@[i].1) by {
                if i < p as int {
                    assert(out@[i] == before[i]);
                } else if i > p as int {
                    assert(out@[i] == before[i - 1]);
                }
            }
        }
    }
    assert(po.take(n as int) =~= po);
    out
}

/// The payloads of keyed elements, in stable key order.
pub fn sorted_payloads<T: Copy>(items: Vec<(Vec<u128>, T)>, Ghost(key): Ghost<spec_fn(T) -> Seq<u128>>) -> (r: Vec<T>)
    requires
        keyed_by(items@, key),
    ensures
        r@ == stable_sort_by(payloads(items@), key),
{
    let sorted = sort_keyed(items, Ghost(key));
    let mut out: Vec<T> = Vec::new();
    let mut j: usize = 0;
    while j < sorted.len()
        invariant
            j <= sorted@.len(),
            out@ == payloads(sorted@).take(j as int),
        decreases sorted@.len() - j,
    {
        out.push(sorted[j].1);
        assert(out@ =~= payloads(sorted@).take(j + 1));
        j += 1;
    }
    assert(payloads(sorted@).take(sorted@.len() as int) =~= payloads(sorted@));
    out
}

/// The payloads of keyed elements, moved out in order.
pub fn into_payloads<T>(items: Vec<(Vec<u128>, T)>) -> (r: Vec<T>)
    ensures
        r@ == payloads(items@),
{
    let ghost input = items@;
    let mut rest = items;
    let mut rev: Vec<T> = Vec::new();
    while rest.len() > 0
        invariant
            rev@ + payloads(rest@).reverse() == payloads(input).reverse(),
        decreases rest.len(),
    {
        let x = rest.pop().unwrap();
        proof {
            assert(payloads(rest@.push(x)).reverse() =~= seq![x.1] + payloads(rest@).reverse());
        }
        rev.push(x.1);
        assert(rev@ + payloads(rest@).reverse() =~= payloads(input).reverse());
    }
    assert(rev@ =~= payloads(input).reverse());
    let mut out: Vec<T> = Vec::new();
    let ghost n = input.len();
    while rev.len() > 0
        invariant
            rev@.len() <= n,
            n == input.len(),
            rev@ == payloads(input).skip(n - rev@.len()).reverse(),
            out@ == payloads(input).take(n - rev@.len()),
        decreases rev.len(),
    {
        let ghost taken = n - rev@.len();
        let x = rev.pop().unwrap();
        proof {
            assert(x == payloads(input)[taken]);
            assert(rev@ =~= payloads(input).skip(taken + 1).reverse());
        }
        out.push(x);
        assert(out@ =~= payloads(input).take(taken + 1));
    }
    assert(payloads(input).take(n as int) =~= payloads(input));
    out
}

/// Strictly increasing.
pub open spec fn strictly_increasing(s: Seq<u128>) -> bool {
    forall|i: int, j: int| 0 <= i < j < s.len() ==> #[trigger] s[i] < #[trigger] s[j]
}

/// The values of `v`, sorted ascending, each once.
pub fn sorted_unique(v: &Vec<u128>) -> (r: Vec<u128>)
    ensures
        strictly_increasing(r@),
        r@.to_set() == v@.to_set(),
{
    let mut out: Vec<u128> = Vec::new();
    let mut i: usize = 0;
    while i < v.len()
        invariant
            i <= v.len(),
            strictly_increasing(out@),
            out@.to_set() == v@.take(i as int).to_set(),
        decreases v.len() - i,
    {
        let x = v[i];
        let mut p: usize = 0;
        while p < out.len() && out[p] < x
            invariant
                p <= out.len(),
                forall|k: int| 0 <= k < p ==> out@[k] < x,
            decreases out.len() - p,
        {
            p += 1;
        }
        let ghost before = out@;
        if p < out.len() && out[p] == x {
            assert(before.contains(x));
        } else {
            out.insert(p, x);
            assert(strictly_increasing(out@)) by {
                assert forall|a: int, b: int| 0 <= a < b < out@.len() implies #[trigger] out@[a]
                    < #[trigger] out@[b] by {
                    if b < p as int {
                        assert(out@[a] == before[a] && out@[b] == before[b]);
                    } else if b == p as int {
                        assert(out@[a] == before[a]);
                    } else if a == p as int {
                        assert(out@[b] == before[b - 1]);
                        assert(before[p as int] >= x);
                        if b - 1 > p as int {
                            assert(before[p as int] < before[b - 1]);
                        }
                    } else if a < p as int {
                        assert(out@[a] == before[a] && out@[b] == before[b - 1]);
                    } else {
                        assert(out@[a] == before[a - 1] && out@[b] == before[b - 1]);
                    }
                }
            }
            assert(out@.to_set() =~= before.to_set().insert(x)) by {
                assert forall|e: u128| out@.to_set().contains(e) <==> before.to_set().insert(x).contains(e) by {
                    if out@.contains(e) {
                        let k = choose|k: int| 0 <= k < out@.len() && out@[k] == e;
                        if k < p as int {
                            assert(before[k] == e);
                        } else if k > p as int {
                            assert(before[k - 1] == e);
                        }
                    }
                    if before.contains(e) {
                        let k = choose|k: int| 0 <= k < before.len() && before[k] == e;
                        if k < p as int {
                            assert(out@[k] == e);
                        } else {
                            assert(out@[k + 1] == e);
                        }
                    }
                    if e == x {
                        assert(out@[p as int] == x);
                    }
                }
            }
        }
        proof {
            assert(v@.take(i + 1) =~= v@.take(i as int).push(x));
            v@.take(i as int).lemma_push_to_set_commute(x);
        }
        i += 1;
    }
    assert(v@.take(v.len() as int) =~= v@);
    out
}

/// The distinct values of any sequence have a strictly increasing
/// arrangement.
pub proof fn lemma_strictly_increasing_exists(s: Seq<u128>) -> (r: Seq<u128>)
    ensures
        strictly_increasing(r),
        r.to_set() == s.to_set(),
    decreases s.len(),
{
    if s.len() == 0 {
        let r: Seq<u128> = seq![];
        assert(r.to_set() =~= s.to_set());
        r
    } else {
        let before = lemma_strictly_increasing_exists(s.drop_last());
        let x = s.last();
        s.drop_last().lemma_push_to_set_commute(x);
        assert(s.drop_last().push(x) =~= s);
        if before.contains(x) {
            assert(before.to_set().contains(x));
            assert(before.to_set().insert(x) =~= before.to_set());
            before
        } else {
            let p = crate::repo::first_where(before, |y: u128| y > x);
            crate::repo::lemma_first_where(before, |y: u128| y > x);
            let out = before.insert(p, x);
            assert forall|a: int, b: int| 0 <= a < b < out.len() implies #[trigger] out[a] < #[trigger] out[b] by {
                if b < p {
                    assert(out[a] == before[a] && out[b] == before[b]);
                } else if b == p {
                    assert(out[a] == before[a]);
                    assert(!(before[a] > x));
                    assert(before[a] != x) by {
                        if before[a] == x {
                            assert(before.contains(x));
                        }
                    }
                } else if a == p {
                    assert(out[b] == before[b - 1]);
                    assert(before[p] > x);
                    if b - 1 > p {
                        assert(before[p] < before[b - 1]);
                    }
                } else if a < p {
                    assert(out[a] == before[a] && out[b] == before[b - 1]);
                } else {
                    assert(out[a] == before[a - 1] && out[b] == before[b - 1]);
                }
            }
            assert(out.to_set() =~= before.to_set().insert(x)) by {
                assert forall|e: u128| out.to_set().contains(e) <==> before.to_set().insert(x).contains(e) by {
                    if out.contains(e) {
                        let k = choose|k: int| 0 <= k < out.len() && out[k] == e;
                        if k < p {
                            assert(before[k] == e);
                        } else if k > p {
                            assert(before[k - 1] == e);
                        }
                    }
                    if before.contains(e) {
                        let k = choose|k: int| 0 <= k < before.len() && before[k] == e;
                        if k < p {
                            assert(out[k] == e);
                        } else {
                            assert(out[k + 1] == e);
                        }
                    }
                    if e == x {
                        assert(out[p] == x);
                    }
                }
            }
            out
        }
    }
}

/// Two strictly increasing sequences with the same elements are equal.
pub proof fn lemma_strictly_increasing_unique(a: Seq<u128>, b: Seq<u128>)
    requires
        strictly_increasing(a),
        strictly_increasing(b),
        a.to_set() == b.to_set(),
    ensures
        a == b,
    decreases a.len(),
{
    if a.len() == 0 {
        if b.len() > 0 {
            assert(b.to_set().contains(b[0]));
            assert(!a.to_set().contains(b[0]));
        }
        assert(a =~= b);
    } else {
        assert(a.to_set().contains(a[0]));
        assert(b.len() > 0);
        assert(b.to_set().contains(b[0]));
        let j = choose|j: int| 0 <= j < b.len() && b[j] == a[0];
        let i = choose|i: int| 0 <= i < a.len() && a[i] == b[0];
        if i > 0 {
            assert(a[0] < a[i]);
        }
        if j > 0 {
            assert(b[0] < b[j]);
        }
        assert(a[0] == b[0]);
        let ra = a.drop_first();
        let rb = b.drop_first();
        assert(ra.to_set() =~= rb.to_set()) by {
            assert forall|x: u128| ra.to_set().contains(x) implies rb.to_set().contains(x) by {
                let k = choose|k: int| 0 <= k < ra.len() && ra[k] == x;
                assert(a[k + 1] == x && a[0] < a[k + 1]);
                assert(a.to_set().contains(x));
                let m = choose|m: int| 0 <= m < b.len() && b[m] == x;
                assert(m != 0);
                assert(rb[m - 1] == x);
            }
            assert forall|x: u128| rb.to_set().contains(x) implies ra.to_set().contains(x) by {
                let k = choose|k: int| 0 <= k < rb.len() && rb[k] == x;
                assert(b[k + 1] == x && b[0] < b[k + 1]);
                assert(b.to_set().contains(x));
                let m = choose|m: int| 0 <= m < a.len() && a[m] == x;
                assert(m != 0);
                assert(ra[m - 1] == x);
            }
        }
        lemma_strictly_increasing_unique(ra, rb);
        assert(a =~= b) by {
            assert forall|k: int| 0 <= k < a.len() implies a[k] == b[k] by {
                if k > 0 {
                    assert(a[k] == ra[k - 1]);
                    assert(b[k] == rb[k - 1]);
                }
            }
        }
    }
}

/// A sequence with each run of equal neighbours kept once.
pub open spec fn dedup_runs<T>(s: Seq<T>) -> Seq<T>
    decreases s.len(),
{
    if s.len() <= 1 {
        s
    } else if s.last() == s[s.len() - 2] {
        dedup_runs(s.drop_last())
    } else {
        dedup_runs(s.drop_last()).push(s.last())
    }
}

} // verus!
