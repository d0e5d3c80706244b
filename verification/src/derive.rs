//! Derived attendance: expansion of a person's group expectations into
//! attendance edges, with deterministic content-addressed identity.
//!
//! Expansion filters every hop at the evaluation instant and includes the
//! person's direct groups (depth 0). `cascades` decides whether an
//! ancestor group's expectation flows down to members of its subgroups;
//! expectations on a person's direct groups always apply.

use vstd::prelude::*;

use crate::interval::{Interval, Timestamp};
use crate::model::{Attends, EventId, Expects, GroupId, MemberOf, Obligation, PersonId, Priority};
use crate::order::{keyed_by, payloads, sort_keyed, stable_sort_by};
use crate::repo::memory::{ancestors_spec, MemoryRepo, RepoView};

verus! {

/// BLAKE3 digest of a byte string.
pub uninterp spec fn blake3_spec(data: Seq<u8>) -> Seq<u8>;

/// `blake3::hash`: the 32-byte BLAKE3 digest of `data`. The contract names
/// the result as a function of the input bytes alone; nothing else about
/// the hash is claimed.
#[verifier::external_body]
fn blake3_digest(data: &[u8]) -> (r: [u8; 32])
    ensures
        r@ == blake3_spec(data@),
{
    *blake3::hash(data).as_bytes()
}

/// Big-endian bytes of a `u128` (the byte layout of a UUID).
pub open spec fn u128_be_bytes(x: u128) -> Seq<u8> {
    Seq::new(16, |i: int| (((x >> ((120 - 8 * i) as u32)) & 0xff) as u8))
}

/// Little-endian bytes of an `i64`.
pub open spec fn i64_le_bytes(x: i64) -> Seq<u8> {
    Seq::new(8, |i: int| ((((x as u64) >> ((8 * i) as u32)) & 0xff) as u8))
}

fn push_u128_be(buf: &mut Vec<u8>, x: u128)
    ensures
        final(buf)@ == old(buf)@ + u128_be_bytes(x),
{
    let ghost start = buf@;
    let mut i: u32 = 0;
    while i < 16
        invariant
            i <= 16,
            buf@ == start + u128_be_bytes(x).take(i as int),
        decreases 16 - i,
    {
        let sh: u32 = 120 - 8 * i;
        buf.push(((x >> sh) & 0xff) as u8);
        assert(u128_be_bytes(x).take(i + 1) =~= u128_be_bytes(x).take(i as int).push(
            (((x >> sh) & 0xff) as u8),
        ));
        i += 1;
    }
    assert(u128_be_bytes(x).take(16) =~= u128_be_bytes(x));
}

fn push_i64_le(buf: &mut Vec<u8>, x: i64)
    ensures
        final(buf)@ == old(buf)@ + i64_le_bytes(x),
{
    let ghost start = buf@;
    let u = x as u64;
    let mut i: u32 = 0;
    while i < 8
        invariant
            i <= 8,
            u == x as u64,
            buf@ == start + i64_le_bytes(x).take(i as int),
        decreases 8 - i,
    {
        let sh: u32 = 8 * i;
        buf.push(((u >> sh) & 0xff) as u8);
        assert(i64_le_bytes(x).take(i + 1) =~= i64_le_bytes(x).take(i as int).push(
            (((u >> sh) & 0xff) as u8),
        ));
        i += 1;
    }
    assert(i64_le_bytes(x).take(8) =~= i64_le_bytes(x));
}

/// Content-addressed identity of a derived edge: stable across
/// recomputation with unchanged inputs.
#[derive(Clone, Copy, PartialEq, Eq, PartialOrd, Ord, Hash, Debug)]
pub struct DerivedId(pub [u8; 32]);

/// The bytes a derived identity hashes: person, event and group
/// identifiers (big-endian), then the expectation's window start
/// (little-endian).
pub open spec fn derived_key_bytes(person: PersonId, event: EventId, group: GroupId, start: Timestamp) -> Seq<u8> {
    u128_be_bytes(person.0) + u128_be_bytes(event.0) + u128_be_bytes(group.0) + i64_le_bytes(start.0)
}

pub open spec fn derived_id_spec(person: PersonId, event: EventId, group: GroupId, start: Timestamp) -> DerivedId {
    DerivedId(choose|a: [u8; 32]| a@ == blake3_spec(derived_key_bytes(person, event, group, start)))
}

/// Identity of a derived edge: expectations carry no surrogate id, so the
/// identity is content-derived from person, event, group and the
/// expectation's window start.
pub fn derived_id(person: PersonId, event: EventId, group: GroupId, expectation_start: Timestamp) -> (r: DerivedId)
    ensures
        r.0@ == blake3_spec(derived_key_bytes(person, event, group, expectation_start)),
        r == derived_id_spec(person, event, group, expectation_start),
{
    let mut buf: Vec<u8> = Vec::new();
    push_u128_be(&mut buf, person.0);
    push_u128_be(&mut buf, event.0);
    push_u128_be(&mut buf, group.0);
    push_i64_le(&mut buf, expectation_start.0);
    assert(buf@ =~= derived_key_bytes(person, event, group, expectation_start));
    let h = blake3_digest(buf.as_slice());
    proof {
        let a = choose|a: [u8; 32]| a@ == blake3_spec(derived_key_bytes(person, event, group, expectation_start));
        assert(a@ == h@);
        assert(forall|i: int| 0 <= i < 32 ==> a@[i] == h@[i]);
        broadcast use vstd::array::group_array_axioms;
        assert(a =~= h);
    }
    DerivedId(h)
}

/// Sort key of a derived identity: its bytes.
pub open spec fn id_key(d: DerivedId) -> Seq<u128> {
    d.0@.map_values(|b: u8| b as u128)
}

/// The sort key of an identity, built.
pub(crate) fn id_key_vec(d: &DerivedId) -> (r: Vec<u128>)
    ensures
        r@ == id_key(*d),
{
    let mut k: Vec<u128> = Vec::new();
    let mut j: usize = 0;
    while j < 32
        invariant
            j <= 32,
            d.0@.len() == 32,
            k@ == d.0@.take(j as int).map_values(|b: u8| b as u128),
        decreases 32 - j,
    {
        k.push(d.0[j] as u128);
        assert(k@ =~= d.0@.take(j + 1).map_values(|b: u8| b as u128));
        j += 1;
    }
    assert(d.0@.take(32) =~= d.0@);
    k
}

/// Concatenated bytes of a list of identities.
pub open spec fn ids_bytes(s: Seq<DerivedId>) -> Seq<u8>
    decreases s.len(),
{
    if s.len() == 0 {
        seq![]
    } else {
        ids_bytes(s.drop_last()) + s.last().0@
    }
}

/// Digest of an identity set: BLAKE3 over the identities in ascending
/// byte order.
pub open spec fn digest_spec(ids: Seq<DerivedId>) -> Seq<u8> {
    blake3_spec(ids_bytes(stable_sort_by(ids, |d: DerivedId| id_key(d))))
}

/// Digest of a derived-edge identity set: BLAKE3 over the sorted ids.
pub fn digest_of_ids(ids: &[DerivedId]) -> (r: [u8; 32])
    ensures
        r@ == digest_spec(ids@),
{
    let ghost key = |d: DerivedId| id_key(d);
    let mut keyed: Vec<(Vec<u128>, DerivedId)> = Vec::new();
    let mut i: usize = 0;
    while i < ids.len()
        invariant
            i <= ids@.len(),
            key == (|d: DerivedId| id_key(d)),
            keyed_by(keyed@, key),
            payloads(keyed@) == ids@.take(i as int),
        decreases ids@.len() - i,
    {
        let d = ids[i];
        let k = id_key_vec(&d);
        let ghost before = keyed@;
        keyed.push((k, d));
        assert(payloads(keyed@) =~= payloads(before).push(d));
        assert(ids@.take(i + 1) =~= ids@.take(i as int).push(d));
        i += 1;
    }
    assert(ids@.take(ids@.len() as int) =~= ids@);
    let sorted = sort_keyed(keyed, Ghost(key));
    let mut buf: Vec<u8> = Vec::new();
    let mut j: usize = 0;
    while j < sorted.len()
        invariant
            j <= sorted@.len(),
            buf@ == ids_bytes(payloads(sorted@).take(j as int)),
        decreases sorted@.len() - j,
    {
        let d = sorted[j].1;
        let mut b: usize = 0;
        let ghost start = buf@;
        while b < 32
            invariant
                b <= 32,
                d.0@.len() == 32,
                buf@ == start + d.0@.take(b as int),
            decreases 32 - b,
        {
            buf.push(d.0[b]);
            assert(buf@ =~= start + d.0@.take(b + 1));
            b += 1;
        }
        assert(d.0@.take(32) =~= d.0@);
        assert(payloads(sorted@).take(j + 1).drop_last() =~= payloads(sorted@).take(j as int));
        j += 1;
    }
    assert(payloads(sorted@).take(sorted@.len() as int) =~= payloads(sorted@));
    blake3_digest(buf.as_slice())
}

/// A group-derived attendance edge, before reconciliation with explicit
/// attendance.
#[derive(Clone, Copy, Debug)]
pub struct DerivedAttends {
    pub id: DerivedId,
    pub person: PersonId,
    pub event: EventId,
    pub source_group: GroupId,
    /// Seeds `attends.priority_group`.
    pub priority_group: Priority,
    pub obligation: Obligation,
    /// The expectation's own window, not the event's.
    pub during: Interval,
}


/// The derived edge an expectation gives `person`.
pub open spec fn to_derived(person: PersonId, x: Expects) -> DerivedAttends {
    DerivedAttends {
        id: derived_id_spec(person, x.event, x.group, Timestamp(x.during.lo() as i64)),
        person,
        event: x.event,
        source_group: x.group,
        priority_group: x.default_priority,
        obligation: x.obligation,
        during: x.during,
    }
}

/// Groups of the person's memberships valid at `at`, in membership order.
pub open spec fn direct_of(v: RepoView, person: PersonId, at: Timestamp) -> Seq<GroupId> {
    v.member_of.filter(|m: MemberOf| m.person == person && m.during.contains_spec(at.0 as int)).map_values(
        |m: MemberOf| m.group,
    )
}

/// Group identifiers of a reach list.
pub open spec fn reach_ids(groups: Seq<(GroupId, bool)>) -> Seq<GroupId> {
    groups.map_values(|p: (GroupId, bool)| p.0)
}

/// Append the first `k` ancestors that are not yet reached, marking those
/// that are not direct groups as reached by cascade only.
pub open spec fn add_ancestors(groups: Seq<(GroupId, bool)>, ancs: Seq<GroupId>, direct: Seq<GroupId>, k: int) -> Seq<(GroupId, bool)>
    decreases k,
{
    if k <= 0 {
        groups
    } else {
        let g = add_ancestors(groups, ancs, direct, k - 1);
        let a = ancs[k - 1];
        if reach_ids(g).contains(a) {
            g
        } else {
            g.push((a, !direct.contains(a)))
        }
    }
}

/// Reach after visiting the ancestors of the first `i` direct groups.
pub open spec fn reach_upto(v: RepoView, direct: Seq<GroupId>, at: Timestamp, i: int) -> Seq<(GroupId, bool)>
    decreases i,
{
    if i <= 0 {
        direct.map_values(|g: GroupId| (g, false))
    } else {
        let ancs = ancestors_spec(v.subgroup_of, direct[i - 1], at);
        add_ancestors(reach_upto(v, direct, at, i - 1), ancs, direct, ancs.len() as int)
    }
}

/// Reachable groups of `person` at `at`: direct groups (depth 0), then the
/// ancestors of each, with a flag marking groups reached only by cascade.
pub open spec fn reach_of(v: RepoView, person: PersonId, at: Timestamp) -> Seq<(GroupId, bool)> {
    let direct = direct_of(v, person, at);
    reach_upto(v, direct, at, direct.len() as int)
}

/// Whether `g` is reached only through a cascade: the flag of its first
/// entry (unknown groups count as cascade-only).
pub open spec fn cascade_only(groups: Seq<(GroupId, bool)>, g: GroupId) -> bool
    decreases groups.len(),
{
    if groups.len() == 0 {
        true
    } else if groups[0].0 == g {
        groups[0].1
    } else {
        cascade_only(groups.drop_first(), g)
    }
}

/// `c` beats `e` for the same event: higher priority, ties to the smaller
/// group identifier.
pub open spec fn beats(c: Expects, e: Expects) -> bool {
    c.default_priority.0 > e.default_priority.0 || (c.default_priority.0 == e.default_priority.0
        && c.group.0 < e.group.0)
}

/// Fold one expectation into the per-event winners.
pub open spec fn pick(out: Seq<Expects>, x: Expects) -> Seq<Expects> {
    let i = crate::repo::first_where(out, |e: Expects| e.event == x.event);
    if i >= out.len() {
        out.push(x)
    } else if beats(x, out[i]) {
        out.update(i, x)
    } else {
        out
    }
}

/// Winners over the first `n` applicable expectations.
pub open spec fn winners_upto(xs: Seq<Expects>, groups: Seq<(GroupId, bool)>, n: int) -> Seq<Expects>
    decreases n,
{
    if n <= 0 {
        seq![]
    } else {
        let w = winners_upto(xs, groups, n - 1);
        let x = xs[n - 1];
        if cascade_only(groups, x.group) && !x.cascades {
            w
        } else {
            pick(w, x)
        }
    }
}

/// Sort key of a derived edge: its event.
pub open spec fn event_key(d: DerivedAttends) -> Seq<u128> {
    seq![d.event.0]
}

/// Q1: a person's group-derived attendance at `at`: the expectations valid
/// at `at` on reached groups (ancestor expectations only when they
/// cascade), one edge per event keeping the highest priority (ties to the
/// smaller group), ordered by event.
pub open spec fn expand_spec(v: RepoView, person: PersonId, at: Timestamp) -> Seq<DerivedAttends> {
    let groups = reach_of(v, person, at);
    let xs = v.expects.filter(|x: Expects| reach_ids(groups).contains(x.group) && x.during.contains_spec(at.0 as int));
    stable_sort_by(
        winners_upto(xs, groups, xs.len() as int).map_values(|x: Expects| to_derived(person, x)),
        |d: DerivedAttends| event_key(d),
    )
}

pub(crate) fn reach_contains(groups: &Vec<(GroupId, bool)>, g: GroupId) -> (r: Option<bool>)
    ensures
        r is Some <==> reach_ids(groups@).contains(g),
        r matches Some(c) ==> c == cascade_only(groups@, g),
        r is None ==> cascade_only(groups@, g),
{
    let mut i: usize = 0;
    assert(groups@.subrange(0, groups@.len() as int) =~= groups@);
    while i < groups.len()
        invariant
            i <= groups@.len(),
            forall|j: int| 0 <= j < i ==> (#[trigger] groups@[j]).0 != g,
            cascade_only(groups@, g) == cascade_only(groups@.subrange(i as int, groups@.len() as int), g),
        decreases groups@.len() - i,
    {
        assert(groups@.subrange(i as int, groups@.len() as int).drop_first() =~= groups@.subrange(
            i + 1,
            groups@.len() as int,
        ));
        if groups[i].0 == g {
            assert(reach_ids(groups@)[i as int] == g);
            return Some(groups[i].1);
        }
        i += 1;
    }
    assert forall|j: int| 0 <= j < groups@.len() implies reach_ids(groups@)[j] != g by {
        assert(groups@[j].0 != g);
    }
    None
}

/// Q1: expand a person's group-derived attendance at instant `at`.
pub fn expand(repo: &MemoryRepo, person: PersonId, at: Timestamp) -> (r: Vec<DerivedAttends>)
    ensures
        r@ == expand_spec(repo@, person, at),
{
    let ghost v = repo@;
    let memberships = repo.memberships(person, at);
    let mut direct: Vec<GroupId> = Vec::new();
    let mut i: usize = 0;
    while i < memberships.len()
        invariant
            i <= memberships@.len(),
            direct@ == memberships@.take(i as int).map_values(|m: MemberOf| m.group),
        decreases memberships@.len() - i,
    {
        direct.push(memberships[i].group);
        assert(direct@ =~= memberships@.take(i + 1).map_values(|m: MemberOf| m.group));
        i += 1;
    }
    assert(memberships@.take(memberships@.len() as int) =~= memberships@);
    assert(direct@ == direct_of(v, person, at));
    let mut groups: Vec<(GroupId, bool)> = Vec::new();
    let mut d: usize = 0;
    while d < direct.len()
        invariant
            d <= direct@.len(),
            groups@ == direct@.take(d as int).map_values(|g: GroupId| (g, false)),
        decreases direct@.len() - d,
    {
        groups.push((direct[d], false));
        assert(groups@ =~= direct@.take(d + 1).map_values(|g: GroupId| (g, false)));
        d += 1;
    }
    assert(direct@.take(direct@.len() as int) =~= direct@);
    let mut gi: usize = 0;
    while gi < direct.len()
        invariant
            gi <= direct@.len(),
            v == repo@,
            direct@ == direct_of(v, person, at),
            groups@ == reach_upto(v, direct@, at, gi as int),
        decreases direct@.len() - gi,
    {
        let ancs = repo.group_ancestors(direct[gi], at);
        let ghost g0 = groups@;
        let mut k: usize = 0;
        while k < ancs.len()
            invariant
                k <= ancs@.len(),
                groups@ == add_ancestors(g0, ancs@, direct@, k as int),
            decreases ancs@.len() - k,
        {
            let a = ancs[k];
            if reach_contains(&groups, a).is_none() {
                let ghost before = groups@;
                groups.push((a, !contains_group_vec(&direct, a)));
                assert(groups@ == before.push((a, !direct@.contains(a))));
            }
            k += 1;
        }
        gi += 1;
    }
    let ids_vec = {
        let mut ids: Vec<GroupId> = Vec::new();
        let mut j: usize = 0;
        while j < groups.len()
            invariant
                j <= groups@.len(),
                ids@ == reach_ids(groups@).take(j as int),
            decreases groups@.len() - j,
        {
            ids.push(groups[j].0);
            assert(ids@ =~= reach_ids(groups@).take(j + 1));
            j += 1;
        }
        assert(reach_ids(groups@).take(groups@.len() as int) =~= reach_ids(groups@));
        ids
    };
    let xs = repo.expectations(ids_vec.as_slice(), at);
    let ghost xs_spec = xs@;
    let mut winners: Vec<Expects> = Vec::new();
    let mut n: usize = 0;
    while n < xs.len()
        invariant
            n <= xs@.len(),
            winners@ == winners_upto(xs@, groups@, n as int),
        decreases xs@.len() - n,
    {
        let x = xs[n];
        let c = match reach_contains(&groups, x.group) {
            Some(c) => c,
            None => true,
        };
        assert(c == cascade_only(groups@, x.group));
        let ghost w0 = winners@;
        if !(c && !x.cascades) {
            let mut w: usize = 0;
            let ghost pred = |e: Expects| e.event == x.event;
            while w < winners.len() && winners[w].event != x.event
                invariant
                    w <= winners@.len(),
                    pred == (|e: Expects| e.event == x.event),
                    forall|j: int| 0 <= j < w ==> !pred(#[trigger] winners@[j]),
                decreases winners@.len() - w,
            {
                w += 1;
            }
            proof {
                crate::repo::lemma_first_where_is(winners@, pred, w as int);
            }
            if w >= winners.len() {
                winners.push(x);
            } else {
                let e = winners[w];
                if x.default_priority.0 > e.default_priority.0 || (x.default_priority.0 == e.default_priority.0 && x.group.0 < e.group.0) {
                    winners.set(w, x);
                }
            }
            assert(winners@ == pick(w0, x));
        }
        assert(winners_upto(xs@, groups@, n + 1) == (if cascade_only(groups@, x.group) && !x.cascades {
            w0
        } else {
            pick(w0, x)
        }));
        n += 1;
    }
    // Build the derived edges and order them by event.
    let ghost key = |d: DerivedAttends| event_key(d);
    let ghost f = |x: Expects| to_derived(person, x);
    let mut keyed: Vec<(Vec<u128>, DerivedAttends)> = Vec::new();
    let mut m: usize = 0;
    while m < winners.len()
        invariant
            m <= winners@.len(),
            key == (|d: DerivedAttends| event_key(d)),
            f == (|x: Expects| to_derived(person, x)),
            keyed_by(keyed@, key),
            payloads(keyed@) == winners@.take(m as int).map_values(f),
        decreases winners@.len() - m,
    {
        let x = winners[m];
        let dd = DerivedAttends {
            id: derived_id(person, x.event, x.group, x.during.start()),
            person,
            event: x.event,
            source_group: x.group,
            priority_group: x.default_priority,
            obligation: x.obligation,
            during: x.during,
        };
        assert(dd == f(x));
        let mut k: Vec<u128> = Vec::new();
        k.push(x.event.0);
        assert(k@ =~= event_key(dd));
        let ghost before = keyed@;
        keyed.push((k, dd));
        assert(payloads(keyed@) =~= payloads(before).push(dd));
        assert(winners@.take(m + 1).map_values(f) =~= winners@.take(m as int).map_values(f).push(f(x)));
        m += 1;
    }
    assert(winners@.take(winners@.len() as int) =~= winners@);
    let sorted = sort_keyed(keyed, Ghost(key));
    let mut out: Vec<DerivedAttends> = Vec::new();
    let mut j: usize = 0;
    while j < sorted.len()
        invariant
            j <= sorted@.len(),
            out@ == payloads(sorted@).take(j as int),
        decreases sorted@.len() - j,
    {
        out.push(sorted[j].1);
        assert(out@ =~= payloads(sorted@).take(j + 1));
        j += 1;
    }
    assert(payloads(sorted@).take(sorted@.len() as int) =~= payloads(sorted@));
    out
}

/// Membership of a group identifier in a vector.
fn contains_group_vec(v: &Vec<GroupId>, g: GroupId) -> (r: bool)
    ensures
        r == v@.contains(g),
{
    crate::repo::memory::contains_group(v.as_slice(), g)
}

/// A person's effective schedule: explicit attendance, plus the derived
/// edges for events with no explicit edge (explicit shadows derived).
pub struct EffectiveSchedule {
    pub explicit: Vec<Attends>,
    pub derived: Vec<DerivedAttends>,
}

pub open spec fn shadowed(explicit: Seq<Attends>, d: DerivedAttends) -> bool {
    exists|k: int| 0 <= k < explicit.len() && #[trigger] explicit[k].event == d.event
}

pub fn effective_schedule(repo: &MemoryRepo, person: PersonId, window: Interval, at: Timestamp) -> (r: EffectiveSchedule)
    ensures
        r.explicit@ == repo@.attends.filter(|a: Attends| a.person == person && a.during.overlaps_with(window)),
        r.derived@ == expand_spec(repo@, person, at).filter(|d: DerivedAttends| !shadowed(r.explicit@, d)),
{
    let explicit = repo.attends_for(person, window);
    let all = expand(repo, person, at);
    let ghost pred = |d: DerivedAttends| !shadowed(explicit@, d);
    let mut derived: Vec<DerivedAttends> = Vec::new();
    let mut i: usize = 0;
    while i < all.len()
        invariant
            i <= all@.len(),
            pred == (|d: DerivedAttends| !shadowed(explicit@, d)),
            derived@ == all@.take(i as int).filter(pred),
        decreases all@.len() - i,
    {
        let d = all[i];
        proof {
            assert(all@.take(i + 1) =~= all@.take(i as int).push(d));
            all@.take(i as int).lemma_filter_push(d, pred);
        }
        let mut k: usize = 0;
        let mut hit = false;
        while k < explicit.len()
            invariant
                k <= explicit@.len(),
                hit == exists|j: int| 0 <= j < k && #[trigger] explicit@[j].event == d.event,
            decreases explicit@.len() - k,
        {
            if explicit[k].event == d.event {
                hit = true;
            }
            k += 1;
        }
        if !hit {
            derived.push(d);
        }
        i += 1;
    }
    assert(all@.take(all@.len() as int) =~= all@);
    EffectiveSchedule { explicit, derived }
}


/// An expectation that counts for the person: on a group reached directly,
/// or on an ancestor when it cascades.
pub open spec fn eligible(groups: Seq<(GroupId, bool)>, x: Expects) -> bool {
    !(cascade_only(groups, x.group) && !x.cascades)
}

/// `e` is one of the first `n` expectations of `xs`, and counts.
pub open spec fn won_from(xs: Seq<Expects>, groups: Seq<(GroupId, bool)>, n: int, e: Expects) -> bool {
    exists|j: int| 0 <= j < n && eligible(groups, xs[j]) && #[trigger] xs[j] == e
}

/// Some element of `w` is for event `ev`.
pub open spec fn covers_event(w: Seq<Expects>, ev: EventId) -> bool {
    exists|i: int| 0 <= i < w.len() && (#[trigger] w[i]).event == ev
}

/// What the winners over the first `n` expectations are: each is one of
/// them and counts; every event of one that counts has a winner; no
/// expectation that counts beats its event's winner; one winner per event.
pub open spec fn winners_ok(xs: Seq<Expects>, groups: Seq<(GroupId, bool)>, n: int, w: Seq<Expects>) -> bool {
    &&& forall|i: int| 0 <= i < w.len() ==> won_from(xs, groups, n, #[trigger] w[i])
    &&& forall|j: int| 0 <= j < n && eligible(groups, #[trigger] xs[j]) ==> covers_event(w, xs[j].event)
    &&& forall|i: int, j: int|
        0 <= i < w.len() && 0 <= j < n && eligible(groups, xs[j]) && (#[trigger] w[i]).event == (#[trigger] xs[j]).event
            ==> !beats(xs[j], w[i])
    &&& forall|a: int, b: int| 0 <= a < w.len() && 0 <= b < w.len() && a != b ==> (#[trigger] w[a]).event != (#[trigger] w[b]).event
}

/// The fold of `pick` keeps the best expectation per event.
proof fn lemma_winners(xs: Seq<Expects>, groups: Seq<(GroupId, bool)>, n: int)
    requires
        0 <= n <= xs.len(),
    ensures
        winners_ok(xs, groups, n, winners_upto(xs, groups, n)),
    decreases n,
{
    if n > 0 {
        lemma_winners(xs, groups, n - 1);
        let w = winners_upto(xs, groups, n - 1);
        let x = xs[n - 1];
        let w2 = winners_upto(xs, groups, n);
        assert forall|i: int| 0 <= i < w.len() implies won_from(xs, groups, n, #[trigger] w[i]) by {
            assert(won_from(xs, groups, n - 1, w[i]));
            let j = choose|j: int| 0 <= j < n - 1 && eligible(groups, xs[j]) && #[trigger] xs[j] == w[i];
            assert(xs[j] == w[i]);
        }
        if eligible(groups, x) {
            let p = |e: Expects| e.event == x.event;
            let i0 = crate::repo::first_where(w, p);
            crate::repo::lemma_first_where(w, p);
            assert(won_from(xs, groups, n, x)) by {
                assert(xs[n - 1] == x);
            }
            if i0 >= w.len() {
                assert(w2 == w.push(x));
                assert forall|j: int| 0 <= j < n - 1 && eligible(groups, #[trigger] xs[j]) implies xs[j].event != x.event by {
                    assert(covers_event(w, xs[j].event));
                    let i = choose|i: int| 0 <= i < w.len() && (#[trigger] w[i]).event == xs[j].event;
                    assert(!p(w[i]));
                }
                assert forall|i: int| 0 <= i < w2.len() implies won_from(xs, groups, n, #[trigger] w2[i]) by {
                    if i < w.len() {
                        assert(w2[i] == w[i]);
                    }
                }
                assert forall|j: int| 0 <= j < n && eligible(groups, #[trigger] xs[j]) implies covers_event(w2, xs[j].event) by {
                    if j == n - 1 {
                        assert(w2[w.len() as int] == x);
                    } else {
                        let i = choose|i: int| 0 <= i < w.len() && (#[trigger] w[i]).event == xs[j].event;
                        assert(w2[i] == w[i]);
                    }
                }
                assert forall|a: int, b: int|
                    0 <= a < w2.len() && 0 <= b < w2.len() && a != b implies (#[trigger] w2[a]).event != (#[trigger] w2[b]).event by {
                    if a == w.len() {
                        assert(!p(w[b]));
                    } else if b == w.len() {
                        assert(!p(w[a]));
                    }
                }
                assert forall|i: int, j: int|
                    0 <= i < w2.len() && 0 <= j < n && eligible(groups, xs[j]) && (#[trigger] w2[i]).event == (#[trigger] xs[j]).event
                        implies !beats(xs[j], w2[i]) by {
                    if i == w.len() {
                        if j < n - 1 {
                            assert(xs[j].event != x.event);
                        }
                    } else if j == n - 1 {
                        assert(!p(w[i]));
                    } else {
                        assert(w2[i] == w[i]);
                    }
                }
            } else if beats(x, w[i0]) {
                assert(w2 == w.update(i0, x));
                assert forall|i: int| 0 <= i < w2.len() implies won_from(xs, groups, n, #[trigger] w2[i]) by {
                    if i != i0 {
                        assert(w2[i] == w[i]);
                    }
                }
                assert forall|j: int| 0 <= j < n && eligible(groups, #[trigger] xs[j]) implies covers_event(w2, xs[j].event) by {
                    if j == n - 1 {
                        assert(w2[i0] == x);
                    } else {
                        let i = choose|i: int| 0 <= i < w.len() && (#[trigger] w[i]).event == xs[j].event;
                        if i == i0 {
                            assert(w2[i0].event == xs[j].event);
                        } else {
                            assert(w2[i] == w[i]);
                        }
                    }
                }
                assert forall|a: int, b: int|
                    0 <= a < w2.len() && 0 <= b < w2.len() && a != b implies (#[trigger] w2[a]).event != (#[trigger] w2[b]).event by {
                    assert(w[a].event != w[b].event);
                }
                assert forall|i: int, j: int|
                    0 <= i < w2.len() && 0 <= j < n && eligible(groups, xs[j]) && (#[trigger] w2[i]).event == (#[trigger] xs[j]).event
                        implies !beats(xs[j], w2[i]) by {
                    if i == i0 {
                        if j < n - 1 {
                            assert(w[i0].event == xs[j].event);
                            assert(!beats(xs[j], w[i0]));
                        }
                    } else {
                        assert(w2[i] == w[i]);
                        if j == n - 1 {
                            assert(w[i0].event == x.event);
                            assert(w[i].event != w[i0].event);
                        }
                    }
                }
            } else {
                assert(w2 == w);
                assert forall|j: int| 0 <= j < n && eligible(groups, #[trigger] xs[j]) implies covers_event(w2, xs[j].event) by {
                    if j == n - 1 {
                        assert(w[i0].event == x.event);
                    }
                }
                assert forall|i: int, j: int|
                    0 <= i < w2.len() && 0 <= j < n && eligible(groups, xs[j]) && (#[trigger] w2[i]).event == (#[trigger] xs[j]).event
                        implies !beats(xs[j], w2[i]) by {
                    if j == n - 1 {
                        assert(w[i0].event == x.event);
                        if i != i0 {
                            assert(w[i].event != w[i0].event);
                        }
                    }
                }
            }
        } else {
            assert(w2 == w);
            assert forall|j: int| 0 <= j < n && eligible(groups, #[trigger] xs[j]) implies covers_event(w2, xs[j].event) by {
                if j == n - 1 {
                    assert(xs[j] == x);
                }
            }
        }
    }
}

/// Expectation `x` would rank above the derived edge `d`: a higher
/// priority, or the same priority on a smaller group.
pub open spec fn outranks(x: Expects, d: DerivedAttends) -> bool {
    x.default_priority.0 > d.priority_group.0 || (x.default_priority.0 == d.priority_group.0 && x.group.0 < d.source_group.0)
}

/// `d` is the edge some counted expectation among `xs` gives `person`.
pub open spec fn derived_from(xs: Seq<Expects>, groups: Seq<(GroupId, bool)>, person: PersonId, d: DerivedAttends) -> bool {
    exists|j: int| 0 <= j < xs.len() && eligible(groups, xs[j]) && #[trigger] to_derived(person, xs[j]) == d
}

/// What a person's derived attendance at `at` is, stated without the fold
/// that computes it. Take the expectations valid at `at` on a group the
/// person reaches at `at` (a direct group, or an ancestor through subgroup
/// edges valid at `at`), keeping those on an ancestor only when they
/// cascade. Then every edge is the edge of one of them; every event of one
/// of them has an edge; no one of them outranks its event's edge (the edge
/// has the highest priority, ties to the smaller group); and there is one
/// edge per event.
pub proof fn lemma_expand_declarative(v: RepoView, person: PersonId, at: Timestamp)
    ensures
        ({
            let out = expand_spec(v, person, at);
            let groups = reach_of(v, person, at);
            let xs = v.expects.filter(crate::agreement::applicable(v, person, at));
            &&& forall|k: int| 0 <= k < out.len() ==> derived_from(xs, groups, person, #[trigger] out[k])
            &&& forall|j: int| 0 <= j < xs.len() && eligible(groups, #[trigger] xs[j]) ==> exists|k: int|
                0 <= k < out.len() && (#[trigger] out[k]).event == xs[j].event
            &&& forall|j: int, k: int|
                0 <= j < xs.len() && 0 <= k < out.len() && eligible(groups, xs[j]) && (#[trigger] out[k]).event
                    == (#[trigger] xs[j]).event ==> !outranks(xs[j], out[k])
            &&& forall|a: int, b: int| 0 <= a < out.len() && 0 <= b < out.len() && a != b ==> (#[trigger] out[a]).event
                != (#[trigger] out[b]).event
        }),
{
    broadcast use vstd::multiset::group_multiset_axioms;
    let groups = reach_of(v, person, at);
    let xs = v.expects.filter(crate::agreement::applicable(v, person, at));
    let n = xs.len() as int;
    lemma_winners(xs, groups, n);
    let w = winners_upto(xs, groups, n);
    let tf = |x: Expects| to_derived(person, x);
    let t = w.map_values(tf);
    let out = stable_sort_by(t, |d: DerivedAttends| event_key(d));
    crate::order::lemma_stable_sort(t, |d: DerivedAttends| event_key(d));
    assert(expand_spec(v, person, at) == out);
    // Each edge of `out` is one of `t`, and each of `t` is in `out`.
    assert forall|k: int| 0 <= k < out.len() implies exists|i: int| 0 <= i < t.len() && t[i] == #[trigger] out[k] by {
        vstd::seq_lib::to_multiset_contains(out, out[k]);
        assert(out.contains(out[k]));
        assert(t.to_multiset().count(out[k]) > 0);
        vstd::seq_lib::to_multiset_contains(t, out[k]);
    }
    assert forall|k: int| 0 <= k < out.len() implies derived_from(xs, groups, person, #[trigger] out[k]) by {
        let i = choose|i: int| 0 <= i < t.len() && t[i] == out[k];
        assert(won_from(xs, groups, n, w[i]));
        let j = choose|j: int| 0 <= j < n && eligible(groups, xs[j]) && #[trigger] xs[j] == w[i];
        assert(to_derived(person, xs[j]) == out[k]);
    }
    assert forall|j: int| 0 <= j < xs.len() && eligible(groups, #[trigger] xs[j]) implies exists|k: int|
        0 <= k < out.len() && (#[trigger] out[k]).event == xs[j].event by {
        assert(covers_event(w, xs[j].event));
        let i = choose|i: int| 0 <= i < w.len() && (#[trigger] w[i]).event == xs[j].event;
        vstd::seq_lib::to_multiset_contains(t, t[i]);
        assert(t.contains(t[i]));
        assert(out.to_multiset().count(t[i]) > 0);
        vstd::seq_lib::to_multiset_contains(out, t[i]);
        let k = choose|k: int| 0 <= k < out.len() && out[k] == t[i];
        assert(out[k].event == xs[j].event);
    }
    assert forall|j: int, k: int|
        0 <= j < xs.len() && 0 <= k < out.len() && eligible(groups, xs[j]) && (#[trigger] out[k]).event == (#[trigger] xs[j]).event
            implies !outranks(xs[j], out[k]) by {
        let i = choose|i: int| 0 <= i < t.len() && t[i] == out[k];
        assert(w[i].event == xs[j].event);
        assert(!beats(xs[j], w[i]));
    }
    assert(t.no_duplicates()) by {
        assert forall|a: int, b: int| 0 <= a < t.len() && 0 <= b < t.len() && a != b implies t[a] != t[b] by {
            assert(w[a].event != w[b].event);
        }
    }
    t.lemma_multiset_has_no_duplicates();
    out.lemma_multiset_has_no_duplicates_conv();
    assert forall|a: int, b: int| 0 <= a < out.len() && 0 <= b < out.len() && a != b implies (#[trigger] out[a]).event
        != (#[trigger] out[b]).event by {
        let ia = choose|i: int| 0 <= i < t.len() && t[i] == out[a];
        let ib = choose|i: int| 0 <= i < t.len() && t[i] == out[b];
        assert(out[a] != out[b]);
        assert(ia != ib);
        assert(w[ia].event != w[ib].event);
    }
}

} // verus!
