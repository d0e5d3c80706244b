//! The derivation chain behind change notification: base facts the
//! derived chain reads (memberships, subgroup edges, expectation keys) are
//! mirrored into one [`World`]; per person, direct groups → reach →
//! derived ids → digest.
//!
//! The chain is float-free by construction: it carries id sets and
//! order-preserving priority keys, never priorities as floats.

use vstd::prelude::*;

use crate::derive::{
    cascade_only, derived_id, derived_id_spec, digest_of_ids, digest_spec, id_key, reach_contains,
    reach_ids, DerivedId,
};
use crate::interval::Timestamp;
use crate::model::{EventId, Expects, GroupId, MemberOf, PersonId, Priority, SubgroupOf};
use crate::order::{keyed_by, payloads, sort_keyed, sorted_unique, stable_sort_by, strictly_increasing};
use crate::repo::memory::{contains_group, MemoryRepo, RepoView};
use crate::repo::MAX_GROUP_DEPTH;

verus! {

/// Float-free projection of an `Expects` edge: everything the derived-id
/// chain needs.
#[derive(Clone, Copy, PartialEq, Eq, Structural, Hash, Debug)]
pub struct ExpectKey {
    pub group: GroupId,
    pub event: EventId,
    pub valid_from: Timestamp,
    pub valid_to_excl: Timestamp,
    pub cascades: bool,
    /// `default_priority` as an order-preserving bit pattern.
    pub priority_key: u32,
}

/// Order-preserving encoding of an `f32` bit pattern: positives get the
/// sign bit set, negatives have all bits flipped, and negative zero takes
/// the key of positive zero (the two zeros are equal floats).
pub open spec fn priority_key_spec(bits: u32) -> u32 {
    if bits == 0x8000_0000u32 {
        0x8000_0000u32
    } else if bits & 0x8000_0000u32 != 0 {
        !bits
    } else {
        bits | 0x8000_0000u32
    }
}

/// The ordered value a non-NaN `f32` bit pattern stands for, as a signed
/// magnitude: the float order is the order of these integers (both zeros
/// are 0; the infinities are the extremes).
pub open spec fn sign_magnitude(bits: u32) -> int {
    if bits & 0x8000_0000u32 != 0 {
        -((bits & 0x7fff_ffffu32) as int)
    } else {
        (bits & 0x7fff_ffffu32) as int
    }
}

/// Whether an `f32` bit pattern is not a NaN.
pub open spec fn not_nan(bits: u32) -> bool {
    bits & 0x7fff_ffffu32 <= 0x7f80_0000u32
}

/// Order-preserving `f32` bits → `u32` key (finite floats; priorities come
/// from validated commands): integer order of keys is float order, and
/// equal floats get equal keys.
pub fn priority_key(bits: u32) -> (r: u32)
    ensures
        r == priority_key_spec(bits),
{
    if bits == 0x8000_0000u32 {
        0x8000_0000u32
    } else if bits & 0x8000_0000u32 != 0 {
        !bits
    } else {
        bits | 0x8000_0000u32
    }
}

/// The key order is the float order: for two floats that are not NaN, one
/// is smaller exactly when its key is, and they are equal exactly when
/// their keys are.
pub proof fn lemma_priority_key_monotone(a: u32, b: u32)
    requires
        not_nan(a),
        not_nan(b),
    ensures
        sign_magnitude(a) < sign_magnitude(b) <==> priority_key_spec(a) < priority_key_spec(b),
        sign_magnitude(a) == sign_magnitude(b) <==> priority_key_spec(a) == priority_key_spec(b),
{
    let ma = a & 0x7fff_ffffu32;
    let mb = b & 0x7fff_ffffu32;
    let ka = priority_key_spec(a);
    let kb = priority_key_spec(b);
    assert(ka == (if a == 0x8000_0000u32 {
        0x8000_0000u32
    } else if a & 0x8000_0000u32 != 0 {
        !a
    } else {
        a | 0x8000_0000u32
    }));
    assert(kb == (if b == 0x8000_0000u32 {
        0x8000_0000u32
    } else if b & 0x8000_0000u32 != 0 {
        !b
    } else {
        b | 0x8000_0000u32
    }));
    // A key is 2^31 plus the signed magnitude, less one for a negative
    // non-zero float.
    assert(ka as int == 0x8000_0000int + (if a & 0x8000_0000u32 != 0 {
        if ma == 0 {
            0int
        } else {
            -(ma as int) - 1
        }
    } else {
        ma as int
    })) by (bit_vector)
        requires
            ma == a & 0x7fff_ffffu32,
            ka == (if a == 0x8000_0000u32 {
                0x8000_0000u32
            } else if a & 0x8000_0000u32 != 0 {
                !a
            } else {
                a | 0x8000_0000u32
            }),
    ;
    assert(kb as int == 0x8000_0000int + (if b & 0x8000_0000u32 != 0 {
        if mb == 0 {
            0int
        } else {
            -(mb as int) - 1
        }
    } else {
        mb as int
    })) by (bit_vector)
        requires
            mb == b & 0x7fff_ffffu32,
            kb == (if b == 0x8000_0000u32 {
                0x8000_0000u32
            } else if b & 0x8000_0000u32 != 0 {
                !b
            } else {
                b | 0x8000_0000u32
            }),
    ;
}

/// The `f32` bit pattern a key stands for: the inverse of the encoding
/// (negative zero reads back as positive zero).
pub open spec fn key_bits_spec(key: u32) -> u32 {
    if key & 0x8000_0000u32 != 0 {
        key & 0x7fff_ffffu32
    } else {
        !key
    }
}

/// Decoding a key gives back the bit pattern it was made from, but for
/// negative zero, which gives back positive zero.
pub proof fn lemma_priority_key_roundtrip(bits: u32)
    ensures
        bits != 0x8000_0000u32 ==> key_bits_spec(priority_key_spec(bits)) == bits,
        key_bits_spec(priority_key_spec(0x8000_0000u32)) == 0,
{
    assert(bits != 0x8000_0000u32 ==> key_bits_spec(priority_key_spec(bits)) == bits) by (bit_vector);
    assert(key_bits_spec(priority_key_spec(0x8000_0000u32)) == 0) by (bit_vector);
}

impl Priority {
    /// The priority an `f32` with bit pattern `bits` stands for.
    pub fn from_bits(bits: u32) -> (r: Priority)
        ensures
            r.0 == priority_key_spec(bits),
    {
        Priority(priority_key(bits))
    }

    /// The bit pattern of the `f32` this priority stands for.
    pub fn to_bits(self) -> (r: u32)
        ensures
            r == key_bits_spec(self.0),
    {
        if self.0 & 0x8000_0000u32 != 0 {
            self.0 & 0x7fff_ffffu32
        } else {
            !self.0
        }
    }
}

/// The mirrored base facts the derived chain reads.
pub struct World {
    pub memberships: Vec<MemberOf>,
    pub subgroups: Vec<SubgroupOf>,
    pub expect_keys: Vec<ExpectKey>,
}

impl World {
    pub fn new(memberships: Vec<MemberOf>, subgroups: Vec<SubgroupOf>, expect_keys: Vec<ExpectKey>) -> (r: World)
        ensures
            r.memberships@ == memberships@,
            r.subgroups@ == subgroups@,
            r.expect_keys@ == expect_keys@,
    {
        World { memberships, subgroups, expect_keys }
    }
}

/// Identifier values of a group list.
pub open spec fn group_keys(s: Seq<GroupId>) -> Seq<u128> {
    s.map_values(|g: GroupId| g.0)
}

/// Groups of `person`'s memberships valid at `at`, in membership order.
pub open spec fn direct_list(ms: Seq<MemberOf>, person: PersonId, at: int) -> Seq<GroupId> {
    ms.filter(|m: MemberOf| m.person == person && m.during.contains_spec(at)).map_values(|m: MemberOf| m.group)
}

/// Sorted, each once: the one strictly increasing list with those groups.
pub open spec fn sorted_groups(s: Seq<GroupId>) -> Seq<GroupId> {
    choose|r: Seq<GroupId>| strictly_increasing(group_keys(r)) && group_keys(r).to_set() == group_keys(s).to_set()
}

/// Direct groups of `person` valid at `at`, sorted, each once.
pub open spec fn direct_spec(ms: Seq<MemberOf>, person: PersonId, at: int) -> Seq<GroupId> {
    sorted_groups(direct_list(ms, person, at))
}

/// Group values of identifier keys.
pub open spec fn groups_of_keys(s: Seq<u128>) -> Seq<GroupId> {
    s.map_values(|x: u128| GroupId(x))
}

/// Direct groups of `person` valid at `at`, sorted and deduplicated.
pub fn direct_groups(world: &World, person: PersonId, at: i64) -> (r: Vec<GroupId>)
    ensures
        r@ == direct_spec(world.memberships@, person, at as int),
        strictly_increasing(group_keys(r@)),
        group_keys(r@).to_set() == group_keys(direct_list(world.memberships@, person, at as int)).to_set(),
{
    let ghost ms = world.memberships@;
    let ghost pred = |m: MemberOf| m.person == person && m.during.contains_spec(at as int);
    let t = Timestamp(at);
    let mut raw: Vec<u128> = Vec::new();
    let mut i: usize = 0;
    while i < world.memberships.len()
        invariant
            i <= ms.len(),
            ms == world.memberships@,
            t.0 == at,
            pred == (|m: MemberOf| m.person == person && m.during.contains_spec(at as int)),
            raw@ == group_keys(ms.take(i as int).filter(pred).map_values(|m: MemberOf| m.group)),
        decreases ms.len() - i,
    {
        let m = world.memberships[i];
        proof {
            assert(ms.take(i + 1) =~= ms.take(i as int).push(m));
            ms.take(i as int).lemma_filter_push(m, pred);
        }
        if m.person == person && m.during.contains_point(t) {
            raw.push(m.group.0);
        }
        assert(raw@ =~= group_keys(ms.take(i + 1).filter(pred).map_values(|m: MemberOf| m.group)));
        i += 1;
    }
    assert(ms.take(ms.len() as int) =~= ms);
    assert(raw@ == group_keys(direct_list(ms, person, at as int)));
    let sorted = sorted_unique(&raw);
    let mut out: Vec<GroupId> = Vec::new();
    let mut j: usize = 0;
    while j < sorted.len()
        invariant
            j <= sorted@.len(),
            out@ == groups_of_keys(sorted@.take(j as int)),
        decreases sorted@.len() - j,
    {
        out.push(GroupId(sorted[j]));
        assert(out@ =~= groups_of_keys(sorted@.take(j + 1)));
        j += 1;
    }
    assert(sorted@.take(sorted@.len() as int) =~= sorted@);
    assert(group_keys(out@) =~= sorted@);
    proof {
        let d = direct_list(ms, person, at as int);
        let c = sorted_groups(d);
        assert(strictly_increasing(group_keys(out@)) && group_keys(out@).to_set() == group_keys(d).to_set());
        assert(strictly_increasing(group_keys(c)) && group_keys(c).to_set() == group_keys(d).to_set());
        crate::order::lemma_strictly_increasing_unique(group_keys(out@), group_keys(c));
        assert(out@ =~= c) by {
            assert forall|k: int| 0 <= k < out@.len() implies out@[k] == c[k] by {
                assert(group_keys(out@)[k] == group_keys(c)[k]);
            }
        }
    }
    out
}

/// One level of the reach walk: scan the subgroup edges in order; each
/// edge valid at `at` whose child is in `frontier` contributes its parent
/// once, flagged cascade-only unless it is a direct group.
pub open spec fn reach_level(edges: Seq<SubgroupOf>, direct: Seq<GroupId>, at: int, frontier: Seq<GroupId>, out: Seq<(GroupId, bool)>, next: Seq<GroupId>, k: int) -> (Seq<(GroupId, bool)>, Seq<GroupId>)
    decreases k,
{
    if k <= 0 {
        (out, next)
    } else {
        let (o, n) = reach_level(edges, direct, at, frontier, out, next, k - 1);
        let e = edges[k - 1];
        if frontier.contains(e.child) && e.during.contains_spec(at) && !reach_ids(o).contains(e.parent) {
            (o.push((e.parent, !direct.contains(e.parent))), n.push(e.parent))
        } else {
            (o, n)
        }
    }
}

/// The walk from `frontier` for at most `depth` more levels.
pub open spec fn reach_walk(edges: Seq<SubgroupOf>, direct: Seq<GroupId>, at: int, frontier: Seq<GroupId>, out: Seq<(GroupId, bool)>, depth: nat) -> Seq<(GroupId, bool)>
    decreases depth,
{
    if depth == 0 {
        out
    } else {
        let (o, n) = reach_level(edges, direct, at, frontier, out, seq![], edges.len() as int);
        if n.len() == 0 {
            o
        } else {
            reach_walk(edges, direct, at, n, o, (depth - 1) as nat)
        }
    }
}

/// Sort key of a reach entry: its group.
pub open spec fn reach_key(p: (GroupId, bool)) -> Seq<u128> {
    seq![p.0.0]
}

/// Reachable groups of `person` at `at` with cascade-only marking, sorted
/// by group: the direct groups, then up to `MAX_GROUP_DEPTH` levels of
/// parents through subgroup edges each valid at `at`.
pub open spec fn reach_spec(ms: Seq<MemberOf>, edges: Seq<SubgroupOf>, person: PersonId, at: int) -> Seq<(GroupId, bool)> {
    let direct = direct_spec(ms, person, at);
    stable_sort_by(
        reach_walk(edges, direct, at, direct, direct.map_values(|g: GroupId| (g, false)), MAX_GROUP_DEPTH as nat),
        |p: (GroupId, bool)| reach_key(p),
    )
}

/// Reachable groups with cascade-only marking, sorted.
pub fn reach(world: &World, person: PersonId, at: i64) -> (r: Vec<(GroupId, bool)>)
    ensures
        r@ == reach_spec(world.memberships@, world.subgroups@, person, at as int),
{
    let direct = direct_groups(world, person, at);
    let ghost edges = world.subgroups@;
    let t = Timestamp(at);
    let mut out: Vec<(GroupId, bool)> = Vec::new();
    let mut d: usize = 0;
    while d < direct.len()
        invariant
            d <= direct@.len(),
            out@ == direct@.take(d as int).map_values(|g: GroupId| (g, false)),
        decreases direct@.len() - d,
    {
        out.push((direct[d], false));
        assert(out@ =~= direct@.take(d + 1).map_values(|g: GroupId| (g, false)));
        d += 1;
    }
    assert(direct@.take(direct@.len() as int) =~= direct@);
    let ghost full = reach_walk(edges, direct@, at as int, direct@, direct@.map_values(|g: GroupId| (g, false)), MAX_GROUP_DEPTH as nat);
    let mut frontier: Vec<GroupId> = direct.clone();
    let mut depth: usize = 0;
    let mut done = false;
    while depth < MAX_GROUP_DEPTH && !done
        invariant
            depth <= MAX_GROUP_DEPTH,
            edges == world.subgroups@,
            t.0 == at,
            full == reach_walk(edges, direct@, at as int, direct@, direct@.map_values(|g: GroupId| (g, false)), MAX_GROUP_DEPTH as nat),
            done ==> out@ == full,
            !done ==> reach_walk(edges, direct@, at as int, frontier@, out@, (MAX_GROUP_DEPTH - depth) as nat) == full,
        decreases MAX_GROUP_DEPTH - depth, if done { 0int } else { 1int },
    {
        let mut next: Vec<GroupId> = Vec::new();
        let ghost out0 = out@;
        let mut k: usize = 0;
        assert(next@ =~= Seq::<GroupId>::empty());
        while k < world.subgroups.len()
            invariant
                k <= edges.len(),
                edges == world.subgroups@,
                t.0 == at,
                (out@, next@) == reach_level(edges, direct@, at as int, frontier@, out0, seq![], k as int),
            decreases edges.len() - k,
        {
            let e = world.subgroups[k];
            if contains_group(frontier.as_slice(), e.child) && e.during.contains_point(t) {
                if reach_contains(&out, e.parent).is_none() {
                    out.push((e.parent, !contains_group(direct.as_slice(), e.parent)));
                    next.push(e.parent);
                }
            }
            k += 1;
        }
        if next.len() == 0 {
            done = true;
        } else {
            frontier = next;
            depth += 1;
        }
    }
    assert(out@ == full);
    let ghost key = |p: (GroupId, bool)| reach_key(p);
    let mut keyed: Vec<(Vec<u128>, (GroupId, bool))> = Vec::new();
    let mut m: usize = 0;
    while m < out.len()
        invariant
            m <= out@.len(),
            key == (|p: (GroupId, bool)| reach_key(p)),
            keyed_by(keyed@, key),
            payloads(keyed@) == out@.take(m as int),
        decreases out@.len() - m,
    {
        let p = out[m];
        let mut kv: Vec<u128> = Vec::new();
        kv.push(p.0.0);
        assert(kv@ =~= reach_key(p));
        let ghost before = keyed@;
        keyed.push((kv, p));
        assert(payloads(keyed@) =~= payloads(before).push(p));
        assert(out@.take(m + 1) =~= out@.take(m as int).push(p));
        m += 1;
    }
    assert(out@.take(out@.len() as int) =~= out@);
    let sorted = sort_keyed(keyed, Ghost(key));
    let mut r: Vec<(GroupId, bool)> = Vec::new();
    let mut j: usize = 0;
    while j < sorted.len()
        invariant
            j <= sorted@.len(),
            r@ == payloads(sorted@).take(j as int),
        decreases sorted@.len() - j,
    {
        r.push(sorted[j].1);
        assert(r@ =~= payloads(sorted@).take(j + 1));
        j += 1;
    }
    assert(payloads(sorted@).take(sorted@.len() as int) =~= payloads(sorted@));
    r
}

/// Whether an expectation key is live at `at`: on a reached group, valid
/// at `at`, and (when reached only by cascade) cascading.
pub open spec fn key_applies(groups: Seq<(GroupId, bool)>, x: ExpectKey, at: int) -> bool {
    &&& reach_ids(groups).contains(x.group)
    &&& !(cascade_only(groups, x.group) && !x.cascades)
    &&& x.valid_from.0 <= at < x.valid_to_excl.0
}

/// `c` beats `e` for the same event: a higher priority key, ties to the
/// smaller group identifier.
pub open spec fn key_beats(c: ExpectKey, e: ExpectKey) -> bool {
    c.priority_key > e.priority_key || (c.priority_key == e.priority_key && c.group.0 < e.group.0)
}

/// Fold one key into the per-event winners.
pub open spec fn pick_key(out: Seq<ExpectKey>, x: ExpectKey) -> Seq<ExpectKey> {
    let i = crate::repo::first_where(out, |e: ExpectKey| e.event == x.event);
    if i >= out.len() {
        out.push(x)
    } else if key_beats(x, out[i]) {
        out.update(i, x)
    } else {
        out
    }
}

/// Winners over the first `n` keys.
pub open spec fn key_winners(keys: Seq<ExpectKey>, groups: Seq<(GroupId, bool)>, at: int, n: int) -> Seq<ExpectKey>
    decreases n,
{
    if n <= 0 {
        seq![]
    } else {
        let w = key_winners(keys, groups, at, n - 1);
        if key_applies(groups, keys[n - 1], at) {
            pick_key(w, keys[n - 1])
        } else {
            w
        }
    }
}

/// The identity a winning key gives `person`.
pub open spec fn key_id(person: PersonId, x: ExpectKey) -> DerivedId {
    derived_id_spec(person, x.event, x.group, x.valid_from)
}

/// The person's derived-edge identity set at `at`, in ascending byte
/// order: one identity per event, from the winning expectation.
pub open spec fn derived_ids_spec(w: (Seq<MemberOf>, Seq<SubgroupOf>, Seq<ExpectKey>), person: PersonId, at: int) -> Seq<DerivedId> {
    let groups = reach_spec(w.0, w.1, person, at);
    let winners = key_winners(w.2, groups, at, w.2.len() as int);
    stable_sort_by(winners.map_values(|x: ExpectKey| key_id(person, x)), |d: DerivedId| id_key(d))
}

/// The contents of a world.
pub open spec fn world_view(world: &World) -> (Seq<MemberOf>, Seq<SubgroupOf>, Seq<ExpectKey>) {
    (world.memberships@, world.subgroups@, world.expect_keys@)
}

/// The person's derived-edge identity set at `at`, sorted.
pub fn derived_ids(world: &World, person: PersonId, at: i64) -> (r: Vec<DerivedId>)
    ensures
        r@ == derived_ids_spec(world_view(world), person, at as int),
{
    let groups = reach(world, person, at);
    let ghost keys = world.expect_keys@;
    let mut best: Vec<ExpectKey> = Vec::new();
    let mut n: usize = 0;
    while n < world.expect_keys.len()
        invariant
            n <= keys.len(),
            keys == world.expect_keys@,
            groups@ == reach_spec(world.memberships@, world.subgroups@, person, at as int),
            best@ == key_winners(keys, groups@, at as int, n as int),
        decreases keys.len() - n,
    {
        let x = world.expect_keys[n];
        let ghost w0 = best@;
        let live = match reach_contains(&groups, x.group) {
            Some(c) => !(c && !x.cascades) && x.valid_from.0 <= at && at < x.valid_to_excl.0,
            None => false,
        };
        assert(live == key_applies(groups@, x, at as int));
        if live {
            let mut w: usize = 0;
            let ghost pred = |e: ExpectKey| e.event == x.event;
            while w < best.len() && best[w].event != x.event
                invariant
                    w <= best@.len(),
                    pred == (|e: ExpectKey| e.event == x.event),
                    forall|j: int| 0 <= j < w ==> !pred(#[trigger] best@[j]),
                decreases best@.len() - w,
            {
                w += 1;
            }
            proof {
                crate::repo::lemma_first_where_is(best@, pred, w as int);
            }
            if w >= best.len() {
                best.push(x);
            } else {
                let e = best[w];
                if x.priority_key > e.priority_key || (x.priority_key == e.priority_key && x.group.0 < e.group.0) {
                    best.set(w, x);
                }
            }
            assert(best@ == pick_key(w0, x));
        }
        n += 1;
    }
    let ghost key = |d: DerivedId| id_key(d);
    let ghost f = |x: ExpectKey| key_id(person, x);
    let mut keyed: Vec<(Vec<u128>, DerivedId)> = Vec::new();
    let mut m: usize = 0;
    while m < best.len()
        invariant
            m <= best@.len(),
            key == (|d: DerivedId| id_key(d)),
            f == (|x: ExpectKey| key_id(person, x)),
            keyed_by(keyed@, key),
            payloads(keyed@) == best@.take(m as int).map_values(f),
        decreases best@.len() - m,
    {
        let x = best[m];
        let id = derived_id(person, x.event, x.group, x.valid_from);
        let kv = crate::derive::id_key_vec(&id);
        let ghost before = keyed@;
        keyed.push((kv, id));
        assert(payloads(keyed@) =~= payloads(before).push(id));
        assert(best@.take(m + 1).map_values(f) =~= best@.take(m as int).map_values(f).push(f(x)));
        m += 1;
    }
    assert(best@.take(best@.len() as int) =~= best@);
    let sorted = sort_keyed(keyed, Ghost(key));
    let mut out: Vec<DerivedId> = Vec::new();
    let mut j: usize = 0;
    while j < sorted.len()
        invariant
            j <= sorted@.len(),
            out@ == payloads(sorted@).take(j as int),
        decreases sorted@.len() - j,
    {
        out.push(sorted[j].1);
        assert(out@ =~= payloads(sorted@).take(j + 1));
        j += 1;
    }
    assert(payloads(sorted@).take(sorted@.len() as int) =~= payloads(sorted@));
    out
}

/// Digest of the person's derived-edge identity set.
pub fn digest(world: &World, person: PersonId, at: i64) -> (r: [u8; 32])
    ensures
        r@ == digest_spec(derived_ids_spec(world_view(world), person, at as int)),
{
    let ids = derived_ids(world, person, at);
    digest_of_ids(ids.as_slice())
}

/// The key an expectation is mirrored as.
pub open spec fn expect_key_of(x: Expects) -> ExpectKey {
    ExpectKey {
        group: x.group,
        event: x.event,
        valid_from: Timestamp(x.during.lo() as i64),
        valid_to_excl: Timestamp(x.during.hi() as i64),
        cascades: x.cascades,
        priority_key: x.default_priority.0,
    }
}

/// The world a repository state mirrors.
pub open spec fn mirror_spec(v: RepoView) -> (Seq<MemberOf>, Seq<SubgroupOf>, Seq<ExpectKey>) {
    (v.member_of, v.subgroup_of, v.expects.map_values(|x: Expects| expect_key_of(x)))
}

/// The key of one expectation.
pub fn expect_key(x: &Expects) -> (r: ExpectKey)
    ensures
        r == expect_key_of(*x),
{
    ExpectKey {
        group: x.group,
        event: x.event,
        valid_from: x.during.start(),
        valid_to_excl: x.during.end(),
        cascades: x.cascades,
        priority_key: x.default_priority.0,
    }
}

/// The mirrored expectation keys of a repository.
fn mirror_keys(repo: &MemoryRepo) -> (r: Vec<ExpectKey>)
    ensures
        r@ == mirror_spec(repo@).2,
{
    let xs = repo.expectations_all();
    let mut out: Vec<ExpectKey> = Vec::new();
    let mut i: usize = 0;
    while i < xs.len()
        invariant
            i <= xs@.len(),
            xs@ == repo@.expects,
            out@ == xs@.take(i as int).map_values(|x: Expects| expect_key_of(x)),
        decreases xs@.len() - i,
    {
        out.push(expect_key(&xs[i]));
        assert(out@ =~= xs@.take(i + 1).map_values(|x: Expects| expect_key_of(x)));
        i += 1;
    }
    assert(xs@.take(xs@.len() as int) =~= xs@);
    out
}

/// Build the three mirrored fact vectors from a repository snapshot.
pub fn mirror_from(repo: &MemoryRepo) -> (r: (Vec<MemberOf>, Vec<SubgroupOf>, Vec<ExpectKey>))
    ensures
        (r.0@, r.1@, r.2@) == mirror_spec(repo@),
{
    (repo.memberships_all(), repo.subgroups_all(), mirror_keys(repo))
}

/// String equality by content.
pub fn same_str(a: &str, b: &str) -> (r: bool)
    ensures
        r == (a@ == b@),
{
    let x = a.as_bytes();
    let y = b.as_bytes();
    if x.len() != y.len() {
        return false;
    }
    let mut i: usize = 0;
    while i < x.len()
        invariant
            i <= x@.len(),
            x@.len() == y@.len(),
            forall|k: int| 0 <= k < i ==> x@[k] == y@[k],
            x@ == vstd::utf8::encode_utf8(a@),
            y@ == vstd::utf8::encode_utf8(b@),
        decreases x@.len() - i,
    {
        if x[i] != y[i] {
            proof {
                if a@ == b@ {
                    assert(x@ == y@);
                }
            }
            return false;
        }
        i += 1;
    }
    proof {
        assert(x@ =~= y@);
        vstd::utf8::encode_utf8_decode_utf8(a@);
        vstd::utf8::encode_utf8_decode_utf8(b@);
    }
    true
}

/// Refresh the mirrored field a command class touches: only the three
/// fact classes the derived chain reads change the world.
pub fn refresh_after(world: &mut World, repo: &MemoryRepo, command_kind: &str)
    ensures
        final(world).memberships@ == (if command_kind@ == "add_membership"@ {
            repo@.member_of
        } else {
            old(world).memberships@
        }),
        final(world).subgroups@ == (if command_kind@ == "add_subgroup"@ {
            repo@.subgroup_of
        } else {
            old(world).subgroups@
        }),
        final(world).expect_keys@ == (if command_kind@ == "add_expectation"@ {
            mirror_spec(repo@).2
        } else {
            old(world).expect_keys@
        }),
{
    if same_str(command_kind, "add_membership") {
        world.memberships = repo.memberships_all();
    }
    if same_str(command_kind, "add_subgroup") {
        world.subgroups = repo.subgroups_all();
    }
    if same_str(command_kind, "add_expectation") {
        world.expect_keys = mirror_keys(repo);
    }
}

} // verus!
