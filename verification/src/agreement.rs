//! The incremental digest agrees with a cold recomputation: the derived
//! identities the mirrored world yields are the identities `expand`
//! yields from the repository, so their digests are equal.
//!
//! Both paths walk subgroup edges upward a bounded number of levels; one
//! walks from all direct groups at once, the other from each direct group
//! in turn. Both reach exactly the groups within `MAX_GROUP_DEPTH` valid
//! hops of a direct group.

use vstd::prelude::*;

use crate::derive::{
    add_ancestors, beats, cascade_only, digest_spec, direct_of, event_key, expand_spec, id_key, pick, reach_ids, reach_of,
    reach_upto, to_derived, winners_upto, DerivedAttends, DerivedId,
};
use crate::incremental::{
    derived_ids_spec, direct_list, direct_spec, expect_key_of, group_keys, key_applies, key_beats, key_id, key_winners,
    mirror_spec, pick_key, reach_key, reach_level, reach_spec, reach_walk, ExpectKey,
};
use crate::order::{
    lemma_sort_image_multiset, lemma_sorted_perm_unique, lemma_stable_sort, lemma_strictly_increasing_exists, stable_sort_by,
    strictly_increasing,
};
use crate::repo::first_where;
use crate::model::Expects;
use crate::repo::memory::RepoView;
use crate::model::{MemberOf, PersonId};
use crate::interval::Timestamp;
use crate::model::{GroupId, SubgroupOf};
use crate::repo::memory::{ancestor_step, ancestor_walk, ancestors_spec};
use crate::repo::MAX_GROUP_DEPTH;

verus! {

/// `g` is reachable from `starts` within `d` hops up subgroup edges valid
/// at `at`.
pub open spec fn reachable(edges: Seq<SubgroupOf>, at: int, starts: Seq<GroupId>, g: GroupId, d: int) -> bool
    decreases d,
{
    if d < 0 {
        false
    } else if d == 0 {
        starts.contains(g)
    } else {
        reachable(edges, at, starts, g, d - 1) || exists|j: int|
            0 <= j < edges.len() && (#[trigger] edges[j]).parent == g && edges[j].during.contains_spec(at)
                && reachable(edges, at, starts, edges[j].child, d - 1)
    }
}

/// Reachability grows with the hop budget.
proof fn lemma_reachable_monotone(edges: Seq<SubgroupOf>, at: int, starts: Seq<GroupId>, g: GroupId, d: int, e: int)
    requires
        d <= e,
        reachable(edges, at, starts, g, d),
    ensures
        reachable(edges, at, starts, g, e),
    decreases e - d,
{
    if d < e {
        lemma_reachable_monotone(edges, at, starts, g, d, e - 1);
    }
}

/// When one more hop reaches nothing new, no budget reaches more.
proof fn lemma_reachable_saturated(edges: Seq<SubgroupOf>, at: int, starts: Seq<GroupId>, l: int, m: int)
    requires
        0 <= l,
        0 <= m,
        forall|g: GroupId| #[trigger] reachable(edges, at, starts, g, l + 1) ==> reachable(edges, at, starts, g, l),
    ensures
        forall|g: GroupId| #[trigger] reachable(edges, at, starts, g, l + m) ==> reachable(edges, at, starts, g, l),
    decreases m,
{
    if m > 0 {
        lemma_reachable_saturated(edges, at, starts, l, m - 1);
        let p = l + (m - 1);
        assert forall|g: GroupId| #[trigger] reachable(edges, at, starts, g, l + m) implies reachable(edges, at, starts, g, l) by {
            assert(l + m - 1 == p);
            if !reachable(edges, at, starts, g, p) {
                let j = choose|j: int|
                    0 <= j < edges.len() && (#[trigger] edges[j]).parent == g && edges[j].during.contains_spec(at)
                        && reachable(edges, at, starts, edges[j].child, p);
                assert(reachable(edges, at, starts, edges[j].child, l));
                assert(reachable(edges, at, starts, g, l + 1));
            }
        }
    }
}

/// The frontier of level `l`: reachable in exactly `l` hops.
pub open spec fn at_level(edges: Seq<SubgroupOf>, at: int, starts: Seq<GroupId>, g: GroupId, l: int) -> bool {
    reachable(edges, at, starts, g, l) && !reachable(edges, at, starts, g, l - 1)
}

/// Some edge among the first `k` is valid at `at` and leads from the
/// frontier up to `g`.
pub open spec fn found(edges: Seq<SubgroupOf>, at: int, frontier: Seq<GroupId>, g: GroupId, k: int) -> bool {
    exists|j: int|
        0 <= j < k && (#[trigger] edges[j]).parent == g && edges[j].during.contains_spec(at) && frontier.contains(edges[j].child)
}

proof fn lemma_found_step(edges: Seq<SubgroupOf>, at: int, frontier: Seq<GroupId>, g: GroupId, k: int)
    requires
        0 < k <= edges.len(),
    ensures
        found(edges, at, frontier, g, k) <==> (found(edges, at, frontier, g, k - 1) || (edges[k - 1].parent == g
            && edges[k - 1].during.contains_spec(at) && frontier.contains(edges[k - 1].child))),
{
    if found(edges, at, frontier, g, k) {
        let j = choose|j: int|
            0 <= j < k && (#[trigger] edges[j]).parent == g && edges[j].during.contains_spec(at) && frontier.contains(edges[j].child);
        if j < k - 1 {
            assert(found(edges, at, frontier, g, k - 1));
        }
    }
    if found(edges, at, frontier, g, k - 1) {
        let j = choose|j: int|
            0 <= j < k - 1 && (#[trigger] edges[j]).parent == g && edges[j].during.contains_spec(at) && frontier.contains(edges[j].child);
        assert(found(edges, at, frontier, g, k));
    }
    if edges[k - 1].parent == g && edges[k - 1].during.contains_spec(at) && frontier.contains(edges[k - 1].child) {
        assert(found(edges, at, frontier, g, k));
    }
}

/// One level of the walk, edge by edge: what has been reached, and the
/// new frontier.
proof fn lemma_level_scan(
    edges: Seq<SubgroupOf>,
    direct: Seq<GroupId>,
    at: int,
    starts: Seq<GroupId>,
    frontier: Seq<GroupId>,
    out: Seq<(GroupId, bool)>,
    l: int,
    k: int,
)
    requires
        0 <= k <= edges.len(),
        forall|g: GroupId| #[trigger] reach_ids(out).contains(g) <==> reachable(edges, at, starts, g, l),
    ensures
        forall|g: GroupId| #[trigger] reach_ids(reach_level(edges, direct, at, frontier, out, seq![], k).0).contains(g) <==> (
        reachable(edges, at, starts, g, l) || found(edges, at, frontier, g, k)),
        forall|g: GroupId| #[trigger] reach_level(edges, direct, at, frontier, out, seq![], k).1.contains(g) <==> (!reachable(
            edges,
            at,
            starts,
            g,
            l,
        ) && found(edges, at, frontier, g, k)),
    decreases k,
{
    broadcast use vstd::seq_lib::group_seq_properties;

    if k > 0 {
        lemma_level_scan(edges, direct, at, starts, frontier, out, l, k - 1);
        let (o, n) = reach_level(edges, direct, at, frontier, out, seq![], k - 1);
        let e = edges[k - 1];
        let (o2, n2) = reach_level(edges, direct, at, frontier, out, seq![], k);
        if frontier.contains(e.child) && e.during.contains_spec(at) && !reach_ids(o).contains(e.parent) {
            assert(o2 == o.push((e.parent, !direct.contains(e.parent))));
            assert(n2 == n.push(e.parent));
            assert(reach_ids(o2) =~= reach_ids(o).push(e.parent));
        } else {
            assert(o2 == o && n2 == n);
        }
        assert forall|g: GroupId| #[trigger] reach_ids(o2).contains(g) <==> (reachable(edges, at, starts, g, l) || found(
            edges,
            at,
            frontier,
            g,
            k,
        )) by {
            lemma_found_step(edges, at, frontier, g, k);
        }
        assert forall|g: GroupId| #[trigger] n2.contains(g) <==> (!reachable(edges, at, starts, g, l) && found(edges, at, frontier, g, k)) by {
            lemma_found_step(edges, at, frontier, g, k);
        }
    }
}

/// One level of the walk reaches exactly one more hop, and its new
/// frontier is the next level.
proof fn lemma_level(
    edges: Seq<SubgroupOf>,
    direct: Seq<GroupId>,
    at: int,
    starts: Seq<GroupId>,
    frontier: Seq<GroupId>,
    out: Seq<(GroupId, bool)>,
    l: int,
)
    requires
        0 <= l,
        forall|g: GroupId| #[trigger] reach_ids(out).contains(g) <==> reachable(edges, at, starts, g, l),
        forall|g: GroupId| #[trigger] frontier.contains(g) <==> at_level(edges, at, starts, g, l),
    ensures
        forall|g: GroupId| #[trigger] reach_ids(reach_level(edges, direct, at, frontier, out, seq![], edges.len() as int).0).contains(g)
            <==> reachable(edges, at, starts, g, l + 1),
        forall|g: GroupId| #[trigger] reach_level(edges, direct, at, frontier, out, seq![], edges.len() as int).1.contains(g)
            <==> at_level(edges, at, starts, g, l + 1),
{
    let k = edges.len() as int;
    lemma_level_scan(edges, direct, at, starts, frontier, out, l, k);
    assert forall|g: GroupId| (reachable(edges, at, starts, g, l) || found(edges, at, frontier, g, k)) <==> #[trigger] reachable(
        edges,
        at,
        starts,
        g,
        l + 1,
    ) by {
        if found(edges, at, frontier, g, k) {
            let j = choose|j: int|
                0 <= j < k && (#[trigger] edges[j]).parent == g && edges[j].during.contains_spec(at) && frontier.contains(edges[j].child);
            assert(reachable(edges, at, starts, edges[j].child, l));
        }
        if reachable(edges, at, starts, g, l + 1) && !reachable(edges, at, starts, g, l) {
            let j = choose|j: int|
                0 <= j < edges.len() && (#[trigger] edges[j]).parent == g && edges[j].during.contains_spec(at)
                    && reachable(edges, at, starts, edges[j].child, l);
            if !frontier.contains(edges[j].child) {
                assert(reachable(edges, at, starts, edges[j].child, l - 1));
                assert(reachable(edges, at, starts, g, l));
            }
            assert(found(edges, at, frontier, g, k));
        }
    }
}

/// The walk from level `l` with `depth` levels to go reaches exactly what
/// is reachable within `l + depth` hops.
proof fn lemma_walk(
    edges: Seq<SubgroupOf>,
    direct: Seq<GroupId>,
    at: int,
    starts: Seq<GroupId>,
    frontier: Seq<GroupId>,
    out: Seq<(GroupId, bool)>,
    l: int,
    depth: nat,
)
    requires
        0 <= l,
        forall|g: GroupId| #[trigger] reach_ids(out).contains(g) <==> reachable(edges, at, starts, g, l),
        forall|g: GroupId| #[trigger] frontier.contains(g) <==> at_level(edges, at, starts, g, l),
    ensures
        forall|g: GroupId| #[trigger] reach_ids(reach_walk(edges, direct, at, frontier, out, depth)).contains(g) <==> reachable(
            edges,
            at,
            starts,
            g,
            l + depth,
        ),
    decreases depth,
{
    if depth > 0 {
        lemma_level(edges, direct, at, starts, frontier, out, l);
        let (o, n) = reach_level(edges, direct, at, frontier, out, seq![], edges.len() as int);
        if n.len() == 0 {
            assert forall|g: GroupId| #[trigger] reachable(edges, at, starts, g, l + 1) implies reachable(edges, at, starts, g, l) by {
                assert(!n.contains(g));
            }
            lemma_reachable_saturated(edges, at, starts, l, depth as int);
            assert(reach_walk(edges, direct, at, frontier, out, depth) == o);
            assert forall|g: GroupId| #[trigger] reach_ids(o).contains(g) <==> reachable(edges, at, starts, g, l + depth) by {
                if reachable(edges, at, starts, g, l + 1) {
                    lemma_reachable_monotone(edges, at, starts, g, l + 1, l + depth);
                }
                if reachable(edges, at, starts, g, l + depth) {
                    assert(reachable(edges, at, starts, g, l));
                    lemma_reachable_monotone(edges, at, starts, g, l, l + 1);
                }
            }
        } else {
            let d1 = (depth - 1) as nat;
            lemma_walk(edges, direct, at, starts, n, o, l + 1, d1);
            assert(l + 1 + d1 == l + depth);
            assert(reach_walk(edges, direct, at, frontier, out, depth) == reach_walk(edges, direct, at, n, o, d1));
        }
    } else {
        assert(l + depth == l);
    }
}

/// A single-source walk's state as a reach list: the origin first, not by
/// cascade, then the groups seen, each by cascade.
pub open spec fn tagged(origin: GroupId, seen: Seq<GroupId>) -> Seq<(GroupId, bool)> {
    seq![(origin, false)] + seen.map_values(|g: GroupId| (g, true))
}

proof fn lemma_tagged_ids(origin: GroupId, seen: Seq<GroupId>, g: GroupId)
    ensures
        reach_ids(tagged(origin, seen)).contains(g) <==> (g == origin || seen.contains(g)),
{
    let t = reach_ids(tagged(origin, seen));
    assert(t =~= seq![origin] + seen);
    if seen.contains(g) {
        let i = choose|i: int| 0 <= i < seen.len() && seen[i] == g;
        assert(t[i + 1] == g);
    }
    if t.contains(g) {
        let i = choose|i: int| 0 <= i < t.len() && t[i] == g;
        if i > 0 {
            assert(seen[i - 1] == g);
        }
    }
    assert(t[0] == origin);
}

/// One level of the single-source walk is one level of the reach walk
/// from that source.
proof fn lemma_step_is_level(
    edges: Seq<SubgroupOf>,
    origin: GroupId,
    at: Timestamp,
    frontier: Seq<GroupId>,
    seen: Seq<GroupId>,
    next: Seq<GroupId>,
    k: int,
)
    requires
        0 <= k <= edges.len(),
    ensures
        ({
            let (s2, n2) = ancestor_step(edges, origin, at, frontier, seen, next, k);
            reach_level(edges, seq![origin], at.0 as int, frontier, tagged(origin, seen), next, k) == (tagged(origin, s2), n2)
        }),
    decreases k,
{
    if k > 0 {
        lemma_step_is_level(edges, origin, at, frontier, seen, next, k - 1);
        let (s, n) = ancestor_step(edges, origin, at, frontier, seen, next, k - 1);
        let e = edges[k - 1];
        lemma_tagged_ids(origin, s, e.parent);
        if frontier.contains(e.child) && e.during.contains_spec(at.0 as int) && e.parent != origin && !s.contains(e.parent) {
            assert(!seq![origin].contains(e.parent)) by {
                if seq![origin].contains(e.parent) {
                    assert(seq![origin][0] == origin);
                }
            }
            assert(tagged(origin, s).push((e.parent, !seq![origin].contains(e.parent))) =~= tagged(origin, s.push(e.parent)));
        }
    }
}

/// The single-source walk is the reach walk from that source.
proof fn lemma_ancestor_walk_is_reach_walk(
    edges: Seq<SubgroupOf>,
    origin: GroupId,
    at: Timestamp,
    frontier: Seq<GroupId>,
    seen: Seq<GroupId>,
    depth: nat,
)
    ensures
        reach_walk(edges, seq![origin], at.0 as int, frontier, tagged(origin, seen), depth) == tagged(
            origin,
            ancestor_walk(edges, origin, at, frontier, seen, depth),
        ),
    decreases depth,
{
    if depth > 0 {
        lemma_step_is_level(edges, origin, at, frontier, seen, seq![], edges.len() as int);
        let (s, n) = ancestor_step(edges, origin, at, frontier, seen, seq![], edges.len() as int);
        if n.len() > 0 {
            lemma_ancestor_walk_is_reach_walk(edges, origin, at, n, s, (depth - 1) as nat);
        }
    }
}

/// Reachability reads its starting groups only by membership.
proof fn lemma_reachable_same_starts(edges: Seq<SubgroupOf>, at: int, s1: Seq<GroupId>, s2: Seq<GroupId>, g: GroupId, d: int)
    requires
        forall|x: GroupId| s1.contains(x) <==> s2.contains(x),
    ensures
        reachable(edges, at, s1, g, d) == reachable(edges, at, s2, g, d),
    decreases d,
{
    if d > 0 {
        lemma_reachable_same_starts(edges, at, s1, s2, g, d - 1);
        assert forall|j: int| 0 <= j < edges.len() implies reachable(edges, at, s1, (#[trigger] edges[j]).child, d - 1) == reachable(
            edges,
            at,
            s2,
            edges[j].child,
            d - 1,
        ) by {
            lemma_reachable_same_starts(edges, at, s1, s2, edges[j].child, d - 1);
        }
    }
}

/// Reachable from a set of starts is reachable from one of them.
proof fn lemma_reachable_union(edges: Seq<SubgroupOf>, at: int, starts: Seq<GroupId>, g: GroupId, d: int)
    ensures
        reachable(edges, at, starts, g, d) <==> exists|i: int|
            0 <= i < starts.len() && #[trigger] reachable(edges, at, seq![starts[i]], g, d),
    decreases d,
{
    if d == 0 {
        if starts.contains(g) {
            let i = choose|i: int| 0 <= i < starts.len() && starts[i] == g;
            assert(seq![starts[i]][0] == g);
            assert(reachable(edges, at, seq![starts[i]], g, d));
        }
        if exists|i: int| 0 <= i < starts.len() && #[trigger] reachable(edges, at, seq![starts[i]], g, d) {
            let i = choose|i: int| 0 <= i < starts.len() && #[trigger] reachable(edges, at, seq![starts[i]], g, d);
            assert(seq![starts[i]].contains(g));
            let q = choose|q: int| 0 <= q < 1 && seq![starts[i]][q] == g;
            assert(starts[i] == g);
        }
    } else if d > 0 {
        lemma_reachable_union(edges, at, starts, g, d - 1);
        if reachable(edges, at, starts, g, d) {
            if reachable(edges, at, starts, g, d - 1) {
                let i = choose|i: int| 0 <= i < starts.len() && #[trigger] reachable(edges, at, seq![starts[i]], g, d - 1);
                assert(reachable(edges, at, seq![starts[i]], g, d));
            } else {
                let j = choose|j: int|
                    0 <= j < edges.len() && (#[trigger] edges[j]).parent == g && edges[j].during.contains_spec(at)
                        && reachable(edges, at, starts, edges[j].child, d - 1);
                lemma_reachable_union(edges, at, starts, edges[j].child, d - 1);
                let i = choose|i: int|
                    0 <= i < starts.len() && #[trigger] reachable(edges, at, seq![starts[i]], edges[j].child, d - 1);
                assert(reachable(edges, at, seq![starts[i]], g, d));
            }
        }
        if exists|i: int| 0 <= i < starts.len() && #[trigger] reachable(edges, at, seq![starts[i]], g, d) {
            let i = choose|i: int| 0 <= i < starts.len() && #[trigger] reachable(edges, at, seq![starts[i]], g, d);
            if reachable(edges, at, seq![starts[i]], g, d - 1) {
                assert(reachable(edges, at, starts, g, d - 1));
            } else {
                let j = choose|j: int|
                    0 <= j < edges.len() && (#[trigger] edges[j]).parent == g && edges[j].during.contains_spec(at)
                        && reachable(edges, at, seq![starts[i]], edges[j].child, d - 1);
                lemma_reachable_union(edges, at, starts, edges[j].child, d - 1);
                assert(reachable(edges, at, starts, edges[j].child, d - 1));
            }
        }
    }
}

/// What the walk from all starts at once reaches.
pub proof fn lemma_multi_source_walk(edges: Seq<SubgroupOf>, direct: Seq<GroupId>, at: int, g: GroupId)
    ensures
        reach_ids(reach_walk(edges, direct, at, direct, direct.map_values(|x: GroupId| (x, false)), MAX_GROUP_DEPTH as nat)).contains(g)
            <==> reachable(edges, at, direct, g, MAX_GROUP_DEPTH as int),
{
    let out = direct.map_values(|x: GroupId| (x, false));
    assert(reach_ids(out) =~= direct);
    lemma_walk(edges, direct, at, direct, direct, out, 0, MAX_GROUP_DEPTH as nat);
}

/// What a single-source walk reaches: strict ancestors within the hop
/// budget.
pub proof fn lemma_ancestors_reach(edges: Seq<SubgroupOf>, origin: GroupId, at: Timestamp, g: GroupId)
    ensures
        ancestors_spec(edges, origin, at).contains(g) ==> g != origin && reachable(edges, at.0 as int, seq![origin], g, MAX_GROUP_DEPTH as int),
        g != origin && reachable(edges, at.0 as int, seq![origin], g, MAX_GROUP_DEPTH as int) ==> ancestors_spec(edges, origin, at).contains(g),
{
    let ancs = ancestors_spec(edges, origin, at);
    lemma_ancestor_walk_is_reach_walk(edges, origin, at, seq![origin], seq![], MAX_GROUP_DEPTH as nat);
    assert(tagged(origin, seq![]) =~= seq![origin].map_values(|x: GroupId| (x, false)));
    lemma_multi_source_walk(edges, seq![origin], at.0 as int, g);
    lemma_tagged_ids(origin, ancs, g);
    lemma_ancestors_exclude_origin(edges, origin, at, seq![origin], seq![], MAX_GROUP_DEPTH as nat);
}

proof fn lemma_step_excludes_origin(
    edges: Seq<SubgroupOf>,
    origin: GroupId,
    at: Timestamp,
    frontier: Seq<GroupId>,
    seen: Seq<GroupId>,
    next: Seq<GroupId>,
    k: int,
)
    requires
        0 <= k <= edges.len(),
        !seen.contains(origin),
        !next.contains(origin),
    ensures
        !ancestor_step(edges, origin, at, frontier, seen, next, k).0.contains(origin),
        !ancestor_step(edges, origin, at, frontier, seen, next, k).1.contains(origin),
    decreases k,
{
    broadcast use vstd::seq_lib::group_seq_properties;

    if k > 0 {
        lemma_step_excludes_origin(edges, origin, at, frontier, seen, next, k - 1);
    }
}

proof fn lemma_ancestors_exclude_origin(
    edges: Seq<SubgroupOf>,
    origin: GroupId,
    at: Timestamp,
    frontier: Seq<GroupId>,
    seen: Seq<GroupId>,
    depth: nat,
)
    requires
        !seen.contains(origin),
    ensures
        !ancestor_walk(edges, origin, at, frontier, seen, depth).contains(origin),
    decreases depth,
{
    if depth > 0 {
        lemma_step_excludes_origin(edges, origin, at, frontier, seen, seq![], edges.len() as int);
        let (s, n) = ancestor_step(edges, origin, at, frontier, seen, seq![], edges.len() as int);
        if n.len() > 0 {
            lemma_ancestors_exclude_origin(edges, origin, at, n, s, (depth - 1) as nat);
        }
    }
}

/// Each entry's flag marks a group that is not direct.
pub open spec fn flags_follow(groups: Seq<(GroupId, bool)>, direct: Seq<GroupId>) -> bool {
    forall|i: int| 0 <= i < groups.len() ==> (#[trigger] groups[i]).1 == !direct.contains(groups[i].0)
}

/// Where flags follow the direct groups, a reached group is reached only
/// by cascade exactly when it is not direct.
proof fn lemma_cascade_only_flag(groups: Seq<(GroupId, bool)>, direct: Seq<GroupId>, g: GroupId)
    requires
        flags_follow(groups, direct),
        reach_ids(groups).contains(g),
    ensures
        cascade_only(groups, g) == !direct.contains(g),
    decreases groups.len(),
{
    let i = choose|i: int| 0 <= i < reach_ids(groups).len() && reach_ids(groups)[i] == g;
    if groups[0].0 != g {
        let rest = groups.drop_first();
        assert(i > 0);
        assert(reach_ids(rest)[i - 1] == g);
        assert(flags_follow(rest, direct)) by {
            assert forall|k: int| 0 <= k < rest.len() implies (#[trigger] rest[k]).1 == !direct.contains(rest[k].0) by {
                assert(rest[k] == groups[k + 1]);
            }
        }
        lemma_cascade_only_flag(rest, direct, g);
    } else {
        assert(groups[0].1 == !direct.contains(groups[0].0));
    }
}

proof fn lemma_add_ancestors(groups: Seq<(GroupId, bool)>, ancs: Seq<GroupId>, direct: Seq<GroupId>, k: int)
    requires
        0 <= k <= ancs.len(),
    ensures
        forall|g: GroupId| #[trigger] reach_ids(add_ancestors(groups, ancs, direct, k)).contains(g) <==> (reach_ids(groups).contains(g)
            || ancs.take(k).contains(g)),
        flags_follow(groups, direct) ==> flags_follow(add_ancestors(groups, ancs, direct, k), direct),
    decreases k,
{
    broadcast use vstd::seq_lib::group_seq_properties;

    if k > 0 {
        lemma_add_ancestors(groups, ancs, direct, k - 1);
        let g0 = add_ancestors(groups, ancs, direct, k - 1);
        let a = ancs[k - 1];
        assert(ancs.take(k) =~= ancs.take(k - 1).push(a));
        if !reach_ids(g0).contains(a) {
            assert(reach_ids(g0.push((a, !direct.contains(a)))) =~= reach_ids(g0).push(a));
        }
    } else {
        assert(ancs.take(0) =~= Seq::<GroupId>::empty());
    }
}

proof fn lemma_reach_upto(v: RepoView, direct: Seq<GroupId>, at: Timestamp, n: int)
    requires
        0 <= n <= direct.len(),
    ensures
        forall|g: GroupId| #[trigger] reach_ids(reach_upto(v, direct, at, n)).contains(g) <==> (direct.contains(g) || exists|i: int|
            0 <= i < n && #[trigger] ancestors_spec(v.subgroup_of, direct[i], at).contains(g)),
        flags_follow(reach_upto(v, direct, at, n), direct),
    decreases n,
{
    if n == 0 {
        let base = direct.map_values(|g: GroupId| (g, false));
        assert(reach_ids(base) =~= direct);
        assert forall|i: int| 0 <= i < base.len() implies (#[trigger] base[i]).1 == !direct.contains(base[i].0) by {
            assert(direct[i] == base[i].0);
        }
    } else {
        lemma_reach_upto(v, direct, at, n - 1);
        let ancs = ancestors_spec(v.subgroup_of, direct[n - 1], at);
        lemma_add_ancestors(reach_upto(v, direct, at, n - 1), ancs, direct, ancs.len() as int);
        assert(ancs.take(ancs.len() as int) =~= ancs);
        assert forall|g: GroupId| #[trigger] reach_ids(reach_upto(v, direct, at, n)).contains(g) <==> (direct.contains(g) || exists|i: int|
            0 <= i < n && #[trigger] ancestors_spec(v.subgroup_of, direct[i], at).contains(g)) by {
            if exists|i: int| 0 <= i < n && #[trigger] ancestors_spec(v.subgroup_of, direct[i], at).contains(g) {
                let i = choose|i: int| 0 <= i < n && #[trigger] ancestors_spec(v.subgroup_of, direct[i], at).contains(g);
                if i < n - 1 {
                    assert(exists|i: int| 0 <= i < n - 1 && #[trigger] ancestors_spec(v.subgroup_of, direct[i], at).contains(g));
                }
            }
            if ancs.contains(g) {
                assert(ancestors_spec(v.subgroup_of, direct[n - 1], at).contains(g));
            }
        }
    }
}

/// The repository walk reaches exactly the groups within the hop budget
/// of a direct group, each flagged unless direct.
pub proof fn lemma_cold_reach(v: RepoView, person: PersonId, at: Timestamp, g: GroupId)
    ensures
        reach_ids(reach_of(v, person, at)).contains(g) <==> reachable(
            v.subgroup_of,
            at.0 as int,
            direct_of(v, person, at),
            g,
            MAX_GROUP_DEPTH as int,
        ),
        flags_follow(reach_of(v, person, at), direct_of(v, person, at)),
{
    let direct = direct_of(v, person, at);
    let edges = v.subgroup_of;
    let d = MAX_GROUP_DEPTH as int;
    lemma_reach_upto(v, direct, at, direct.len() as int);
    lemma_reachable_union(edges, at.0 as int, direct, g, d);
    if reach_ids(reach_of(v, person, at)).contains(g) {
        if direct.contains(g) {
            lemma_reachable_monotone(edges, at.0 as int, direct, g, 0, d);
        } else {
            let i = choose|i: int| 0 <= i < direct.len() && #[trigger] ancestors_spec(edges, direct[i], at).contains(g);
            lemma_ancestors_reach(edges, direct[i], at, g);
            assert(reachable(edges, at.0 as int, seq![direct[i]], g, d));
        }
    }
    if reachable(edges, at.0 as int, direct, g, d) {
        let i = choose|i: int| 0 <= i < direct.len() && #[trigger] reachable(edges, at.0 as int, seq![direct[i]], g, d);
        if g == direct[i] {
            assert(direct.contains(g));
        } else {
            lemma_ancestors_reach(edges, direct[i], at, g);
        }
    }
}

proof fn lemma_level_flags(
    edges: Seq<SubgroupOf>,
    direct: Seq<GroupId>,
    at: int,
    frontier: Seq<GroupId>,
    out: Seq<(GroupId, bool)>,
    next: Seq<GroupId>,
    k: int,
)
    requires
        flags_follow(out, direct),
        0 <= k <= edges.len(),
    ensures
        flags_follow(reach_level(edges, direct, at, frontier, out, next, k).0, direct),
    decreases k,
{
    if k > 0 {
        lemma_level_flags(edges, direct, at, frontier, out, next, k - 1);
    }
}

proof fn lemma_walk_flags(
    edges: Seq<SubgroupOf>,
    direct: Seq<GroupId>,
    at: int,
    frontier: Seq<GroupId>,
    out: Seq<(GroupId, bool)>,
    depth: nat,
)
    requires
        flags_follow(out, direct),
    ensures
        flags_follow(reach_walk(edges, direct, at, frontier, out, depth), direct),
    decreases depth,
{
    if depth > 0 {
        lemma_level_flags(edges, direct, at, frontier, out, seq![], edges.len() as int);
        let (o, n) = reach_level(edges, direct, at, frontier, out, seq![], edges.len() as int);
        if n.len() > 0 {
            lemma_walk_flags(edges, direct, at, n, o, (depth - 1) as nat);
        }
    }
}

/// The mirrored walk reaches exactly the groups within the hop budget of
/// a direct group, each flagged unless direct.
pub proof fn lemma_warm_reach(ms: Seq<MemberOf>, edges: Seq<SubgroupOf>, person: PersonId, at: int, g: GroupId)
    ensures
        reach_ids(reach_spec(ms, edges, person, at)).contains(g) <==> reachable(
            edges,
            at,
            direct_spec(ms, person, at),
            g,
            MAX_GROUP_DEPTH as int,
        ),
        flags_follow(reach_spec(ms, edges, person, at), direct_spec(ms, person, at)),
{
    let direct = direct_spec(ms, person, at);
    let base = direct.map_values(|x: GroupId| (x, false));
    let walk = reach_walk(edges, direct, at, direct, base, MAX_GROUP_DEPTH as nat);
    let sorted = reach_spec(ms, edges, person, at);
    lemma_multi_source_walk(edges, direct, at, g);
    assert(flags_follow(base, direct)) by {
        assert forall|i: int| 0 <= i < base.len() implies (#[trigger] base[i]).1 == !direct.contains(base[i].0) by {
            assert(direct[i] == base[i].0);
        }
    }
    lemma_walk_flags(edges, direct, at, direct, base, MAX_GROUP_DEPTH as nat);
    lemma_stable_sort(walk, |p: (GroupId, bool)| reach_key(p));
    assert(sorted == stable_sort_by(walk, |p: (GroupId, bool)| reach_key(p)));
    assert forall|e: (GroupId, bool)| sorted.contains(e) <==> walk.contains(e) by {
        vstd::seq_lib::to_multiset_contains(sorted, e);
        vstd::seq_lib::to_multiset_contains(walk, e);
    }
    assert forall|i: int| 0 <= i < sorted.len() implies (#[trigger] sorted[i]).1 == !direct.contains(sorted[i].0) by {
        assert(sorted.contains(sorted[i]));
        let j = choose|j: int| 0 <= j < walk.len() && walk[j] == sorted[i];
    }
    if reach_ids(sorted).contains(g) {
        let i = choose|i: int| 0 <= i < reach_ids(sorted).len() && reach_ids(sorted)[i] == g;
        assert(sorted.contains(sorted[i]));
        let j = choose|j: int| 0 <= j < walk.len() && walk[j] == sorted[i];
        assert(reach_ids(walk)[j] == g);
    }
    if reach_ids(walk).contains(g) {
        let j = choose|j: int| 0 <= j < reach_ids(walk).len() && reach_ids(walk)[j] == g;
        assert(walk.contains(walk[j]));
        let i = choose|i: int| 0 <= i < sorted.len() && sorted[i] == walk[j];
        assert(reach_ids(sorted)[i] == g);
    }
}

/// The mirrored direct groups are the repository's, as a set.
pub proof fn lemma_direct_agree(v: RepoView, person: PersonId, at: Timestamp, x: GroupId)
    ensures
        direct_spec(v.member_of, person, at.0 as int).contains(x) <==> direct_of(v, person, at).contains(x),
{
    let dl = direct_list(v.member_of, person, at.0 as int);
    assert((|m: MemberOf| m.person == person && m.during.contains_spec(at.0 as int)) =~= (|m: MemberOf| m.person == person
        && m.during.contains_spec(at.0 as int)));
    assert(dl == direct_of(v, person, at));
    let r0 = lemma_strictly_increasing_exists(group_keys(dl));
    let r = r0.map_values(|k: u128| GroupId(k));
    assert(group_keys(r) =~= r0);
    let c = direct_spec(v.member_of, person, at.0 as int);
    assert(strictly_increasing(group_keys(c)) && group_keys(c).to_set() == group_keys(dl).to_set());
    if c.contains(x) {
        let i = choose|i: int| 0 <= i < c.len() && c[i] == x;
        assert(group_keys(c)[i] == x.0);
        assert(group_keys(c).to_set().contains(x.0));
        assert(group_keys(dl).to_set().contains(x.0));
        let j = choose|j: int| 0 <= j < group_keys(dl).len() && group_keys(dl)[j] == x.0;
        assert(dl[j] == x);
    }
    if dl.contains(x) {
        let j = choose|j: int| 0 <= j < dl.len() && dl[j] == x;
        assert(group_keys(dl)[j] == x.0);
        assert(group_keys(dl).to_set().contains(x.0));
        assert(group_keys(c).to_set().contains(x.0));
        let i = choose|i: int| 0 <= i < group_keys(c).len() && group_keys(c)[i] == x.0;
        assert(c[i] == x);
    }
}

/// Both walks reach the same groups, with the same cascade marking.
pub proof fn lemma_reach_agrees(v: RepoView, person: PersonId, at: Timestamp, g: GroupId)
    ensures
        reach_ids(reach_of(v, person, at)).contains(g) == reach_ids(
            reach_spec(v.member_of, v.subgroup_of, person, at.0 as int),
        ).contains(g),
        reach_ids(reach_of(v, person, at)).contains(g) ==> cascade_only(reach_of(v, person, at), g) == cascade_only(
            reach_spec(v.member_of, v.subgroup_of, person, at.0 as int),
            g,
        ),
{
    let d1 = direct_of(v, person, at);
    let d2 = direct_spec(v.member_of, person, at.0 as int);
    assert forall|x: GroupId| d1.contains(x) <==> d2.contains(x) by {
        lemma_direct_agree(v, person, at, x);
    }
    lemma_cold_reach(v, person, at, g);
    lemma_warm_reach(v.member_of, v.subgroup_of, person, at.0 as int, g);
    lemma_reachable_same_starts(v.subgroup_of, at.0 as int, d1, d2, g, MAX_GROUP_DEPTH as int);
    if reach_ids(reach_of(v, person, at)).contains(g) {
        lemma_cascade_only_flag(reach_of(v, person, at), d1, g);
        lemma_cascade_only_flag(reach_spec(v.member_of, v.subgroup_of, person, at.0 as int), d2, g);
    }
}

proof fn lemma_first_where_map<A, B>(s: Seq<A>, f: spec_fn(A) -> B, p: spec_fn(B) -> bool, q: spec_fn(A) -> bool)
    requires
        forall|a: A| #[trigger] q(a) == p(f(a)),
    ensures
        first_where(s.map_values(f), p) == first_where(s, q),
    decreases s.len(),
{
    if s.len() > 0 {
        assert(s.map_values(f).drop_first() =~= s.drop_first().map_values(f));
        assert(s.map_values(f)[0] == f(s[0]));
        lemma_first_where_map(s.drop_first(), f, p, q);
    }
}

/// Folding an expectation into the winners and folding its key into the
/// key winners agree.
proof fn lemma_pick_agrees(w: Seq<Expects>, x: Expects)
    ensures
        pick_key(w.map_values(|e: Expects| expect_key_of(e)), expect_key_of(x)) == pick(w, x).map_values(
            |e: Expects| expect_key_of(e),
        ),
{
    let ek = |e: Expects| expect_key_of(e);
    let p = |e: ExpectKey| e.event == expect_key_of(x).event;
    let q = |e: Expects| e.event == x.event;
    lemma_first_where_map(w, ek, p, q);
    crate::repo::lemma_first_where(w, q);
    let i = first_where(w, q);
    if i >= w.len() {
        assert(w.push(x).map_values(ek) =~= w.map_values(ek).push(ek(x)));
    } else {
        assert(key_beats(ek(x), ek(w[i])) == beats(x, w[i]));
        assert(w.update(i, x).map_values(ek) =~= w.map_values(ek).update(i, ek(x)));
    }
}

/// Winners over the first `m` expectations read only those.
proof fn lemma_winners_prefix(xs: Seq<Expects>, ys: Seq<Expects>, groups: Seq<(GroupId, bool)>, m: int)
    requires
        0 <= m <= xs.len(),
        m <= ys.len(),
        forall|i: int| 0 <= i < m ==> xs[i] == ys[i],
    ensures
        winners_upto(xs, groups, m) == winners_upto(ys, groups, m),
    decreases m,
{
    if m > 0 {
        lemma_winners_prefix(xs, ys, groups, m - 1);
    }
}

/// The applicable expectations of the repository.
pub open spec fn applicable(v: RepoView, person: PersonId, at: Timestamp) -> spec_fn(Expects) -> bool {
    |x: Expects| reach_ids(reach_of(v, person, at)).contains(x.group) && x.during.contains_spec(at.0 as int)
}

/// The key winners over the first `n` mirrored expectations are the
/// winners over the applicable ones among the first `n`, keyed.
proof fn lemma_winners_agree(v: RepoView, person: PersonId, at: Timestamp, n: int)
    requires
        0 <= n <= v.expects.len(),
    ensures
        key_winners(mirror_spec(v).2, reach_spec(v.member_of, v.subgroup_of, person, at.0 as int), at.0 as int, n) == winners_upto(
            v.expects.take(n).filter(applicable(v, person, at)),
            reach_of(v, person, at),
            v.expects.take(n).filter(applicable(v, person, at)).len() as int,
        ).map_values(|e: Expects| expect_key_of(e)),
    decreases n,
{
    let ge = reach_of(v, person, at);
    let gi = reach_spec(v.member_of, v.subgroup_of, person, at.0 as int);
    let pa = applicable(v, person, at);
    let keys = mirror_spec(v).2;
    if n == 0 {
        assert(v.expects.take(0).filter(pa) =~= Seq::<Expects>::empty());
    } else {
        lemma_winners_agree(v, person, at, n - 1);
        let x = v.expects[n - 1];
        let xs0 = v.expects.take(n - 1).filter(pa);
        assert(v.expects.take(n) =~= v.expects.take(n - 1).push(x));
        v.expects.take(n - 1).lemma_filter_push(x, pa);
        assert(keys[n - 1] == expect_key_of(x));
        lemma_reach_agrees(v, person, at, x.group);
        crate::interval::lemma_ends_fit(x.during);
        let w0 = winners_upto(xs0, ge, xs0.len() as int);
        if pa(x) {
            let xs1 = xs0.push(x);
            lemma_winners_prefix(xs1, xs0, ge, xs0.len() as int);
            lemma_pick_agrees(w0, x);
            assert(key_applies(gi, keys[n - 1], at.0 as int) == !(cascade_only(ge, x.group) && !x.cascades));
        } else {
            assert(!key_applies(gi, keys[n - 1], at.0 as int));
        }
    }
}

/// Identities are told apart by their sort keys.
proof fn lemma_id_key_injective(a: DerivedId, b: DerivedId)
    requires
        id_key(a) == id_key(b),
    ensures
        a == b,
{
    vstd::array::array_len_matches_n(&a.0);
    vstd::array::array_len_matches_n(&b.0);
    assert forall|i: int| 0 <= i < 32 implies a.0[i] == b.0[i] by {
        assert(id_key(a)[i] == id_key(b)[i]);
        assert(id_key(a)[i] == a.0@[i] as u128);
        assert(id_key(b)[i] == b.0@[i] as u128);
    }
    assert(a.0 =~= b.0);
}

/// The incremental digest agrees with a cold recomputation: the digest
/// over the mirrored world equals the digest of the identities `expand`
/// derives from the repository.
pub proof fn lemma_incremental_matches_cold(v: RepoView, person: PersonId, at: Timestamp)
    ensures
        digest_spec(derived_ids_spec(mirror_spec(v), person, at.0 as int)) == digest_spec(
            expand_spec(v, person, at).map_values(|d: DerivedAttends| d.id),
        ),
{
    let n = v.expects.len() as int;
    lemma_winners_agree(v, person, at, n);
    assert(v.expects.take(n) =~= v.expects);
    let ge = reach_of(v, person, at);
    let gi = reach_spec(v.member_of, v.subgroup_of, person, at.0 as int);
    let xs = v.expects.filter(applicable(v, person, at));
    let we = winners_upto(xs, ge, xs.len() as int);
    let wi = key_winners(mirror_spec(v).2, gi, at.0 as int, n);
    assert(wi == we.map_values(|e: Expects| expect_key_of(e)));
    let ids = wi.map_values(|k: ExpectKey| key_id(person, k));
    let t = we.map_values(|x: Expects| to_derived(person, x));
    let tid = t.map_values(|d: DerivedAttends| d.id);
    assert(ids =~= tid) by {
        assert forall|i: int| 0 <= i < ids.len() implies ids[i] == tid[i] by {
            crate::interval::lemma_ends_fit(we[i].during);
        }
    }
    let kf = |d: DerivedId| id_key(d);
    assert forall|x: DerivedId, y: DerivedId| #[trigger] kf(x) == #[trigger] kf(y) implies x == y by {
        lemma_id_key_injective(x, y);
    }
    let s1 = stable_sort_by(ids, kf);
    let a = stable_sort_by(s1, kf);
    lemma_stable_sort(ids, kf);
    lemma_stable_sort(s1, kf);
    let sorted_t = stable_sort_by(t, |d: DerivedAttends| event_key(d));
    let e = sorted_t.map_values(|d: DerivedAttends| d.id);
    lemma_sort_image_multiset(t, |d: DerivedAttends| event_key(d), |d: DerivedAttends| d.id);
    let b = stable_sort_by(e, kf);
    lemma_stable_sort(e, kf);
    assert(expand_spec(v, person, at) == sorted_t);
    lemma_sorted_perm_unique(a, b, kf);
}

} // verus!
