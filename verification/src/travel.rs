//! Travel: the feasibility verdict for a pair of placed events, and the
//! materialised travel closure computed from the traverse network.

use vstd::prelude::*;

use crate::interval::Timestamp;
use crate::model::{ClosureEntry, LocationId, Mode, PersonId, TravelCost, TravelProvenance, Traverse, Within};
use crate::order::{dedup_runs, keyed_by, payloads, sort_keyed, stable_sort_by};
use petgraph::graph::{DiGraph, NodeIndex};

pub use crate::detect::impossible_travel::Placed;

verus! {

/// The verdict a travel check returns: durations only, never coordinates
/// or anchor references.
#[derive(Clone, Copy, PartialEq, Eq, Structural, Debug)]
pub enum Feasibility {
    Feasible { slack_s: i64 },
    Infeasible { deficit_s: i64, provenance: TravelProvenance },
    /// No known route. Unknown is not an accusation.
    Unknown,
}

/// Integer division truncating toward zero, as `i64` division does.
pub open spec fn div_trunc(x: int, d: int) -> int {
    if x >= 0 {
        x / d
    } else {
        -((-x) / d)
    }
}

/// Whole seconds in a span of microseconds, truncated toward zero.
pub fn whole_seconds(micros: i64) -> (r: i64)
    ensures
        r == div_trunc(micros as int, 1_000_000),
{
    if micros >= 0 {
        micros / 1_000_000
    } else {
        let m: i128 = -(micros as i128);
        let q = m / 1_000_000;
        -(q as i64)
    }
}

/// The verdict for a gap of `gap_s` seconds against an optional route.
pub open spec fn verdict_for_gap(gap_s: int, cost: Option<TravelCost>) -> Feasibility {
    match cost {
        None => Feasibility::Unknown,
        Some(c) => if gap_s >= c.duration_s {
            Feasibility::Feasible { slack_s: (gap_s - c.duration_s) as i64 }
        } else {
            Feasibility::Infeasible { deficit_s: (c.duration_s - gap_s) as i64, provenance: c.provenance }
        },
    }
}

/// The verdict for travelling from `a` to `b`: at the same location the
/// whole gap is slack; otherwise it is measured against the route.
pub open spec fn feasible_spec(a: Placed, b: Placed, cost: Option<TravelCost>) -> Feasibility {
    let gap_s = div_trunc(b.window.lo() - a.window.hi(), 1_000_000);
    if a.location == b.location {
        Feasibility::Feasible { slack_s: gap_s as i64 }
    } else {
        verdict_for_gap(gap_s, cost)
    }
}

/// `feasible(person, a, b)`: `person` is part of the signature and not
/// yet read (every person shares one mobility profile). The route is
/// looked up once, and only between two different locations; the verdict
/// is the one for the route that lookup returned.
pub fn feasible<F: Fn(LocationId, LocationId) -> Option<TravelCost>>(
    person: PersonId,
    a: &Placed,
    b: &Placed,
    lookup: &F,
) -> (r: Feasibility)
    requires
        lookup.requires((a.location, b.location)),
        i64::MIN <= b.window.lo() - a.window.hi() <= i64::MAX,
        forall|c: TravelCost| lookup.ensures((a.location, b.location), Some(c)) ==> {
            let g = div_trunc(b.window.lo() - a.window.hi(), 1_000_000);
            &&& i64::MIN <= c.duration_s - g <= i64::MAX
            &&& i64::MIN <= g - c.duration_s <= i64::MAX
        },
    ensures
        a.location == b.location ==> r == feasible_spec(*a, *b, None),
        a.location != b.location ==> exists|c: Option<TravelCost>| #[trigger] lookup.ensures((a.location, b.location), c)
            && r == feasible_spec(*a, *b, c),
{
    let _ = person;
    let gap_s = whole_seconds(b.window.start().0 - a.window.end().0);
    if a.location == b.location {
        return Feasibility::Feasible { slack_s: gap_s };
    }
    let found = lookup(a.location, b.location);
    match found {
        None => Feasibility::Unknown,
        Some(cost) => {
            if gap_s >= cost.duration_s {
                Feasibility::Feasible { slack_s: gap_s - cost.duration_s }
            } else {
                Feasibility::Infeasible { deficit_s: cost.duration_s - gap_s, provenance: cost.provenance }
            }
        },
    }
}

/// Scope of a closure refresh.
#[derive(Clone, Copy, PartialEq, Eq, Structural, Debug)]
pub enum ClosureScope {
    /// All pairs over event-bearing locations only.
    EventBearing,
    /// All pairs over every location.
    AllLocations,
}

#[derive(Clone, Copy, PartialEq, Eq, Structural, Debug)]
pub struct ClosureReport {
    pub sources: usize,
    pub pairs: usize,
}

/// Costs that `petgraph::algo::dijkstra` reports from `src` over the graph
/// with nodes `0..n` and the given weighted directed edges: entry `k` is
/// the cost to node `k`, `None` when `k` is unreachable.
pub uninterp spec fn shortest_costs(n: nat, edges: Seq<(usize, usize, i64)>, src: nat) -> Seq<Option<i64>>;

/// Sum of the magnitudes of the edge weights.
pub open spec fn edges_abs_total(edges: Seq<(usize, usize, i64)>) -> int
    decreases edges.len(),
{
    if edges.len() == 0 {
        0
    } else {
        edges_abs_total(edges.drop_last()) + if edges.last().2 < 0 {
            -edges.last().2
        } else {
            edges.last().2 as int
        }
    }
}

/// A walk over `edges` (given by edge index) from node `src` to node
/// `dst`: the empty walk when they are the same node, otherwise edges end
/// to end, the first leaving `src` and the last entering `dst`.
pub open spec fn is_walk(edges: Seq<(usize, usize, i64)>, src: nat, dst: nat, p: Seq<int>) -> bool {
    &&& forall|k: int| 0 <= k < p.len() ==> 0 <= #[trigger] p[k] < edges.len()
    &&& if p.len() == 0 {
        src == dst
    } else {
        &&& edges[p[0]].0 == src
        &&& edges[p.last()].1 == dst
        &&& forall|k: int| 0 <= k < p.len() - 1 ==> edges[#[trigger] p[k]].1 == edges[p[k + 1]].0
    }
}

/// The summed weight of a walk.
pub open spec fn walk_cost(edges: Seq<(usize, usize, i64)>, p: Seq<int>) -> int
    decreases p.len(),
{
    if p.len() == 0 {
        0
    } else {
        walk_cost(edges, p.drop_last()) + edges[p.last()].2
    }
}

/// No edge weight is negative.
pub open spec fn nonneg_weights(edges: Seq<(usize, usize, i64)>) -> bool {
    forall|k: int| 0 <= k < edges.len() ==> (#[trigger] edges[k]).2 >= 0
}

/// Per node of `0..n`, the least cost of a walk from `src`, or `None`
/// exactly when no walk reaches it.
pub open spec fn shortest_from(n: nat, edges: Seq<(usize, usize, i64)>, src: nat, costs: Seq<Option<i64>>) -> bool {
    &&& costs.len() == n
    &&& forall|t: int|
        0 <= t < n ==> match #[trigger] costs[t] {
            Some(c) => (exists|p: Seq<int>| #[trigger] is_walk(edges, src, t as nat, p) && walk_cost(edges, p) == c) && (forall|
                p: Seq<int>,
            | #[trigger] is_walk(edges, src, t as nat, p) ==> c <= walk_cost(edges, p)),
            None => forall|p: Seq<int>| !#[trigger] is_walk(edges, src, t as nat, p),
        }
}

/// `petgraph::algo::dijkstra` from `src` over a graph built with nodes
/// `0..n` and one edge per entry of `edges`, its cost map read back as one
/// entry per node. The contract names the result as a function of the
/// arguments, with one entry per node; when no weight is negative (the
/// case petgraph documents), each entry is the least cost of a walk from
/// `src`, and `None` exactly for the nodes no walk reaches. With negative
/// weights nothing is claimed of the costs. The weight bound keeps every
/// sum the algorithm forms (a tree path plus one edge, over distinct
/// edges) within `i64`.
#[verifier::external_body]
fn dijkstra_costs(n: usize, edges: &Vec<(usize, usize, i64)>, src: usize) -> (r: Vec<Option<i64>>)
    requires
        src < n,
        forall|k: int| 0 <= k < edges@.len() ==> (#[trigger] edges@[k]).0 < n && edges@[k].1 < n,
        edges_abs_total(edges@) <= i64::MAX,
    ensures
        r@ == shortest_costs(n as nat, edges@, src as nat),
        r@.len() == n,
        nonneg_weights(edges@) ==> shortest_from(n as nat, edges@, src as nat, r@),
{
    let mut g: DiGraph<(), i64> = DiGraph::new();
    let nodes: Vec<NodeIndex> = (0..n).map(|_| g.add_node(())).collect();
    for &(a, b, w) in edges.iter() {
        g.add_edge(nodes[a], nodes[b], w);
    }
    let costs = petgraph::algo::dijkstra(&g, nodes[src], None, |e| *e.weight());
    nodes.iter().map(|ix| costs.get(ix).copied()).collect()
}

/// The value of a closure entry.
pub struct ClosureRow {
    pub from: LocationId,
    pub to: LocationId,
    pub mode: Seq<char>,
    pub duration_s: i64,
    pub provenance: TravelProvenance,
    pub computed_at: Timestamp,
}

pub open spec fn row_of(e: ClosureEntry) -> ClosureRow {
    ClosureRow {
        from: e.from,
        to: e.to,
        mode: e.mode.0@,
        duration_s: e.duration_s,
        provenance: e.provenance,
        computed_at: e.computed_at,
    }
}

/// Order key of a mode: its UTF-8 bytes (the order of `String`).
pub open spec fn mode_key(m: Seq<char>) -> Seq<u128> {
    vstd::utf8::encode_utf8(m).map_values(|b: u8| b as u128)
}

/// The distinct modes of the traverse network, in string order.
pub open spec fn modes_spec(ts: Seq<Traverse>) -> Seq<Seq<char>> {
    dedup_runs(stable_sort_by(ts.map_values(|t: Traverse| t.mode.0@), |m: Seq<char>| mode_key(m)))
}

/// Whether a traverse edge is of mode `m`.
pub open spec fn of_mode(m: Seq<char>) -> spec_fn(Traverse) -> bool {
    |t: Traverse| t.mode.0@ == m
}

/// The traverse edges of one mode.
pub open spec fn mode_edges(ts: Seq<Traverse>, m: Seq<char>) -> Seq<Traverse> {
    ts.filter(of_mode(m))
}

/// Append the locations of `locs` not yet in `nodes`, in order.
pub open spec fn add_nodes(nodes: Seq<LocationId>, locs: Seq<LocationId>) -> Seq<LocationId>
    decreases locs.len(),
{
    if locs.len() == 0 {
        nodes
    } else {
        let n = add_nodes(nodes, locs.drop_last());
        if n.contains(locs.last()) {
            n
        } else {
            n.push(locs.last())
        }
    }
}

/// The endpoints of traverse edges, `from` then `to`, edge by edge.
pub open spec fn edge_ends(es: Seq<Traverse>) -> Seq<LocationId>
    decreases es.len(),
{
    if es.len() == 0 {
        seq![]
    } else {
        edge_ends(es.drop_last()) + seq![es.last().from, es.last().to]
    }
}

/// The endpoints of containment edges, child then parent, edge by edge.
pub open spec fn within_ends(ws: Seq<Within>) -> Seq<LocationId>
    decreases ws.len(),
{
    if ws.len() == 0 {
        seq![]
    } else {
        within_ends(ws.drop_last()) + seq![ws.last().child, ws.last().parent]
    }
}

/// Position of the first occurrence of `l`.
pub open spec fn pos_of(nodes: Seq<LocationId>, l: LocationId) -> int
    decreases nodes.len(),
{
    if nodes.len() == 0 {
        0
    } else if nodes[0] == l {
        0
    } else {
        1 + pos_of(nodes.drop_first(), l)
    }
}

/// Graph nodes of the real network of a mode, in order of appearance.
pub open spec fn real_nodes(es: Seq<Traverse>) -> Seq<LocationId> {
    add_nodes(seq![], edge_ends(es))
}

/// Weighted edges for traverse edges over a node numbering.
pub open spec fn edges_with(nodes: Seq<LocationId>, es: Seq<Traverse>) -> Seq<(usize, usize, i64)> {
    es.map_values(|t: Traverse| (pos_of(nodes, t.from) as usize, pos_of(nodes, t.to) as usize, t.duration_typical_s))
}

/// Weighted edges of the real network of a mode.
pub open spec fn real_edges(es: Seq<Traverse>) -> Seq<(usize, usize, i64)> {
    edges_with(real_nodes(es), es)
}

/// Graph nodes once containment connectors join.
pub open spec fn bridged_nodes(es: Seq<Traverse>, ws: Seq<Within>) -> Seq<LocationId> {
    add_nodes(real_nodes(es), within_ends(ws))
}

/// Zero-cost connectors, both directions, edge by edge.
pub open spec fn connector_edges(nodes: Seq<LocationId>, ws: Seq<Within>) -> Seq<(usize, usize, i64)>
    decreases ws.len(),
{
    if ws.len() == 0 {
        seq![]
    } else {
        let c = pos_of(nodes, ws.last().child) as usize;
        let p = pos_of(nodes, ws.last().parent) as usize;
        connector_edges(nodes, ws.drop_last()) + seq![(c, p, 0i64), (p, c, 0i64)]
    }
}

/// Weighted edges once containment connectors join.
pub open spec fn bridged_edges(es: Seq<Traverse>, ws: Seq<Within>) -> Seq<(usize, usize, i64)> {
    real_edges(es) + connector_edges(bridged_nodes(es, ws), ws)
}

/// Cost `from -> to` over the real network of a mode.
pub open spec fn pure_cost(es: Seq<Traverse>, from: LocationId, to: LocationId) -> Option<i64> {
    let nodes = real_nodes(es);
    if from != to && nodes.contains(from) && nodes.contains(to) {
        shortest_costs(nodes.len(), real_edges(es), pos_of(nodes, from) as nat)[pos_of(nodes, to)]
    } else {
        None
    }
}

/// Whether some other target is unreachable from `from` over the real
/// network.
pub open spec fn needs_bridge(es: Seq<Traverse>, targets: Seq<LocationId>, from: LocationId) -> bool {
    exists|k: int| 0 <= k < targets.len() && #[trigger] targets[k] != from && pure_cost(es, from, targets[k]) is None
}

/// Cost `from -> to` once connectors bridge a pair the real network
/// cannot serve.
pub open spec fn bridge_cost(es: Seq<Traverse>, ws: Seq<Within>, targets: Seq<LocationId>, from: LocationId, to: LocationId) -> Option<i64> {
    let nodes = bridged_nodes(es, ws);
    if from != to && pure_cost(es, from, to) is None && needs_bridge(es, targets, from) && nodes.contains(from)
        && nodes.contains(to) {
        shortest_costs(nodes.len(), bridged_edges(es, ws), pos_of(nodes, from) as nat)[pos_of(nodes, to)]
    } else {
        None
    }
}

/// The first cheapest direct edge `from -> to` among `es`.
pub open spec fn direct_edge(es: Seq<Traverse>, from: LocationId, to: LocationId) -> Option<Traverse>
    decreases es.len(),
{
    if es.len() == 0 {
        None
    } else {
        let r = direct_edge(es.drop_last(), from, to);
        let t = es.last();
        if t.from == from && t.to == to && (r is None || t.duration_typical_s < r.unwrap().duration_typical_s) {
            Some(t)
        } else {
            r
        }
    }
}

/// The closure entry for one ordered pair of one mode, if the pair is
/// served: real-network cost first, else a bridged one. A direct edge of
/// that cost donates its provenance to an unbridged entry; everything
/// else is an estimate.
pub open spec fn pair_row(es: Seq<Traverse>, ws: Seq<Within>, targets: Seq<LocationId>, m: Seq<char>, from: LocationId, to: LocationId, at: Timestamp) -> Option<ClosureRow> {
    let (cost, via) = match pure_cost(es, from, to) {
        Some(c) => (Some(c), false),
        None => (bridge_cost(es, ws, targets, from, to), true),
    };
    match cost {
        None => None,
        Some(c) => {
            let provenance = match direct_edge(es, from, to) {
                Some(d) => if !via && d.duration_typical_s == c {
                    d.provenance
                } else {
                    TravelProvenance::Estimated
                },
                None => TravelProvenance::Estimated,
            };
            Some(ClosureRow { from, to, mode: m, duration_s: c, provenance, computed_at: at })
        },
    }
}

/// Rows for `from` against the first `n` targets.
pub open spec fn rows_from(es: Seq<Traverse>, ws: Seq<Within>, targets: Seq<LocationId>, m: Seq<char>, from: LocationId, at: Timestamp, n: int) -> Seq<ClosureRow>
    decreases n,
{
    if n <= 0 {
        seq![]
    } else {
        rows_from(es, ws, targets, m, from, at, n - 1) + match pair_row(es, ws, targets, m, from, targets[n - 1], at) {
            Some(r) => seq![r],
            None => seq![],
        }
    }
}

/// Rows of one mode over the first `n` sources.
pub open spec fn rows_upto(es: Seq<Traverse>, ws: Seq<Within>, targets: Seq<LocationId>, m: Seq<char>, at: Timestamp, n: int) -> Seq<ClosureRow>
    decreases n,
{
    if n <= 0 {
        seq![]
    } else {
        rows_upto(es, ws, targets, m, at, n - 1) + rows_from(es, ws, targets, m, targets[n - 1], at, targets.len() as int)
    }
}

/// Rows of the first `n` modes.
pub open spec fn modes_rows(ts: Seq<Traverse>, ws: Seq<Within>, targets: Seq<LocationId>, modes: Seq<Seq<char>>, at: Timestamp, n: int) -> Seq<ClosureRow>
    decreases n,
{
    if n <= 0 {
        seq![]
    } else {
        let m = modes[n - 1];
        modes_rows(ts, ws, targets, modes, at, n - 1) + rows_upto(mode_edges(ts, m), ws, targets, m, at, targets.len() as int)
    }
}

/// The travel closure: per mode in string order, per ordered pair of
/// distinct targets (in target order), the shortest cost over the mode's
/// real network, or, for pairs it cannot serve, over the network bridged
/// by zero-cost containment connectors.
pub open spec fn closure_spec(ts: Seq<Traverse>, ws: Seq<Within>, targets: Seq<LocationId>, at: Timestamp) -> Seq<ClosureRow> {
    let modes = modes_spec(ts);
    modes_rows(ts, ws, targets, modes, at, modes.len() as int)
}

/// Sum of the magnitudes of the traverse durations.
pub open spec fn traverse_abs_total(ts: Seq<Traverse>) -> int
    decreases ts.len(),
{
    if ts.len() == 0 {
        0
    } else {
        traverse_abs_total(ts.drop_last()) + if ts.last().duration_typical_s < 0 {
            -ts.last().duration_typical_s
        } else {
            ts.last().duration_typical_s as int
        }
    }
}

// ----------------------------------------------------------- closure lemmas

proof fn lemma_add_nodes_contains(nodes: Seq<LocationId>, locs: Seq<LocationId>)
    ensures
        forall|x: LocationId| #[trigger] add_nodes(nodes, locs).contains(x) <==> nodes.contains(x) || locs.contains(x),
    decreases locs.len(),
{
    if locs.len() > 0 {
        lemma_add_nodes_contains(nodes, locs.drop_last());
        let n = add_nodes(nodes, locs.drop_last());
        assert forall|x: LocationId| #[trigger] add_nodes(nodes, locs).contains(x) <==> nodes.contains(x) || locs.contains(x) by {
            if locs.contains(x) && !locs.drop_last().contains(x) {
                let k = choose|k: int| 0 <= k < locs.len() && locs[k] == x;
                if k < locs.len() - 1 {
                    assert(locs.drop_last()[k] == x);
                }
                assert(x == locs.last());
            }
            if locs.drop_last().contains(x) {
                let k = choose|k: int| 0 <= k < locs.drop_last().len() && locs.drop_last()[k] == x;
                assert(locs[k] == x);
            }
            if !n.contains(locs.last()) {
                assert(n.push(locs.last()).contains(x) <==> n.contains(x) || x == locs.last()) by {
                    if n.push(locs.last()).contains(x) && x != locs.last() {
                        let k = choose|k: int| 0 <= k < n.push(locs.last()).len() && n.push(locs.last())[k] == x;
                        assert(n[k] == x);
                    }
                    if n.contains(x) {
                        let k = choose|k: int| 0 <= k < n.len() && n[k] == x;
                        assert(n.push(locs.last())[k] == x);
                    }
                    if x == locs.last() {
                        assert(n.push(locs.last())[n.len() as int] == x);
                    }
                }
            }
        }
    }
}

proof fn lemma_pos_of(nodes: Seq<LocationId>, l: LocationId)
    requires
        nodes.contains(l),
    ensures
        0 <= pos_of(nodes, l) < nodes.len(),
        nodes[pos_of(nodes, l)] == l,
    decreases nodes.len(),
{
    if nodes[0] != l {
        let k = choose|k: int| 0 <= k < nodes.len() && nodes[k] == l;
        assert(nodes.drop_first()[k - 1] == l);
        lemma_pos_of(nodes.drop_first(), l);
    }
}

proof fn lemma_edge_ends_contains(es: Seq<Traverse>, k: int)
    requires
        0 <= k < es.len(),
    ensures
        edge_ends(es).contains(es[k].from),
        edge_ends(es).contains(es[k].to),
    decreases es.len(),
{
    let e = edge_ends(es);
    let d = edge_ends(es.drop_last());
    if k == es.len() - 1 {
        assert(e[d.len() as int] == es[k].from);
        assert(e[d.len() as int + 1] == es[k].to);
    } else {
        lemma_edge_ends_contains(es.drop_last(), k);
        let i = choose|i: int| 0 <= i < d.len() && d[i] == es[k].from;
        let j = choose|j: int| 0 <= j < d.len() && d[j] == es[k].to;
        assert(e[i] == d[i]);
        assert(e[j] == d[j]);
    }
}

proof fn lemma_within_ends_contains(ws: Seq<Within>, k: int)
    requires
        0 <= k < ws.len(),
    ensures
        within_ends(ws).contains(ws[k].child),
        within_ends(ws).contains(ws[k].parent),
    decreases ws.len(),
{
    let e = within_ends(ws);
    let d = within_ends(ws.drop_last());
    if k == ws.len() - 1 {
        assert(e[d.len() as int] == ws[k].child);
        assert(e[d.len() as int + 1] == ws[k].parent);
    } else {
        lemma_within_ends_contains(ws.drop_last(), k);
        let i = choose|i: int| 0 <= i < d.len() && d[i] == ws[k].child;
        let j = choose|j: int| 0 <= j < d.len() && d[j] == ws[k].parent;
        assert(e[i] == d[i]);
        assert(e[j] == d[j]);
    }
}

proof fn lemma_edges_total_append(a: Seq<(usize, usize, i64)>, b: Seq<(usize, usize, i64)>)
    ensures
        edges_abs_total(a + b) == edges_abs_total(a) + edges_abs_total(b),
    decreases b.len(),
{
    if b.len() > 0 {
        assert((a + b).drop_last() =~= a + b.drop_last());
        lemma_edges_total_append(a, b.drop_last());
    } else {
        assert(a + b =~= a);
    }
}

proof fn lemma_connector_total(nodes: Seq<LocationId>, ws: Seq<Within>)
    ensures
        edges_abs_total(connector_edges(nodes, ws)) == 0,
    decreases ws.len(),
{
    if ws.len() > 0 {
        lemma_connector_total(nodes, ws.drop_last());
        let c = pos_of(nodes, ws.last().child) as usize;
        let p = pos_of(nodes, ws.last().parent) as usize;
        lemma_edges_total_append(connector_edges(nodes, ws.drop_last()), seq![(c, p, 0i64), (p, c, 0i64)]);
        assert(seq![(c, p, 0i64), (p, c, 0i64)].drop_last() =~= seq![(c, p, 0i64)]);
        assert(seq![(c, p, 0i64)].drop_last() =~= Seq::<(usize, usize, i64)>::empty());
        assert(edges_abs_total(Seq::<(usize, usize, i64)>::empty()) == 0);
        assert(edges_abs_total(seq![(c, p, 0i64)]) == 0);
        assert(edges_abs_total(seq![(c, p, 0i64), (p, c, 0i64)]) == 0);
    }
}

proof fn lemma_mapped_total(nodes: Seq<LocationId>, es: Seq<Traverse>)
    ensures
        edges_abs_total(edges_with(nodes, es)) == traverse_abs_total(es),
    decreases es.len(),
{
    if es.len() > 0 {
        assert(edges_with(nodes, es).drop_last() =~= edges_with(nodes, es.drop_last()));
        lemma_mapped_total(nodes, es.drop_last());
    }
}

proof fn lemma_mode_edges_total(ts: Seq<Traverse>, m: Seq<char>)
    ensures
        traverse_abs_total(mode_edges(ts, m)) <= traverse_abs_total(ts),
    decreases ts.len(),
{
    if ts.len() > 0 {
        let p = of_mode(m);
        lemma_mode_edges_total(ts.drop_last(), m);
        assert(ts =~= ts.drop_last().push(ts.last()));
        ts.drop_last().lemma_filter_push(ts.last(), p);
        if p(ts.last()) {
            assert(ts.filter(p).drop_last() =~= ts.drop_last().filter(p));
        }
    }
}

/// The bridged network of a mode stays within the weight bound of the
/// whole traverse network.
proof fn lemma_mode_totals(ts: Seq<Traverse>, ws: Seq<Within>, m: Seq<char>)
    ensures
        edges_abs_total(real_edges(mode_edges(ts, m))) <= traverse_abs_total(ts),
        edges_abs_total(bridged_edges(mode_edges(ts, m), ws)) <= traverse_abs_total(ts),
{
    let es = mode_edges(ts, m);
    lemma_mode_edges_total(ts, m);
    lemma_mapped_total(real_nodes(es), es);
    lemma_connector_total(bridged_nodes(es, ws), ws);
    lemma_edges_total_append(real_edges(es), connector_edges(bridged_nodes(es, ws), ws));
}

// ------------------------------------------------------------ closure code

/// Position of `l` among `nodes`, if present.
fn position(nodes: &Vec<LocationId>, l: LocationId) -> (r: Option<usize>)
    ensures
        r is Some <==> nodes@.contains(l),
        r matches Some(i) ==> i == pos_of(nodes@, l) && i < nodes@.len(),
{
    let mut i: usize = 0;
    assert(nodes@.skip(0) =~= nodes@);
    while i < nodes.len()
        invariant
            i <= nodes@.len(),
            forall|k: int| 0 <= k < i ==> nodes@[k] != l,
            pos_of(nodes@, l) == i + pos_of(nodes@.skip(i as int), l),
        decreases nodes@.len() - i,
    {
        if nodes[i] == l {
            assert(nodes@.skip(i as int)[0] == l);
            return Some(i);
        }
        assert(nodes@.skip(i as int).drop_first() =~= nodes@.skip(i + 1));
        i += 1;
    }
    None
}

/// Append `l` unless present.
fn add_node(nodes: &mut Vec<LocationId>, l: LocationId)
    ensures
        final(nodes)@ == (if old(nodes)@.contains(l) {
            old(nodes)@
        } else {
            old(nodes)@.push(l)
        }),
{
    if position(nodes, l).is_none() {
        nodes.push(l);
    }
}

/// The traverse edges of one mode, in order.
fn edges_of_mode(ts: &[Traverse], mode: &Mode) -> (r: Vec<Traverse>)
    ensures
        r@ == mode_edges(ts@, mode.0@),
{
    let ghost p = of_mode(mode.0@);
    let mut out: Vec<Traverse> = Vec::new();
    let mut i: usize = 0;
    while i < ts.len()
        invariant
            i <= ts@.len(),
            p == of_mode(mode.0@),
            out@ == ts@.take(i as int).filter(p),
        decreases ts@.len() - i,
    {
        let t = &ts[i];
        proof {
            assert(ts@.take(i + 1) =~= ts@.take(i as int).push(ts@[i as int]));
            ts@.take(i as int).lemma_filter_push(ts@[i as int], p);
        }
        if t.mode.0 == mode.0 {
            out.push(t.clone());
        }
        i += 1;
    }
    assert(ts@.take(ts@.len() as int) =~= ts@);
    out
}

/// Every edge endpoint names a node.
pub open spec fn edges_in_range(edges: Seq<(usize, usize, i64)>, n: int) -> bool {
    forall|k: int| 0 <= k < edges.len() ==> (#[trigger] edges[k]).0 < n && edges[k].1 < n
}

/// The real network of a mode: its nodes and weighted edges.
fn real_graph(es: &Vec<Traverse>) -> (r: (Vec<LocationId>, Vec<(usize, usize, i64)>))
    ensures
        r.0@ == real_nodes(es@),
        r.1@ == real_edges(es@),
        edges_in_range(r.1@, r.0@.len() as int),
{
    let mut nodes: Vec<LocationId> = Vec::new();
    let mut i: usize = 0;
    while i < es.len()
        invariant
            i <= es@.len(),
            nodes@ == add_nodes(seq![], edge_ends(es@.take(i as int))),
        decreases es@.len() - i,
    {
        let ghost n0 = nodes@;
        add_node(&mut nodes, es[i].from);
        add_node(&mut nodes, es[i].to);
        proof {
            let a = edge_ends(es@.take(i as int));
            let x = es@[i as int].from;
            let y = es@[i as int].to;
            assert(es@.take(i + 1).drop_last() =~= es@.take(i as int));
            assert(edge_ends(es@.take(i + 1)) == a + seq![x, y]);
            assert(a + seq![x, y] =~= a.push(x).push(y));
            assert(a.push(x).push(y).drop_last() =~= a.push(x));
            assert(a.push(x).drop_last() =~= a);
            let s0: Seq<LocationId> = seq![];
            let na = add_nodes(s0, a);
            assert(add_nodes(s0, a.push(x)) == (if na.contains(x) { na } else { na.push(x) }));
            let nx = add_nodes(s0, a.push(x));
            assert(add_nodes(s0, a.push(x).push(y)) == (if nx.contains(y) { nx } else { nx.push(y) }));
        }
        i += 1;
    }
    assert(es@.take(es@.len() as int) =~= es@);
    proof {
        lemma_add_nodes_contains(seq![], edge_ends(es@));
    }
    let mut edges: Vec<(usize, usize, i64)> = Vec::new();
    let mut k: usize = 0;
    while k < es.len()
        invariant
            k <= es@.len(),
            nodes@ == real_nodes(es@),
            forall|x: LocationId| #[trigger] nodes@.contains(x) <==> edge_ends(es@).contains(x),
            edges@ == edges_with(nodes@, es@.take(k as int)),
            edges_in_range(edges@, nodes@.len() as int),
        decreases es@.len() - k,
    {
        proof {
            lemma_edge_ends_contains(es@, k as int);
        }
        let a = position(&nodes, es[k].from).unwrap();
        let b = position(&nodes, es[k].to).unwrap();
        edges.push((a, b, es[k].duration_typical_s));
        assert(edges@ =~= edges_with(nodes@, es@.take(k + 1)));
        k += 1;
    }
    assert(es@.take(es@.len() as int) =~= es@);
    (nodes, edges)
}

/// The network of a mode with zero-cost connectors joined.
fn bridged_graph(es: &Vec<Traverse>, ws: &[Within], nodes1: Vec<LocationId>, edges1: Vec<(usize, usize, i64)>) -> (r: (Vec<LocationId>, Vec<(usize, usize, i64)>))
    requires
        nodes1@ == real_nodes(es@),
        edges1@ == real_edges(es@),
        edges_in_range(edges1@, nodes1@.len() as int),
    ensures
        r.0@ == bridged_nodes(es@, ws@),
        r.1@ == bridged_edges(es@, ws@),
        edges_in_range(r.1@, r.0@.len() as int),
{
    let ghost n1 = nodes1@;
    let ghost e1 = edges1@;
    let mut nodes = nodes1;
    let mut i: usize = 0;
    assert(ws@.take(0) =~= Seq::<Within>::empty());
    while i < ws.len()
        invariant
            i <= ws@.len(),
            nodes@ == add_nodes(real_nodes(es@), within_ends(ws@.take(i as int))),
        decreases ws@.len() - i,
    {
        add_node(&mut nodes, ws[i].child);
        add_node(&mut nodes, ws[i].parent);
        proof {
            let a = within_ends(ws@.take(i as int));
            let x = ws@[i as int].child;
            let y = ws@[i as int].parent;
            assert(ws@.take(i + 1).drop_last() =~= ws@.take(i as int));
            assert(within_ends(ws@.take(i + 1)) == a + seq![x, y]);
            assert(a + seq![x, y] =~= a.push(x).push(y));
            assert(a.push(x).push(y).drop_last() =~= a.push(x));
            assert(a.push(x).drop_last() =~= a);
            let s0 = real_nodes(es@);
            let na = add_nodes(s0, a);
            assert(add_nodes(s0, a.push(x)) == (if na.contains(x) { na } else { na.push(x) }));
            let nx = add_nodes(s0, a.push(x));
            assert(add_nodes(s0, a.push(x).push(y)) == (if nx.contains(y) { nx } else { nx.push(y) }));
        }
        i += 1;
    }
    assert(ws@.take(ws@.len() as int) =~= ws@);
    proof {
        lemma_add_nodes_contains(real_nodes(es@), within_ends(ws@));
    }
    let mut edges = edges1;
    let mut k: usize = 0;
    assert(ws@.take(0) =~= Seq::<Within>::empty());
    assert(edges@ =~= real_edges(es@) + connector_edges(nodes@, ws@.take(0)));
    proof {
        lemma_add_nodes_len(real_nodes(es@), within_ends(ws@));
    }
    while k < ws.len()
        invariant
            k <= ws@.len(),
            nodes@ == bridged_nodes(es@, ws@),
            forall|x: LocationId| #[trigger] nodes@.contains(x) <==> real_nodes(es@).contains(x) || within_ends(ws@).contains(x),
            edges@ == real_edges(es@) + connector_edges(nodes@, ws@.take(k as int)),
            edges_in_range(edges@, nodes@.len() as int),
        decreases ws@.len() - k,
    {
        proof {
            lemma_within_ends_contains(ws@, k as int);
        }
        let c = position(&nodes, ws[k].child).unwrap();
        let p = position(&nodes, ws[k].parent).unwrap();
        edges.push((c, p, 0i64));
        edges.push((p, c, 0i64));
        proof {
            assert(ws@.take(k + 1).drop_last() =~= ws@.take(k as int));
            assert(edges@ =~= real_edges(es@) + connector_edges(nodes@, ws@.take(k + 1)));
        }
        k += 1;
    }
    assert(ws@.take(ws@.len() as int) =~= ws@);
    (nodes, edges)
}

proof fn lemma_add_nodes_len(nodes: Seq<LocationId>, locs: Seq<LocationId>)
    ensures
        nodes.len() <= add_nodes(nodes, locs).len(),
    decreases locs.len(),
{
    if locs.len() > 0 {
        lemma_add_nodes_len(nodes, locs.drop_last());
    }
}

/// Real-network costs for every ordered pair of targets.
fn pure_table(es: &Vec<Traverse>, nodes: &Vec<LocationId>, edges: &Vec<(usize, usize, i64)>, targets: &[LocationId]) -> (r: Vec<Vec<Option<i64>>>)
    requires
        nodes@ == real_nodes(es@),
        edges@ == real_edges(es@),
        edges_in_range(edges@, nodes@.len() as int),
        edges_abs_total(edges@) <= i64::MAX,
    ensures
        r@.len() == targets@.len(),
        forall|f: int| 0 <= f < targets@.len() ==> (#[trigger] r@[f])@.len() == targets@.len(),
        forall|f: int, t: int| 0 <= f < targets@.len() && 0 <= t < targets@.len() ==> #[trigger] r@[f]@[t]
            == pure_cost(es@, targets@[f], targets@[t]),
        real_shortest(es@, targets@),
{
    let mut table: Vec<Vec<Option<i64>>> = Vec::new();
    let mut fi: usize = 0;
    while fi < targets.len()
        invariant
            fi <= targets@.len(),
            forall|f: int| 0 <= f < fi ==> #[trigger] real_source_shortest(es@, targets@[f]),
            nodes@ == real_nodes(es@),
            edges@ == real_edges(es@),
            edges_in_range(edges@, nodes@.len() as int),
            edges_abs_total(edges@) <= i64::MAX,
            table@.len() == fi,
            forall|f: int| 0 <= f < fi ==> (#[trigger] table@[f])@.len() == targets@.len(),
            forall|f: int, t: int| 0 <= f < fi && 0 <= t < targets@.len() ==> #[trigger] table@[f]@[t]
                == pure_cost(es@, targets@[f], targets@[t]),
        decreases targets@.len() - fi,
    {
        let from = targets[fi];
        let src = position(nodes, from);
        let mut row: Vec<Option<i64>> = Vec::new();
        match src {
            Some(s) => {
                let costs = dijkstra_costs(nodes.len(), edges, s);
                let mut ti: usize = 0;
                while ti < targets.len()
                    invariant
                        ti <= targets@.len(),
                        nodes@ == real_nodes(es@),
                        edges@ == real_edges(es@),
                        nodes@.contains(from),
                        s == pos_of(nodes@, from),
                        costs@ == shortest_costs(nodes@.len(), edges@, s as nat),
                        costs@.len() == nodes@.len(),
                        row@.len() == ti,
                        forall|t: int| 0 <= t < ti ==> row@[t] == pure_cost(es@, from, targets@[t]),
                    decreases targets@.len() - ti,
                {
                    let to = targets[ti];
                    let v = if from != to {
                        match position(nodes, to) {
                            Some(d) => costs[d],
                            None => None,
                        }
                    } else {
                        None
                    };
                    row.push(v);
                    ti += 1;
                }
            },
            None => {
                let mut ti: usize = 0;
                while ti < targets.len()
                    invariant
                        ti <= targets@.len(),
                        nodes@ == real_nodes(es@),
                        !nodes@.contains(from),
                        row@.len() == ti,
                        forall|t: int| 0 <= t < ti ==> row@[t] == pure_cost(es@, from, targets@[t]),
                    decreases targets@.len() - ti,
                {
                    row.push(None);
                    ti += 1;
                }
            },
        }
        assert(real_source_shortest(es@, from));
        table.push(row);
        fi += 1;
    }
    table
}

/// When no weight of the real network of `es` is negative and `from` is
/// one of its nodes, the real-network costs from `from` are least walk
/// costs.
pub open spec fn real_source_shortest(es: Seq<Traverse>, from: LocationId) -> bool {
    let nodes = real_nodes(es);
    nonneg_weights(real_edges(es)) && nodes.contains(from) ==> shortest_from(
        nodes.len(),
        real_edges(es),
        pos_of(nodes, from) as nat,
        shortest_costs(nodes.len(), real_edges(es), pos_of(nodes, from) as nat),
    )
}

/// The real-network costs from every target are least walk costs, when no
/// weight is negative.
pub open spec fn real_shortest(es: Seq<Traverse>, targets: Seq<LocationId>) -> bool {
    forall|f: int| 0 <= f < targets.len() ==> #[trigger] real_source_shortest(es, targets[f])
}

/// Bridged costs for the ordered pairs the real network cannot serve.
fn bridge_table(es: &Vec<Traverse>, ws: &[Within], nodes: &Vec<LocationId>, edges: &Vec<(usize, usize, i64)>, targets: &[LocationId], pure: &Vec<Vec<Option<i64>>>) -> (r: Vec<Vec<Option<i64>>>)
    requires
        nodes@ == bridged_nodes(es@, ws@),
        edges@ == bridged_edges(es@, ws@),
        edges_in_range(edges@, nodes@.len() as int),
        edges_abs_total(edges@) <= i64::MAX,
        pure@.len() == targets@.len(),
        forall|f: int| 0 <= f < targets@.len() ==> (#[trigger] pure@[f])@.len() == targets@.len(),
        forall|f: int, t: int| 0 <= f < targets@.len() && 0 <= t < targets@.len() ==> #[trigger] pure@[f]@[t]
            == pure_cost(es@, targets@[f], targets@[t]),
    ensures
        r@.len() == targets@.len(),
        forall|f: int| 0 <= f < targets@.len() ==> (#[trigger] r@[f])@.len() == targets@.len(),
        forall|f: int, t: int| 0 <= f < targets@.len() && 0 <= t < targets@.len() ==> #[trigger] r@[f]@[t]
            == bridge_cost(es@, ws@, targets@, targets@[f], targets@[t]),
{
    let mut table: Vec<Vec<Option<i64>>> = Vec::new();
    let mut fi: usize = 0;
    while fi < targets.len()
        invariant
            fi <= targets@.len(),
            nodes@ == bridged_nodes(es@, ws@),
            edges@ == bridged_edges(es@, ws@),
            edges_in_range(edges@, nodes@.len() as int),
            edges_abs_total(edges@) <= i64::MAX,
            pure@.len() == targets@.len(),
            forall|f: int| 0 <= f < targets@.len() ==> (#[trigger] pure@[f])@.len() == targets@.len(),
            forall|f: int, t: int| 0 <= f < targets@.len() && 0 <= t < targets@.len() ==> #[trigger] pure@[f]@[t]
                == pure_cost(es@, targets@[f], targets@[t]),
            table@.len() == fi,
            forall|f: int| 0 <= f < fi ==> (#[trigger] table@[f])@.len() == targets@.len(),
            forall|f: int, t: int| 0 <= f < fi && 0 <= t < targets@.len() ==> #[trigger] table@[f]@[t]
                == bridge_cost(es@, ws@, targets@, targets@[f], targets@[t]),
        decreases targets@.len() - fi,
    {
        let from = targets[fi];
        let prow = &pure[fi];
        let mut need = false;
        let mut k: usize = 0;
        while k < targets.len()
            invariant
                k <= targets@.len(),
                prow@.len() == targets@.len(),
                forall|t: int| 0 <= t < targets@.len() ==> prow@[t] == pure_cost(es@, from, targets@[t]),
                need == exists|t: int| 0 <= t < k && #[trigger] targets@[t] != from && pure_cost(es@, from, targets@[t]) is None,
            decreases targets@.len() - k,
        {
            if targets[k] != from && prow[k].is_none() {
                need = true;
                assert(targets@[k as int] != from && pure_cost(es@, from, targets@[k as int]) is None);
            }
            k += 1;
        }
        assert(need == needs_bridge(es@, targets@, from));
        let src = if need {
            position(nodes, from)
        } else {
            None
        };
        let mut row: Vec<Option<i64>> = Vec::new();
        match src {
            Some(s) => {
                let costs = dijkstra_costs(nodes.len(), edges, s);
                let mut ti: usize = 0;
                while ti < targets.len()
                    invariant
                        ti <= targets@.len(),
                        nodes@ == bridged_nodes(es@, ws@),
                        edges@ == bridged_edges(es@, ws@),
                        nodes@.contains(from),
                        need == needs_bridge(es@, targets@, from),
                        need,
                        s == pos_of(nodes@, from),
                        costs@ == shortest_costs(nodes@.len(), edges@, s as nat),
                        costs@.len() == nodes@.len(),
                        prow@.len() == targets@.len(),
                        forall|t: int| 0 <= t < targets@.len() ==> prow@[t] == pure_cost(es@, from, targets@[t]),
                        row@.len() == ti,
                        forall|t: int| 0 <= t < ti ==> row@[t] == bridge_cost(es@, ws@, targets@, from, targets@[t]),
                    decreases targets@.len() - ti,
                {
                    let to = targets[ti];
                    let v = if from != to && prow[ti].is_none() {
                        match position(nodes, to) {
                            Some(d) => costs[d],
                            None => None,
                        }
                    } else {
                        None
                    };
                    row.push(v);
                    ti += 1;
                }
            },
            None => {
                let mut ti: usize = 0;
                while ti < targets.len()
                    invariant
                        ti <= targets@.len(),
                        nodes@ == bridged_nodes(es@, ws@),
                        !(need && nodes@.contains(from)),
                        need == needs_bridge(es@, targets@, from),
                        row@.len() == ti,
                        forall|t: int| 0 <= t < ti ==> row@[t] == bridge_cost(es@, ws@, targets@, from, targets@[t]),
                    decreases targets@.len() - ti,
                {
                    row.push(None);
                    ti += 1;
                }
            },
        }
        table.push(row);
        fi += 1;
    }
    table
}

/// The first cheapest direct edge `from -> to`: its duration and
/// provenance.
fn direct_of(es: &Vec<Traverse>, from: LocationId, to: LocationId) -> (r: Option<(i64, TravelProvenance)>)
    ensures
        r == (match direct_edge(es@, from, to) {
            Some(d) => Some((d.duration_typical_s, d.provenance)),
            None => None,
        }),
{
    let mut best: Option<(i64, TravelProvenance)> = None;
    let mut i: usize = 0;
    while i < es.len()
        invariant
            i <= es@.len(),
            best == (match direct_edge(es@.take(i as int), from, to) {
                Some(d) => Some((d.duration_typical_s, d.provenance)),
                None => None,
            }),
        decreases es@.len() - i,
    {
        let t = &es[i];
        assert(es@.take(i + 1).drop_last() =~= es@.take(i as int));
        assert(es@.take(i + 1).last() == es@[i as int]);
        if t.from == from && t.to == to {
            let better = match best {
                None => true,
                Some((d, _)) => t.duration_typical_s < d,
            };
            if better {
                best = Some((t.duration_typical_s, t.provenance));
            }
        }
        i += 1;
    }
    assert(es@.take(es@.len() as int) =~= es@);
    best
}

/// The closure entry for `from -> to` of mode `m`, given the pair's
/// shortest cost over the real network `p` and over the bridged network
/// `b`: none for a pair of one location or with neither cost; the real
/// cost when there is one, else the bridged one. A direct edge of `es`
/// with that cost donates its provenance to an unbridged entry; every
/// other entry is an estimate.
pub open spec fn entry_from_costs(
    es: Seq<Traverse>,
    m: Seq<char>,
    from: LocationId,
    to: LocationId,
    p: Option<i64>,
    b: Option<i64>,
    at: Timestamp,
) -> Option<ClosureRow> {
    if from == to {
        None
    } else {
        let (cost, via) = match p {
            Some(c) => (Some(c), false),
            None => (b, true),
        };
        match cost {
            None => None,
            Some(c) => {
                let provenance = match direct_edge(es, from, to) {
                    Some(d) => if !via && d.duration_typical_s == c {
                        d.provenance
                    } else {
                        TravelProvenance::Estimated
                    },
                    None => TravelProvenance::Estimated,
                };
                Some(ClosureRow { from, to, mode: m, duration_s: c, provenance, computed_at: at })
            },
        }
    }
}

/// Entries for source `targets[f]` against the first `n` targets, from the
/// cost tables `pure` and `bridged` (row per source, column per target).
pub open spec fn table_rows_from(
    es: Seq<Traverse>,
    targets: Seq<LocationId>,
    m: Seq<char>,
    pure: Seq<Vec<Option<i64>>>,
    bridged: Seq<Vec<Option<i64>>>,
    f: int,
    at: Timestamp,
    n: int,
) -> Seq<ClosureRow>
    decreases n,
{
    if n <= 0 {
        seq![]
    } else {
        table_rows_from(es, targets, m, pure, bridged, f, at, n - 1) + match entry_from_costs(
            es,
            m,
            targets[f],
            targets[n - 1],
            pure[f]@[n - 1],
            bridged[f]@[n - 1],
            at,
        ) {
            Some(r) => seq![r],
            None => seq![],
        }
    }
}

/// Entries of the first `n` sources, from the cost tables.
pub open spec fn table_rows(
    es: Seq<Traverse>,
    targets: Seq<LocationId>,
    m: Seq<char>,
    pure: Seq<Vec<Option<i64>>>,
    bridged: Seq<Vec<Option<i64>>>,
    at: Timestamp,
    n: int,
) -> Seq<ClosureRow>
    decreases n,
{
    if n <= 0 {
        seq![]
    } else {
        table_rows(es, targets, m, pure, bridged, at, n - 1) + table_rows_from(
            es,
            targets,
            m,
            pure,
            bridged,
            n - 1,
            at,
            targets.len() as int,
        )
    }
}

/// Entries of one source, from tables of the mode's true costs, are the
/// closure's rows of that source.
proof fn lemma_table_rows_from(
    es: Seq<Traverse>,
    ws: Seq<Within>,
    targets: Seq<LocationId>,
    m: Seq<char>,
    pure: Seq<Vec<Option<i64>>>,
    bridged: Seq<Vec<Option<i64>>>,
    f: int,
    at: Timestamp,
    n: int,
)
    requires
        0 <= f < targets.len(),
        0 <= n <= targets.len(),
        pure.len() == targets.len(),
        bridged.len() == targets.len(),
        forall|t: int| 0 <= t < targets.len() ==> #[trigger] pure[f]@[t] == pure_cost(es, targets[f], targets[t]),
        forall|t: int| 0 <= t < targets.len() ==> #[trigger] bridged[f]@[t] == bridge_cost(es, ws, targets, targets[f], targets[t]),
    ensures
        table_rows_from(es, targets, m, pure, bridged, f, at, n) == rows_from(es, ws, targets, m, targets[f], at, n),
    decreases n,
{
    if n > 0 {
        lemma_table_rows_from(es, ws, targets, m, pure, bridged, f, at, n - 1);
        assert(pure[f]@[n - 1] == pure_cost(es, targets[f], targets[n - 1]));
        assert(bridged[f]@[n - 1] == bridge_cost(es, ws, targets, targets[f], targets[n - 1]));
        assert(entry_from_costs(es, m, targets[f], targets[n - 1], pure[f]@[n - 1], bridged[f]@[n - 1], at) == pair_row(
            es,
            ws,
            targets,
            m,
            targets[f],
            targets[n - 1],
            at,
        ));
    }
}

/// Entries from tables of the mode's true costs are the closure's rows.
proof fn lemma_table_rows(
    es: Seq<Traverse>,
    ws: Seq<Within>,
    targets: Seq<LocationId>,
    m: Seq<char>,
    pure: Seq<Vec<Option<i64>>>,
    bridged: Seq<Vec<Option<i64>>>,
    at: Timestamp,
    n: int,
)
    requires
        0 <= n <= targets.len(),
        pure.len() == targets.len(),
        bridged.len() == targets.len(),
        forall|f: int, t: int| 0 <= f < targets.len() && 0 <= t < targets.len() ==> #[trigger] pure[f]@[t]
            == pure_cost(es, targets[f], targets[t]),
        forall|f: int, t: int| 0 <= f < targets.len() && 0 <= t < targets.len() ==> #[trigger] bridged[f]@[t]
            == bridge_cost(es, ws, targets, targets[f], targets[t]),
    ensures
        table_rows(es, targets, m, pure, bridged, at, n) == rows_upto(es, ws, targets, m, at, n),
    decreases n,
{
    if n > 0 {
        lemma_table_rows(es, ws, targets, m, pure, bridged, at, n - 1);
        assert forall|t: int| 0 <= t < targets.len() implies #[trigger] pure[n - 1]@[t] == pure_cost(es, targets[n - 1], targets[t]) by {
            assert(pure[n - 1]@[t] == pure_cost(es, targets[n - 1], targets[t]));
        }
        assert forall|t: int| 0 <= t < targets.len() implies #[trigger] bridged[n - 1]@[t] == bridge_cost(
            es,
            ws,
            targets,
            targets[n - 1],
            targets[t],
        ) by {
            assert(bridged[n - 1]@[t] == bridge_cost(es, ws, targets, targets[n - 1], targets[t]));
        }
        lemma_table_rows_from(es, ws, targets, m, pure, bridged, n - 1, at, targets.len() as int);
    }
}

/// The closure entries of one mode from its cost tables: `pure[f][t]` is
/// the cost `targets[f] -> targets[t]` over the mode's real network and
/// `bridged[f][t]` the cost over the network bridged by containment
/// connectors. Sources in target order, then targets in target order.
pub fn rows_from_costs(
    es: &Vec<Traverse>,
    targets: &[LocationId],
    mode: &Mode,
    at: Timestamp,
    pure: &Vec<Vec<Option<i64>>>,
    bridged: &Vec<Vec<Option<i64>>>,
) -> (r: Vec<ClosureEntry>)
    requires
        pure@.len() == targets@.len(),
        bridged@.len() == targets@.len(),
        forall|f: int| 0 <= f < targets@.len() ==> (#[trigger] pure@[f])@.len() == targets@.len(),
        forall|f: int| 0 <= f < targets@.len() ==> (#[trigger] bridged@[f])@.len() == targets@.len(),
    ensures
        r@.map_values(|e: ClosureEntry| row_of(e)) == table_rows(es@, targets@, mode.0@, pure@, bridged@, at, targets@.len() as int),
{
    let ghost m = mode.0@;
    let ghost rowf = |e: ClosureEntry| row_of(e);
    let mut out: Vec<ClosureEntry> = Vec::new();
    let mut fi: usize = 0;
    while fi < targets.len()
        invariant
            fi <= targets@.len(),
            m == mode.0@,
            rowf == (|e: ClosureEntry| row_of(e)),
            pure@.len() == targets@.len(),
            bridged@.len() == targets@.len(),
            forall|f: int| 0 <= f < targets@.len() ==> (#[trigger] pure@[f])@.len() == targets@.len(),
            forall|f: int| 0 <= f < targets@.len() ==> (#[trigger] bridged@[f])@.len() == targets@.len(),
            out@.map_values(rowf) == table_rows(es@, targets@, m, pure@, bridged@, at, fi as int),
        decreases targets@.len() - fi,
    {
        let from = targets[fi];
        let ghost base = out@.map_values(rowf);
        let mut ti: usize = 0;
        while ti < targets.len()
            invariant
                ti <= targets@.len(),
                fi < targets@.len(),
                from == targets@[fi as int],
                m == mode.0@,
                rowf == (|e: ClosureEntry| row_of(e)),
                pure@.len() == targets@.len(),
                bridged@.len() == targets@.len(),
                forall|f: int| 0 <= f < targets@.len() ==> (#[trigger] pure@[f])@.len() == targets@.len(),
                forall|f: int| 0 <= f < targets@.len() ==> (#[trigger] bridged@[f])@.len() == targets@.len(),
                out@.map_values(rowf) == base + table_rows_from(es@, targets@, m, pure@, bridged@, fi as int, at, ti as int),
            decreases targets@.len() - ti,
        {
            let to = targets[ti];
            assert(pure@[fi as int]@.len() == targets@.len());
            assert(bridged@[fi as int]@.len() == targets@.len());
            let p = pure[fi][ti];
            let b = bridged[fi][ti];
            let ghost before = out@;
            if from != to {
                let found = match p {
                    Some(c) => Some((c, false)),
                    None => match b {
                        Some(c) => Some((c, true)),
                        None => None,
                    },
                };
                if let Some((cost, via_bridge)) = found {
                    let provenance = match direct_of(es, from, to) {
                        Some((d, prov)) => {
                            if !via_bridge && d == cost {
                                prov
                            } else {
                                TravelProvenance::Estimated
                            }
                        },
                        None => TravelProvenance::Estimated,
                    };
                    let e = ClosureEntry { from, to, mode: mode.clone(), duration_s: cost, provenance, computed_at: at };
                    out.push(e);
                    assert(out@.map_values(rowf) =~= before.map_values(rowf).push(row_of(e)));
                    assert(entry_from_costs(es@, m, from, to, p, b, at) == Some(row_of(e)));
                }
            }
            assert(table_rows_from(es@, targets@, m, pure@, bridged@, fi as int, at, ti + 1) == table_rows_from(
                es@,
                targets@,
                m,
                pure@,
                bridged@,
                fi as int,
                at,
                ti as int,
            ) + match entry_from_costs(es@, m, from, targets@[ti as int], p, b, at) {
                Some(r) => seq![r],
                None => seq![],
            });
            assert(out@.map_values(rowf) =~= base + table_rows_from(es@, targets@, m, pure@, bridged@, fi as int, at, ti + 1));
            ti += 1;
        }
        fi += 1;
    }
    out
}

/// The closure entries of one mode.
fn closure_for_mode(ts: &[Traverse], ws: &[Within], targets: &[LocationId], mode: &Mode, at: Timestamp) -> (r: Vec<ClosureEntry>)
    requires
        traverse_abs_total(ts@) <= i64::MAX,
    ensures
        r@.map_values(|e: ClosureEntry| row_of(e)) == rows_upto(mode_edges(ts@, mode.0@), ws@, targets@, mode.0@, at, targets@.len() as int),
        real_shortest(mode_edges(ts@, mode.0@), targets@),
{
    let es = edges_of_mode(ts, mode);
    proof {
        lemma_mode_totals(ts@, ws@, mode.0@);
    }
    let (nodes1, edges1) = real_graph(&es);
    let pure = pure_table(&es, &nodes1, &edges1, targets);
    let (nodes2, edges2) = bridged_graph(&es, ws, nodes1, edges1);
    let bridged = bridge_table(&es, ws, &nodes2, &edges2, targets, &pure);
    let out = rows_from_costs(&es, targets, mode, at, &pure, &bridged);
    proof {
        lemma_table_rows(es@, ws@, targets@, mode.0@, pure@, bridged@, at, targets@.len() as int);
    }
    out
}

/// The distinct modes of the traverse network, in string order.
fn distinct_modes(ts: &[Traverse]) -> (r: Vec<Mode>)
    ensures
        r@.map_values(|m: Mode| m.0@) == modes_spec(ts@),
{
    let ghost kf = |md: Mode| mode_key(md.0@);
    let mut keyed: Vec<(Vec<u128>, Mode)> = Vec::new();
    let mut i: usize = 0;
    while i < ts.len()
        invariant
            i <= ts@.len(),
            kf == (|md: Mode| mode_key(md.0@)),
            keyed_by(keyed@, kf),
            payloads(keyed@).map_values(|m: Mode| m.0@) == ts@.take(i as int).map_values(|t: Traverse| t.mode.0@),
        decreases ts@.len() - i,
    {
        let md = ts[i].mode.clone();
        let bytes = md.0.as_str().as_bytes();
        let mut k: Vec<u128> = Vec::new();
        let mut j: usize = 0;
        while j < bytes.len()
            invariant
                j <= bytes@.len(),
                k@ == bytes@.take(j as int).map_values(|b: u8| b as u128),
            decreases bytes@.len() - j,
        {
            k.push(bytes[j] as u128);
            assert(k@ =~= bytes@.take(j + 1).map_values(|b: u8| b as u128));
            j += 1;
        }
        assert(bytes@.take(bytes@.len() as int) =~= bytes@);
        assert(k@ == mode_key(md.0@));
        let ghost before = keyed@;
        keyed.push((k, md));
        assert(payloads(keyed@) =~= payloads(before).push(md));
        assert(ts@.take(i + 1) =~= ts@.take(i as int).push(ts@[i as int]));
        assert(payloads(keyed@).map_values(|m: Mode| m.0@) =~= payloads(before).map_values(|m: Mode| m.0@).push(md.0@));
        i += 1;
    }
    assert(ts@.take(ts@.len() as int) =~= ts@);
    let ghost ks = payloads(keyed@);
    let sorted = sort_keyed(keyed, Ghost(kf));
    proof {
        crate::order::lemma_sort_map(ks, |m: Mode| m.0@, |m: Seq<char>| mode_key(m), kf);
    }
    let ghost sv = payloads(sorted@).map_values(|m: Mode| m.0@);
    assert(sv == stable_sort_by(ts@.map_values(|t: Traverse| t.mode.0@), |m: Seq<char>| mode_key(m)));
    let mut out: Vec<Mode> = Vec::new();
    let mut j: usize = 0;
    while j < sorted.len()
        invariant
            j <= sorted@.len(),
            sv == payloads(sorted@).map_values(|m: Mode| m.0@),
            out@.map_values(|m: Mode| m.0@) == dedup_runs(sv.take(j as int)),
            j > 0 ==> out@.len() > 0 && out@.last().0@ == sv[j - 1],
        decreases sorted@.len() - j,
    {
        let md = &sorted[j].1;
        assert(sv[j as int] == md.0@);
        assert(sv.take(j + 1).drop_last() =~= sv.take(j as int));
        let keep = if j == 0 {
            true
        } else {
            !(out[out.len() - 1].0 == md.0)
        };
        if keep {
            let ghost before = out@;
            out.push(md.clone());
            assert(out@.map_values(|m: Mode| m.0@) =~= before.map_values(|m: Mode| m.0@).push(md.0@));
        }
        proof {
            if j > 0 {
                assert(sv.take(j + 1)[j as int - 1] == sv[j - 1]);
            }
        }
        j += 1;
    }
    assert(sv.take(sorted@.len() as int) =~= sv);
    out
}

/// Per mode of the network, the real-network costs from every target are
/// least walk costs, when no weight of that mode is negative.
pub open spec fn closure_shortest(ts: Seq<Traverse>, targets: Seq<LocationId>) -> bool {
    forall|k: int| 0 <= k < modes_spec(ts).len() ==> #[trigger] real_shortest(mode_edges(ts, modes_spec(ts)[k]), targets)
}

/// Closure costs are shortest: where the closure of `ts` over `targets`
/// stands (`compute_closure` ensures `closure_shortest`), for a mode of
/// the network with no negative duration and two distinct targets on its
/// real network, the real-network cost between them is the least summed
/// duration of a walk from one to the other, and there is none exactly
/// when no walk connects them.
pub proof fn lemma_real_cost_is_shortest(ts: Seq<Traverse>, targets: Seq<LocationId>, k: int, f: int, t: int)
    requires
        closure_shortest(ts, targets),
        0 <= k < modes_spec(ts).len(),
        0 <= f < targets.len(),
        0 <= t < targets.len(),
        targets[f] != targets[t],
        nonneg_weights(real_edges(mode_edges(ts, modes_spec(ts)[k]))),
        real_nodes(mode_edges(ts, modes_spec(ts)[k])).contains(targets[f]),
        real_nodes(mode_edges(ts, modes_spec(ts)[k])).contains(targets[t]),
    ensures
        ({
            let es = mode_edges(ts, modes_spec(ts)[k]);
            let nodes = real_nodes(es);
            let src = pos_of(nodes, targets[f]) as nat;
            let dst = pos_of(nodes, targets[t]) as nat;
            match pure_cost(es, targets[f], targets[t]) {
                Some(c) => (exists|p: Seq<int>| #[trigger] is_walk(real_edges(es), src, dst, p) && walk_cost(real_edges(es), p) == c)
                    && (forall|p: Seq<int>| #[trigger] is_walk(real_edges(es), src, dst, p) ==> c <= walk_cost(real_edges(es), p)),
                None => forall|p: Seq<int>| !#[trigger] is_walk(real_edges(es), src, dst, p),
            }
        }),
{
    let es = mode_edges(ts, modes_spec(ts)[k]);
    let nodes = real_nodes(es);
    assert(real_shortest(es, targets));
    assert(real_source_shortest(es, targets[f]));
    lemma_pos_of(nodes, targets[t]);
    let costs = shortest_costs(nodes.len(), real_edges(es), pos_of(nodes, targets[f]) as nat);
    assert(costs[pos_of(nodes, targets[t])] == pure_cost(es, targets[f], targets[t]));
}

/// The travel closure from the traverse network. Pure: `computed_at` is
/// caller-supplied. Per mode, shortest costs over the real network are
/// authoritative; zero-cost containment connectors only bridge the pairs
/// the real network cannot reach. Entries are `Estimated` unless an
/// unbridged cost equals a direct edge of that mode, which donates its
/// provenance.
pub fn compute_closure(traverse: &[Traverse], within: &[Within], targets: &[LocationId], computed_at: Timestamp) -> (r: Vec<ClosureEntry>)
    requires
        traverse_abs_total(traverse@) <= i64::MAX,
    ensures
        r@.map_values(|e: ClosureEntry| row_of(e)) == closure_spec(traverse@, within@, targets@, computed_at),
        closure_shortest(traverse@, targets@),
{
    let modes = distinct_modes(traverse);
    let ghost mv = modes@.map_values(|m: Mode| m.0@);
    let ghost rowf = |e: ClosureEntry| row_of(e);
    let mut entries: Vec<ClosureEntry> = Vec::new();
    let mut i: usize = 0;
    while i < modes.len()
        invariant
            i <= modes@.len(),
            mv == modes@.map_values(|m: Mode| m.0@),
            mv == modes_spec(traverse@),
            traverse_abs_total(traverse@) <= i64::MAX,
            rowf == (|e: ClosureEntry| row_of(e)),
            entries@.map_values(rowf) == modes_rows(traverse@, within@, targets@, mv, computed_at, i as int),
            forall|k: int| 0 <= k < i ==> #[trigger] real_shortest(mode_edges(traverse@, mv[k]), targets@),
        decreases modes@.len() - i,
    {
        let mut part = closure_for_mode(traverse, within, targets, &modes[i], computed_at);
        let ghost before = entries@;
        let ghost pv = part@;
        entries.append(&mut part);
        assert(entries@.map_values(rowf) =~= before.map_values(rowf) + pv.map_values(rowf));
        assert(mv[i as int] == modes@[i as int].0@);
        i += 1;
    }
    entries
}

} // verus!
