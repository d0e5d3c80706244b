use orrery::interval::{Interval, Timestamp};
use orrery::model::{EventId, LocationId, Mode, PersonId, TravelCost, TravelProvenance, Traverse, Within};
use orrery::travel::{compute_closure, feasible, rows_from_costs, whole_seconds, Feasibility, Placed};

fn trav(from: LocationId, to: LocationId, s: i64) -> Traverse {
    Traverse {
        from,
        to,
        mode: Mode("walk".into()),
        duration_typical_s: s,
        duration_peak_s: None,
        peak_window: None,
        distance_m: None,
        provenance: TravelProvenance::Measured,
        computed_at: Timestamp(0),
        sibling_override: false,
    }
}

#[test]
fn closure_restricted_to_targets_and_idempotent() {
    let (ra, rb, bx, by) = (LocationId::new(), LocationId::new(), LocationId::new(), LocationId::new());
    let traverse = vec![trav(bx, by, 300), trav(by, bx, 300)];
    let within = vec![Within { child: ra, parent: bx }, Within { child: rb, parent: by }];
    let c1 = compute_closure(&traverse, &within, &[ra, rb], Timestamp(0));
    assert_eq!(c1.len(), 2, "ra→rb and rb→ra only: {c1:?}");
    assert!(c1.iter().all(|e| e.duration_s == 300));
    assert!(c1.iter().all(|e| e.provenance == TravelProvenance::Estimated));
    let c2 = compute_closure(&traverse, &within, &[ra, rb], Timestamp(0));
    assert_eq!(c1, c2, "idempotent on identical inputs");
}

/// A real room→room edge is not undercut by the zero-cost containment
/// connectors; the reverse direction (no real edge) is bridged and marked
/// Estimated.
#[test]
fn connectors_do_not_undercut_real_edges() {
    let (ra, rb, bx) = (LocationId::new(), LocationId::new(), LocationId::new());
    let traverse = vec![trav(ra, rb, 120)];
    let within = vec![Within { child: ra, parent: bx }, Within { child: rb, parent: bx }];
    let c = compute_closure(&traverse, &within, &[ra, rb], Timestamp(0));
    let ab = c.iter().find(|e| e.from == ra && e.to == rb).unwrap();
    assert_eq!(ab.duration_s, 120, "real edge wins over 0-cost shortcut");
    assert_eq!(ab.provenance, TravelProvenance::Measured);
    let ba = c.iter().find(|e| e.from == rb && e.to == ra).unwrap();
    assert_eq!(ba.duration_s, 0, "unreachable pair bridged (v1 approximation)");
    assert_eq!(ba.provenance, TravelProvenance::Estimated);
}

#[test]
fn direct_edge_donates_provenance() {
    let (a, b) = (LocationId::new(), LocationId::new());
    let traverse = vec![trav(a, b, 120)];
    let c = compute_closure(&traverse, &[], &[a, b], Timestamp(0));
    assert_eq!(c.len(), 1);
    assert_eq!(c[0].provenance, TravelProvenance::Measured);
}

#[test]
fn feasibility_verdicts() {
    let iv = |s: i64, e: i64| Interval::new(Timestamp(s), Timestamp(e)).unwrap();
    let m = 1_000_000i64;
    let (la, lb) = (LocationId::new(), LocationId::new());
    let a = Placed { event: EventId::new(), location: la, window: iv(0, 600 * m) };
    let b = Placed { event: EventId::new(), location: lb, window: iv(900 * m, 1500 * m) };

    let lookup = |cost: Option<i64>| {
        move |_: LocationId, _: LocationId| cost.map(|duration_s| TravelCost { duration_s, provenance: TravelProvenance::Measured })
    };
    let p = PersonId::new();
    assert_eq!(feasible(p, &a, &b, &lookup(Some(200))), Feasibility::Feasible { slack_s: 100 });
    assert_eq!(
        feasible(p, &a, &b, &lookup(Some(400))),
        Feasibility::Infeasible { deficit_s: 100, provenance: TravelProvenance::Measured }
    );
    assert_eq!(feasible(p, &a, &b, &lookup(None)), Feasibility::Unknown);
}

#[test]
fn shortest_path_goes_through_intermediate_nodes() {
    let (a, b, c) = (LocationId::new(), LocationId::new(), LocationId::new());
    let traverse = vec![trav(a, b, 100), trav(b, c, 50), trav(a, c, 400)];
    let closure = compute_closure(&traverse, &[], &[a, c], Timestamp(7));
    assert_eq!(closure.len(), 1, "c cannot reach a: {closure:?}");
    assert_eq!(closure[0].from, a);
    assert_eq!(closure[0].to, c);
    assert_eq!(closure[0].duration_s, 150);
    assert_eq!(closure[0].provenance, TravelProvenance::Estimated, "the direct edge is not the shortest");
    assert_eq!(closure[0].computed_at, Timestamp(7));
}

#[test]
fn modes_are_kept_apart_and_ordered() {
    let (a, b) = (LocationId::new(), LocationId::new());
    let mut bike = trav(a, b, 60);
    bike.mode = Mode("bike".into());
    let traverse = vec![trav(a, b, 300), bike];
    let closure = compute_closure(&traverse, &[], &[a, b], Timestamp(0));
    assert_eq!(closure.len(), 2);
    assert_eq!(closure[0].mode, Mode("bike".into()));
    assert_eq!(closure[0].duration_s, 60);
    assert_eq!(closure[1].mode, Mode("walk".into()));
    assert_eq!(closure[1].duration_s, 300);
}

#[test]
fn whole_seconds_truncates_toward_zero() {
    assert_eq!(whole_seconds(1_999_999), 1);
    assert_eq!(whole_seconds(-1_999_999), -1);
    assert_eq!(whole_seconds(0), 0);
}

/// From cost tables: a real cost is taken over a bridged one, a direct edge
/// of the same cost donates its provenance, a bridged cost is an estimate,
/// and a pair with neither cost, or of one location, gives no entry.
#[test]
fn rows_from_cost_tables() {
    let (a, b, c) = (LocationId(1), LocationId(2), LocationId(3));
    let es = vec![trav(a, b, 120)];
    let pure = vec![vec![None, Some(120), None], vec![None, None, None], vec![None, None, None]];
    let bridged = vec![vec![None, Some(0), Some(45)], vec![Some(0), None, None], vec![None, None, None]];
    let rows = rows_from_costs(&es, &[a, b, c], &Mode("walk".into()), Timestamp(7), &pure, &bridged);
    let got: Vec<(LocationId, LocationId, i64, TravelProvenance)> =
        rows.iter().map(|e| (e.from, e.to, e.duration_s, e.provenance)).collect();
    assert_eq!(
        got,
        vec![
            (a, b, 120, TravelProvenance::Measured),
            (a, c, 45, TravelProvenance::Estimated),
            (b, a, 0, TravelProvenance::Estimated),
        ]
    );
    assert!(rows.iter().all(|e| e.computed_at == Timestamp(7) && e.mode == Mode("walk".into())));
}
