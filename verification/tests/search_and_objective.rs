use orrery::command::Command;
use orrery::interval::{Interval, Timestamp};
use orrery::model::{
    Event, EventId, Location, LocationId, Mode, Person, PersonId, Portal, Priority, Tier, TravelProvenance,
    Traverse,
};
use orrery::repo::memory::MemoryRepo;
use orrery::sdk::objective::{moved_count, shared_interest, travel_pairs};
use orrery::sdk::search::{apply_move, candidate_moves, search_step, Move, SearchAction, SearchBudget, SearchState};
use orrery::sdk::{Placement, RoomOption, RoomRequest};

fn iv(s: i64, e: i64) -> Interval {
    Interval::new(Timestamp(s), Timestamp(e)).unwrap()
}
fn prio(f: f32) -> Priority {
    Priority::from_bits(f.to_bits())
}
fn pl(e: u128, l: u128) -> Placement {
    Placement { event: EventId(e), location: LocationId(l) }
}

#[test]
fn search_budget_defaults_to_two_hundred_evaluations() {
    assert_eq!(SearchBudget::default().max_evals, 200);
}

#[test]
fn candidate_moves_relocate_then_swap_per_placement() {
    let best = vec![pl(1, 10), pl(2, 20), pl(3, 10)];
    let rooms = vec![
        RoomOption { location: LocationId(10), capacity: None },
        RoomOption { location: LocationId(20), capacity: None },
    ];
    let moves = candidate_moves(&best, &rooms);
    assert_eq!(
        moves,
        vec![
            Move::Relocate { placement_idx: 0, room_idx: 1 },
            Move::Swap { a: 0, b: 1 },
            Move::Relocate { placement_idx: 1, room_idx: 0 },
            Move::Swap { a: 1, b: 2 },
            Move::Relocate { placement_idx: 2, room_idx: 1 },
        ]
    );
}

#[test]
fn moves_change_only_the_rooms_they_name() {
    let best = vec![pl(1, 10), pl(2, 20), pl(3, 30)];
    let rooms = vec![RoomOption { location: LocationId(40), capacity: Some(5) }];
    let r = apply_move(&best, &rooms, Move::Relocate { placement_idx: 1, room_idx: 0 });
    assert_eq!(r, vec![pl(1, 10), pl(2, 40), pl(3, 30)]);
    let s = apply_move(&best, &rooms, Move::Swap { a: 0, b: 2 });
    assert_eq!(s, vec![pl(1, 30), pl(2, 20), pl(3, 10)]);
}

#[test]
fn stability_counts_events_placed_elsewhere_than_the_reference() {
    let reference = vec![pl(1, 10), pl(2, 20)];
    let now = vec![pl(1, 10), pl(2, 30), pl(3, 40)];
    assert_eq!(moved_count(&now, &reference), 1, "event 3 is absent from the reference: no cost");
    assert_eq!(moved_count(&reference, &reference), 0);
}

#[test]
fn shared_interest_pairs_time_ordered_events_by_common_attendees() {
    let mut repo = MemoryRepo::new();
    let (ada, bo, cy) = (PersonId(1), PersonId(2), PersonId(3));
    for p in [ada, bo, cy] {
        repo.apply(Command::UpsertPerson(Person { id: p, name: "p".into(), derived_digest: None })).unwrap();
    }
    let (e1, e2, e3) = (EventId(11), EventId(12), EventId(13));
    for (e, s, t) in [(e1, 0, 100), (e2, 100, 200), (e3, 50, 150)] {
        repo.apply(Command::UpsertEvent(Event { id: e, name: "e".into(), window: iv(s, t), kind: "k".into(), timezone: None }))
            .unwrap();
    }
    // ada and bo attend e1 and e2; cy attends e1 and e3 (which overlaps e1).
    for (p, e, w) in [(ada, e1, 0.9f32), (ada, e2, 0.4), (bo, e1, 0.2), (bo, e2, 0.0), (cy, e1, 0.5), (cy, e3, 0.5)] {
        repo.apply(Command::AddAttendance { person: p, event: e, priority: Some(prio(w)) }).unwrap();
    }
    let requests = vec![
        RoomRequest { event: e2, window: iv(100, 200), expected_size: None },
        RoomRequest { event: e1, window: iv(0, 100), expected_size: None },
        RoomRequest { event: e3, window: iv(50, 150), expected_size: None },
    ];
    let terms = shared_interest(&repo, &requests);
    // e1 → e2 touch end to start: ada contributes min(0.9, 0.4); bo's
    // min is 0.0, not above zero. e1/e3 and e3/e2 overlap: nothing.
    assert_eq!(terms, vec![(e1, e2, prio(0.4))]);
}

#[test]
fn travel_pairs_list_known_routes_between_distinct_rooms() {
    let mut repo = MemoryRepo::new();
    let room = |id: u128| Location {
        id: LocationId(id),
        name: "r".into(),
        tier: Tier::Room,
        portal: Portal::Ordinary,
        capacity: None,
    };
    for id in [1, 2, 3] {
        repo.apply(Command::UpsertLocation(room(id))).unwrap();
    }
    repo.apply(Command::AddTraversePair(Traverse {
        from: LocationId(1),
        to: LocationId(2),
        mode: Mode("walk".into()),
        duration_typical_s: 90,
        duration_peak_s: None,
        peak_window: None,
        distance_m: None,
        provenance: TravelProvenance::Measured,
        computed_at: Timestamp(0),
        sibling_override: false,
    }))
    .unwrap();
    let rooms: Vec<RoomOption> =
        [1u128, 2, 3].iter().map(|id| RoomOption { location: LocationId(*id), capacity: None }).collect();
    let pairs = travel_pairs(&repo, &rooms);
    assert_eq!(pairs, vec![(LocationId(1), LocationId(2), 90), (LocationId(2), LocationId(1), 90)]);
}

/// Drive a search whose caller prices candidates with `cost`, lower being
/// better; returns the best placements, the evaluations used and the
/// number of candidates offered.
fn drive(seed: &[Placement], rooms: &[RoomOption], max_evals: u32, cost: &dyn Fn(&[Placement]) -> i64) -> (Vec<Placement>, u32, u32) {
    let mut best = cost(seed);
    let mut state = SearchState::new(seed, rooms, SearchBudget { max_evals }, 7);
    let mut last = None;
    let mut offered = 0;
    loop {
        let (next, action) = search_step(state, last);
        state = next;
        match action {
            SearchAction::Evaluate(c) => {
                offered += 1;
                let v = cost(&c);
                last = Some(v < best);
                if v < best {
                    best = v;
                }
            }
            SearchAction::Done => break,
        }
    }
    (state.best().to_vec(), state.evals(), offered)
}

#[test]
fn a_search_with_no_budget_offers_nothing() {
    let seed = vec![pl(1, 10), pl(2, 20)];
    let rooms = vec![RoomOption { location: LocationId(10), capacity: None }, RoomOption { location: LocationId(20), capacity: None }];
    let (best, evals, offered) = drive(&seed, &rooms, 0, &|_| 0);
    assert_eq!((best, evals, offered), (seed.clone(), 1, 0));
    let (best, evals, offered) = drive(&seed, &rooms, 1, &|_| 0);
    assert_eq!((best, evals, offered), (seed, 1, 0));
}

#[test]
fn a_search_that_finds_nothing_better_keeps_the_seed_after_one_pass() {
    let seed = vec![pl(1, 10), pl(2, 20)];
    let rooms = vec![RoomOption { location: LocationId(10), capacity: None }, RoomOption { location: LocationId(20), capacity: None }];
    // Moves: relocate each placement to the other room, and one swap.
    let (best, evals, offered) = drive(&seed, &rooms, 100, &|_| 0);
    assert_eq!(best, seed);
    assert_eq!(offered, 3);
    assert_eq!(evals, 4);
    // A budget smaller than the pass stops early with the best so far.
    let (best, evals, offered) = drive(&seed, &rooms, 2, &|_| 0);
    assert_eq!((best, evals, offered), (seed, 2, 1));
}

#[test]
fn a_search_moves_to_what_prices_better_and_never_worse() {
    let seed = vec![pl(1, 10), pl(2, 20)];
    let rooms = vec![RoomOption { location: LocationId(10), capacity: None }, RoomOption { location: LocationId(20), capacity: None }];
    // Cheapest: event 1 in room 20 and event 2 in room 10.
    let cost = |p: &[Placement]| -> i64 {
        (if p[0].location == LocationId(20) { 0 } else { 5 }) + (if p[1].location == LocationId(10) { 0 } else { 5 })
    };
    let (best, evals, _) = drive(&seed, &rooms, 200, &cost);
    assert_eq!(best, vec![pl(1, 20), pl(2, 10)]);
    assert!(evals <= 200);
    assert!(best.iter().zip(seed.iter()).all(|(b, s)| b.event == s.event));
}

/// Time-ordered greedy commits the small room to the early small event;
/// the later, slightly larger event is forced into the huge hall. Search
/// finds the swap greedy could not foresee (priced here by the standard
/// objective's room-utilisation term, the only one that applies).
#[test]
fn search_improves_on_greedy_for_heterogeneous_rooms() {
    let (e1, e2) = (EventId::new(), EventId::new());
    let requests = vec![
        RoomRequest { event: e1, window: iv(0, 100), expected_size: Some(10) },
        RoomRequest { event: e2, window: iv(50, 150), expected_size: Some(15) },
    ];
    let rooms = vec![
        RoomOption { location: LocationId::new(), capacity: Some(20) },
        RoomOption { location: LocationId::new(), capacity: Some(200) },
    ];
    let (seed, unassigned) = orrery::sdk::assign::greedy(&requests, &rooms);
    assert!(unassigned.is_empty());
    let utilisation = |placements: &[Placement]| -> f64 {
        0.1 * placements
            .iter()
            .filter_map(|p| {
                let cap = rooms.iter().find(|r| r.location == p.location)?.capacity? as f64;
                let need = requests.iter().find(|q| q.event == p.event)?.expected_size? as f64;
                Some(if need <= cap { (cap - need) / cap } else { 10.0 * (need - cap) / cap })
            })
            .sum::<f64>()
    };
    let seed_total = utilisation(&seed);
    let mut best_total = seed_total;
    let mut state = SearchState::new(&seed, &rooms, SearchBudget::default(), 7);
    let mut last = None;
    loop {
        let (next, action) = search_step(state, last);
        state = next;
        match action {
            SearchAction::Evaluate(c) => {
                let total = utilisation(&c);
                last = Some(total < best_total);
                if total < best_total {
                    best_total = total;
                }
            }
            SearchAction::Done => break,
        }
    }
    let improved = best_total < seed_total;
    assert!(
        improved && best_total < seed_total,
        "search must beat greedy here: seed {} vs {}",
        seed_total,
        best_total
    );
    assert!((utilisation(state.best()) - best_total).abs() < 1e-12);
}
