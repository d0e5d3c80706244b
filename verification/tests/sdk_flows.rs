use orrery::command::Command;
use orrery::engine::{severity_weight, Engine};
use orrery::interval::{Interval, Timestamp};
use orrery::model::{
    Actor, Event, EventId, Group, GroupId, Location, LocationId, Obligation, Person, PersonId, Portal, Priority,
    Role, Tier, ViolationKind,
};
use orrery::repo::memory::MemoryRepo;
use orrery::sdk::assign::greedy;
use orrery::sdk::batch;
use orrery::sdk::suggest::suggest_room_schedule;
use orrery::sdk::{RoomOption, RoomRequest};

fn iv(s: i64, e: i64) -> Interval {
    Interval::new(Timestamp(s), Timestamp(e)).unwrap()
}
fn prio(f: f32) -> Priority {
    Priority::from_bits(f.to_bits())
}

fn room(name: &str, cap: u32) -> Location {
    Location { id: LocationId::new(), name: name.into(), tier: Tier::Room, portal: Portal::Ordinary, capacity: Some(cap) }
}

fn event(id: EventId, s: i64, e: i64) -> Event {
    Event { id, name: "e".into(), window: iv(s, e), kind: "talk".into(), timezone: None }
}

#[test]
fn batch_run_reports_closure_changes_and_sweep() {
    let mut repo = MemoryRepo::new();
    let p = PersonId::new();
    let g = GroupId::new();
    let (e0, e1) = (EventId::new(), EventId::new());
    let room = Location { id: LocationId::new(), name: "room".into(), tier: Tier::Room, portal: Portal::Ordinary, capacity: Some(10) };
    let room_id = room.id;

    repo.apply(Command::UpsertPerson(Person { id: p, name: "p".into(), derived_digest: None })).unwrap();
    repo.apply(Command::UpsertGroup(Group { id: g, name: "g".into(), default_priority: None, timezone: None }))
        .unwrap();
    repo.apply(Command::UpsertLocation(room)).unwrap();
    for (e, s, end) in [(e0, 0i64, 100i64), (e1, 50, 150)] {
        repo.apply(Command::UpsertEvent(Event { id: e, name: "e".into(), window: iv(s, end), kind: "k".into(), timezone: None }))
            .unwrap();
    }

    let mut engine = Engine::new(repo).unwrap();
    // Derived schedule: membership + expectation → p's digest will change.
    engine.apply(Command::AddMembership { person: p, group: g, during: iv(0, 1000), role: Role::Member }).unwrap();
    engine
        .apply(Command::AddExpectation {
            group: g,
            event: e0,
            obligation: Obligation::Expected,
            default_priority: prio(0.8),
            during: iv(0, 1000),
            cascades: true,
            by: Actor::System,
        })
        .unwrap();
    // Conflicting explicit attendance → the sweep has something to find.
    for e in [e0, e1] {
        engine.apply(Command::AddAttendance { person: p, event: e, priority: Some(prio(0.9)) }).unwrap();
    }
    // One hold so exactly one event is housed → one orphan for the other.
    engine
        .apply(Command::HoldLocation {
            location: room_id,
            event: e0,
            during: iv(0, 100),
            overflow_for: None,
            capacity_override: None,
        })
        .unwrap();

    let report = batch::run(&mut engine, Timestamp(500), iv(0, 1000)).unwrap();

    assert_eq!(report.changes.persons, vec![p], "digest change-set is exact");
    assert!(report.sweep.emitted >= 2, "conflict + orphan: {:?}", report.sweep);
    assert_eq!(report.closure.pairs, 0, "single room → no travel pairs");

    // Second run immediately after: nothing changed, nothing new.
    let again = batch::run(&mut engine, Timestamp(501), iv(0, 1000)).unwrap();
    assert!(again.changes.is_empty(), "idempotent change-set");
    assert_eq!(again.sweep.emitted, 0, "idempotent sweep");
}

#[test]
fn suggestion_places_flags_and_explains() {
    let mut repo = MemoryRepo::new();
    let (small, large) = (room("small", 20), room("large", 200));
    let (small_id, large_id) = (small.id, large.id);
    let talks: Vec<EventId> = (0..3).map(|_| EventId::new()).collect();
    // t0 [0,100) and t1 [50,150) overlap; t2 [200,300) is clear.
    let windows = [(0i64, 100i64), (50, 150), (200, 300)];

    repo.apply(Command::UpsertLocation(small)).unwrap();
    repo.apply(Command::UpsertLocation(large)).unwrap();
    for (id, (s, e)) in talks.iter().zip(windows) {
        repo.apply(Command::UpsertEvent(event(*id, s, e))).unwrap();
    }
    // Externally-seeded conflict: an existing hold occupies `small`
    // during [0,100) for a fourth event.
    let existing = EventId::new();
    repo.apply(Command::UpsertEvent(event(existing, 0, 100))).unwrap();
    repo.apply(Command::HoldLocation {
        location: small_id,
        event: existing,
        during: iv(0, 100),
        overflow_for: None,
        capacity_override: None,
    })
    .unwrap();

    let engine = Engine::new(repo).unwrap();
    let requests: Vec<RoomRequest> = talks
        .iter()
        .zip(windows)
        .map(|(id, (s, e))| RoomRequest { event: *id, window: iv(s, e), expected_size: Some(15) })
        .collect();
    let rooms = vec![
        RoomOption { location: small_id, capacity: Some(20) },
        RoomOption { location: large_id, capacity: Some(200) },
    ];

    let s = suggest_room_schedule(&engine, &requests, &rooms, Timestamp(1), iv(0, 1000)).unwrap();

    // Two rooms, two overlapping talks + one clear one → all three placed.
    assert_eq!(s.placements.len(), 3);
    assert!(s.unassigned.is_empty());

    // Whichever talk landed in `small` during [0,100) collides with the
    // pre-existing hold — the engine reports it; the SDK relays verbatim.
    assert!(
        s.violations.iter().any(|v| v.kind == ViolationKind::LocationExclusivity),
        "seeded conflict must surface: {:?}",
        s.violations
    );

    // The violation cost carried by the suggestion: Hard exclusivity weighs 100.
    let violation_cost: u128 = s.violations.iter().map(|v| severity_weight(v.severity)).sum();
    assert!(violation_cost >= 100, "Hard exclusivity weighs 100: {violation_cost}");

    // Determinism: run it again, identical placements and cost.
    let s2 = suggest_room_schedule(&engine, &requests, &rooms, Timestamp(1), iv(0, 1000)).unwrap();
    assert_eq!(s.placements, s2.placements);
    let violation_cost2: u128 = s2.violations.iter().map(|v| severity_weight(v.severity)).sum();
    assert_eq!(violation_cost, violation_cost2);
}

#[test]
fn unassignable_events_are_surfaced_not_dropped() {
    let mut repo = MemoryRepo::new();
    let only = room("only", 30);
    let only_id = only.id;
    repo.apply(Command::UpsertLocation(only)).unwrap();
    let talks: Vec<EventId> = (0..2).map(|_| EventId::new()).collect();
    for id in &talks {
        repo.apply(Command::UpsertEvent(event(*id, 0, 100))).unwrap();
    }
    let engine = Engine::new(repo).unwrap();
    let requests: Vec<RoomRequest> =
        talks.iter().map(|id| RoomRequest { event: *id, window: iv(0, 100), expected_size: None }).collect();
    let rooms = vec![RoomOption { location: only_id, capacity: Some(30) }];

    let s = suggest_room_schedule(&engine, &requests, &rooms, Timestamp(1), iv(0, 1000)).unwrap();
    assert_eq!(s.placements.len(), 1);
    assert_eq!(s.unassigned.len(), 1, "the second talk is reported, not lost");
    assert!(s.violations.is_empty(), "greedy never double-books");
}

#[test]
fn greedy_never_double_books_and_accounts_for_every_request() {
    let rooms = vec![
        RoomOption { location: LocationId(1), capacity: Some(10) },
        RoomOption { location: LocationId(2), capacity: None },
    ];
    let requests: Vec<RoomRequest> = [(0, 100), (10, 60), (20, 30), (60, 120), (100, 200)]
        .iter()
        .enumerate()
        .map(|(i, (s, e))| RoomRequest { event: EventId(i as u128 + 1), window: iv(*s, *e), expected_size: None })
        .collect();
    let (placed, unassigned) = greedy(&requests, &rooms);
    assert_eq!(placed.len() + unassigned.len(), requests.len());
    for (i, a) in placed.iter().enumerate() {
        for b in placed.iter().skip(i + 1) {
            if a.location == b.location {
                let wa = requests.iter().find(|r| r.event == a.event).unwrap().window;
                let wb = requests.iter().find(|r| r.event == b.event).unwrap().window;
                assert!(!wa.overlaps(&wb), "two overlapping events share a room");
            }
        }
    }
    assert_eq!(unassigned, vec![EventId(3)]);
    // It was left out because every room was busy at its start.
    let start = iv(20, 30).start();
    for room in &rooms {
        assert!(placed.iter().any(|p| {
            let w = requests.iter().find(|r| r.event == p.event).unwrap().window;
            p.location == room.location && w.start() <= start && start < w.end()
        }));
    }
}
