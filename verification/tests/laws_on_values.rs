use orrery::command::Command;
use orrery::interval::{Interval, Timestamp};
use orrery::model::{
    Event, EventId, Location, LocationId, Mode, Person, PersonId, Portal, Tier, TravelProvenance, Traverse,
};
use orrery::repo::memory::MemoryRepo;
use orrery::travel::ClosureScope;
use orrery::engine::Engine;
use orrery::detect::{Policy, PolicyMap};
use orrery::model::ViolationKind;

fn iv(s: i64, e: i64) -> Interval {
    Interval::new(Timestamp(s), Timestamp(e)).unwrap()
}

#[test]
fn upserting_the_same_entity_twice_is_upserting_it_once() {
    let mut repo = MemoryRepo::new();
    let p = Person { id: PersonId(7), name: "ada".into(), derived_digest: None };
    let first = repo.apply(Command::UpsertPerson(p.clone())).unwrap();
    let second = repo.apply(Command::UpsertPerson(p)).unwrap();
    assert_eq!(second.seq, first.seq + 1, "each accepted command still counts");
    assert_eq!(repo.persons(), vec![PersonId(7)]);
    assert_eq!(repo.person(PersonId(7)).unwrap().name, "ada");

    let e = Event { id: EventId(1), name: "talk".into(), window: iv(0, 10), kind: "k".into(), timezone: None };
    repo.apply(Command::UpsertEvent(e.clone())).unwrap();
    repo.apply(Command::UpsertEvent(e)).unwrap();
    assert_eq!(repo.events().len(), 1);
}

#[test]
fn a_second_closure_refresh_writes_the_same_rows() {
    let mut repo = MemoryRepo::new();
    for id in [1u128, 2] {
        repo.apply(Command::UpsertLocation(Location {
            id: LocationId(id),
            name: "r".into(),
            tier: Tier::Room,
            portal: Portal::Ordinary,
            capacity: None,
        }))
        .unwrap();
    }
    repo.apply(Command::AddTraversePair(Traverse {
        from: LocationId(1),
        to: LocationId(2),
        mode: Mode("walk".into()),
        duration_typical_s: 60,
        duration_peak_s: None,
        peak_window: None,
        distance_m: None,
        provenance: TravelProvenance::Measured,
        computed_at: Timestamp(0),
        sibling_override: false,
    }))
    .unwrap();
    let mut engine = Engine::new(repo).unwrap();
    let first = engine.refresh_closure(ClosureScope::AllLocations, Timestamp(5)).unwrap();
    let after_first = engine.repo().travel_best(LocationId(2), LocationId(1));
    let second = engine.refresh_closure(ClosureScope::AllLocations, Timestamp(5)).unwrap();
    assert_eq!(first, second);
    assert_eq!(first.pairs, 2);
    assert_eq!(after_first, engine.repo().travel_best(LocationId(2), LocationId(1)));
    assert_eq!(after_first.map(|c| c.duration_s), Some(60));
}

#[test]
fn the_apply_counter_counts_accepted_commands_only() {
    let mut repo = MemoryRepo::new();
    let p = Person { id: PersonId(1), name: "a".into(), derived_digest: None };
    assert_eq!(repo.apply(Command::UpsertPerson(p.clone())).unwrap().seq, 1);
    assert_eq!(repo.apply(Command::UpsertPerson(p)).unwrap().seq, 2);
    let refused = repo.apply(Command::AddAttendance { person: PersonId(1), event: EventId(9), priority: None });
    assert!(refused.is_err());
    assert_eq!(repo.persons(), vec![PersonId(1)]);
    let e = Event { id: EventId(9), name: "talk".into(), window: iv(0, 10), kind: "k".into(), timezone: None };
    assert_eq!(repo.apply(Command::UpsertEvent(e)).unwrap().seq, 3, "a refused command consumes no number");
}

#[test]
fn the_last_policy_set_for_a_kind_wins() {
    let mut m = PolicyMap::default();
    m.set(ViolationKind::TimeConflict, Policy::Prevent);
    m.set(ViolationKind::LocationExclusivity, Policy::Warn);
    m.set(ViolationKind::TimeConflict, Policy::Off);
    assert_eq!(m.policy(ViolationKind::TimeConflict), Policy::Off);
    assert_eq!(m.policy(ViolationKind::LocationExclusivity), Policy::Warn);
    assert_eq!(m.policy(ViolationKind::CapacityExceeded), Policy::Detect);
}

#[test]
fn traverse_rows_stay_closed_under_reversal() {
    let mut repo = MemoryRepo::new();
    for id in [1u128, 2] {
        repo.apply(Command::UpsertLocation(Location {
            id: LocationId(id),
            name: "r".into(),
            tier: Tier::Room,
            portal: Portal::Ordinary,
            capacity: None,
        }))
        .unwrap();
    }
    let t = Traverse {
        from: LocationId(1),
        to: LocationId(2),
        mode: Mode("walk".into()),
        duration_typical_s: 120,
        duration_peak_s: None,
        peak_window: None,
        distance_m: None,
        provenance: TravelProvenance::Measured,
        computed_at: Timestamp(0),
        sibling_override: false,
    };
    repo.apply(Command::AddTraversePair(t)).unwrap();
    let rows = repo.traverse_all();
    assert_eq!(rows.len(), 2);
    assert_eq!((rows[1].from, rows[1].to, rows[1].duration_typical_s), (LocationId(2), LocationId(1), 120));
    let walk = Mode("walk".into());
    assert_eq!(
        repo.travel(LocationId(1), LocationId(2), &walk).map(|c| c.duration_s),
        repo.travel(LocationId(2), LocationId(1), &walk).map(|c| c.duration_s)
    );
}
