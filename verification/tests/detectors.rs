use orrery::derive::{derived_id, DerivedAttends};
use orrery::detect::{
    capacity_exceeded, containment_exclusivity, expired_membership_effect, impossible_travel, location_exclusivity,
    orphan_event, time_conflict,
};
use orrery::interval::{Interval, Timestamp};
use orrery::model::{
    AttendanceSource, Attends, Event, EventId, GroupId, Held, LocationId, MemberOf, Obligation, PersonId, Posture,
    Priority, Role, TravelCost, TravelProvenance, Within,
};
use orrery::travel::Placed;

fn iv(s: i64, e: i64) -> Interval {
    Interval::new(Timestamp(s), Timestamp(e)).unwrap()
}

fn prio(f: f32) -> Priority {
    Priority::from_bits(f.to_bits())
}

fn hold(location: LocationId, event: EventId, s: i64, e: i64) -> Held {
    Held { location, event, during: iv(s, e), posture: Posture::OnSite, overflow_for: None, capacity_override: None }
}

fn att(person: PersonId, event: EventId, s: i64, e: i64) -> Attends {
    Attends {
        person,
        event,
        during: iv(s, e),
        priority_group: prio(0.0),
        priority_person: None,
        priority_coord: None,
        coord_binding: false,
        source: AttendanceSource::SelfSelected,
        pinned: false,
    }
}

// ---- capacity_exceeded

fn cap_hold(event: EventId, location: LocationId, cap_override: Option<u32>) -> Held {
    Held {
        location,
        event,
        during: iv(0, 10),
        posture: Posture::OnSite,
        overflow_for: None,
        capacity_override: cap_override,
    }
}

#[test]
fn override_beats_location_capacity() {
    let e = EventId::new();
    let loc = LocationId::new();
    let holds = [cap_hold(e, loc, Some(30))];
    assert_eq!(capacity_exceeded::detect(e, &holds, 45, &|_| Some(60)).len(), 1);
    assert!(capacity_exceeded::detect(e, &holds, 25, &|_| Some(60)).is_empty());
}

#[test]
fn no_capacity_anywhere_means_no_violation() {
    let e = EventId::new();
    let holds = [cap_hold(e, LocationId::new(), None)];
    assert!(capacity_exceeded::detect(e, &holds, 1_000, &|_| None).is_empty());
}

#[test]
fn signalled_interest_counts_strictly_above_threshold() {
    let e = EventId::new();
    let mk = |p: f32| Attends { priority_group: prio(p), ..att(PersonId::new(), e, 0, 10) };
    let attends = vec![mk(0.2), mk(0.5), mk(0.7), mk(0.9)];
    assert_eq!(capacity_exceeded::signalled_interest(e, &attends, prio(0.5)), 2);
    assert_eq!(capacity_exceeded::signalled_interest(e, &attends, prio(0.0)), 4);
    assert_eq!(capacity_exceeded::signalled_interest(EventId::new(), &attends, prio(0.0)), 0);
}

// ---- containment_exclusivity

#[test]
fn skip_tier_containment_still_detected() {
    let (room, campus) = (LocationId::new(), LocationId::new());
    let within = vec![Within { child: room, parent: campus }];
    let holds = vec![hold(campus, EventId::new(), 0, 10), hold(room, EventId::new(), 5, 15)];
    assert_eq!(containment_exclusivity::detect(&holds, &within).len(), 1);
}

#[test]
fn containment_chain_pairs_every_ancestor() {
    let (room, bldg, campus) = (LocationId::new(), LocationId::new(), LocationId::new());
    let within = vec![Within { child: room, parent: bldg }, Within { child: bldg, parent: campus }];
    let holds = vec![hold(campus, EventId::new(), 0, 10), hold(bldg, EventId::new(), 0, 10), hold(room, EventId::new(), 5, 15)];
    // room under bldg and campus; bldg under campus.
    assert_eq!(containment_exclusivity::detect(&holds, &within).len(), 3);
    assert_eq!(containment_exclusivity::ancestors_of(&within, room), vec![bldg, campus]);
}

// ---- expired_membership_effect

fn cached_edge(person: PersonId, group: GroupId) -> DerivedAttends {
    let event = EventId::new();
    DerivedAttends {
        id: derived_id(person, event, group, Timestamp(0)),
        person,
        event,
        source_group: group,
        priority_group: prio(0.5),
        obligation: Obligation::Expected,
        during: iv(0, 10),
    }
}

#[test]
fn valid_membership_is_clean() {
    let p = PersonId::new();
    let g = GroupId::new();
    let cached = [cached_edge(p, g)];
    let memberships = [MemberOf { person: p, group: g, during: iv(0, 100), role: Role::Member }];
    assert!(expired_membership_effect::detect(p, &cached, &memberships, Timestamp(50)).is_empty());
    assert_eq!(expired_membership_effect::detect(p, &cached, &memberships, Timestamp(150)).len(), 1);
}

// ---- impossible_travel

fn placed(location: LocationId, s: i64, e: i64) -> Placed {
    Placed { event: EventId::new(), location, window: iv(s, e) }
}

fn const_travel(secs: i64) -> impl Fn(LocationId, LocationId) -> Option<TravelCost> {
    move |_, _| Some(TravelCost { duration_s: secs, provenance: TravelProvenance::Measured })
}

#[test]
fn dst_spring_forward_fires_on_true_gap() {
    const MAR8_0655_UTC: i64 = 1_772_952_900 * 1_000_000;
    const MIN: i64 = 60 * 1_000_000;
    let (r1, r2) = (LocationId::new(), LocationId::new());
    let world = vec![
        Placed { event: EventId::new(), location: r1, window: iv(MAR8_0655_UTC - 60 * MIN, MAR8_0655_UTC) },
        Placed { event: EventId::new(), location: r2, window: iv(MAR8_0655_UTC + 10 * MIN, MAR8_0655_UTC + 70 * MIN) },
    ];
    let drafts = impossible_travel::detect(PersonId::new(), &world, &const_travel(30 * 60));
    assert_eq!(drafts.len(), 1, "10-minute true gap < 30-minute travel");
}

#[test]
fn intermediate_event_breaks_the_pair() {
    let (ra, rb, rc) = (LocationId::new(), LocationId::new(), LocationId::new());
    let m = 1_000_000i64;
    let world = vec![placed(ra, 0, 600 * m), placed(rb, 1200 * m, 1800 * m), placed(rc, 2400 * m, 3000 * m)];
    assert!(impossible_travel::detect(PersonId::new(), &world, &const_travel(300)).is_empty());
}

#[test]
fn unknown_route_is_not_a_violation() {
    let world = vec![placed(LocationId::new(), 0, 1_000_000), placed(LocationId::new(), 2_000_000, 3_000_000)];
    let none = |_: LocationId, _: LocationId| -> Option<TravelCost> { None };
    assert!(impossible_travel::detect(PersonId::new(), &world, &none).is_empty());
}

#[test]
fn estimated_route_gives_a_warning() {
    let world = vec![placed(LocationId::new(), 0, 1_000_000), placed(LocationId::new(), 2_000_000, 3_000_000)];
    let est = |_: LocationId, _: LocationId| Some(TravelCost { duration_s: 5, provenance: TravelProvenance::Estimated });
    let drafts = impossible_travel::detect(PersonId::new(), &world, &est);
    assert_eq!(drafts.len(), 1);
    assert_eq!(drafts[0].severity, orrery::model::Severity::Warning);
}

// ---- location_exclusivity

#[test]
fn overflow_hold_still_occupies() {
    let (a, b) = (LocationId::new(), LocationId::new());
    let (e1, e2) = (EventId::new(), EventId::new());
    let mut overflow = hold(b, e1, 0, 10);
    overflow.overflow_for = Some(a);
    let own = hold(b, e2, 5, 15);
    assert_eq!(location_exclusivity::detect(b, &[overflow, own]).len(), 1);
}

#[test]
fn same_event_two_locations_is_clean() {
    let (a, b) = (LocationId::new(), LocationId::new());
    let e = EventId::new();
    let primary = hold(a, e, 0, 10);
    let mut overflow = hold(b, e, 0, 10);
    overflow.overflow_for = Some(a);
    let holds = [primary, overflow];
    assert!(location_exclusivity::detect(a, &holds).is_empty());
    assert!(location_exclusivity::detect(b, &holds).is_empty());
}

// ---- orphan_event

fn event(s: i64, e: i64) -> Event {
    Event { id: EventId::new(), name: "e".into(), window: iv(s, e), kind: "talk".into(), timezone: None }
}

#[test]
fn hold_outside_window_is_still_orphan() {
    let e = event(100, 200);
    let holds = [hold(LocationId::new(), e.id, 0, 50)];
    assert!(orphan_event::detect(&e, &holds).is_some());
}

#[test]
fn overlapping_hold_houses_the_event() {
    let e = event(100, 200);
    let holds = [hold(LocationId::new(), e.id, 150, 250)];
    assert!(orphan_event::detect(&e, &holds).is_none());
}

// ---- time_conflict

#[test]
fn dst_fall_back_no_false_conflict() {
    const NOV1_0500_UTC: i64 = 1_793_509_200 * 1_000_000;
    const HOUR: i64 = 3_600 * 1_000_000;
    let p = PersonId::new();
    let attends = vec![
        att(p, EventId::new(), NOV1_0500_UTC, NOV1_0500_UTC + HOUR),
        att(p, EventId::new(), NOV1_0500_UTC + HOUR, NOV1_0500_UTC + 2 * HOUR),
    ];
    assert!(time_conflict::detect(p, &attends).is_empty(), "meets-in-UTC is not a conflict");
}

#[test]
fn same_event_twice_is_not_a_conflict() {
    let p = PersonId::new();
    let e = EventId::new();
    let attends = vec![att(p, e, 0, 10), att(p, e, 5, 15)];
    assert!(time_conflict::detect(p, &attends).is_empty());
}

#[test]
fn three_overlapping_edges_give_three_pairs() {
    let p = PersonId::new();
    let attends = vec![att(p, EventId::new(), 0, 10), att(p, EventId::new(), 5, 15), att(p, EventId::new(), 8, 20)];
    assert_eq!(time_conflict::detect(p, &attends).len(), 3);
    // other persons' edges are not this person's business
    assert!(time_conflict::detect(PersonId::new(), &attends).is_empty());
}
