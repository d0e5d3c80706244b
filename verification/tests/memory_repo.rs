use orrery::command::Command;
use orrery::interval::{Interval, Timestamp};
use orrery::model::{
    Actor, Event, EventId, Group, GroupId, Location, LocationId, Mode, Obligation, Person, PersonId, Portal,
    Priority, Role, Tier, TravelProvenance, Traverse,
};
use orrery::repo::memory::MemoryRepo;
use orrery::OrreryError;

fn ts(t: i64) -> Timestamp {
    Timestamp(t)
}
fn iv(s: i64, e: i64) -> Interval {
    Interval::new(ts(s), ts(e)).unwrap()
}
fn prio(f: f32) -> Priority {
    Priority::from_bits(f.to_bits())
}
fn as_f32(p: Priority) -> f32 {
    f32::from_bits(p.to_bits())
}

fn person(name: &str) -> Person {
    Person { id: PersonId::new(), name: name.into(), derived_digest: None }
}
fn group(name: &str) -> Group {
    Group { id: GroupId::new(), name: name.into(), default_priority: None, timezone: None }
}
fn event(name: &str, w: Interval) -> Event {
    Event { id: EventId::new(), name: name.into(), window: w, kind: "seminar".into(), timezone: None }
}

/// A mid-chain expired subgroup edge prunes its subtree; direct-group
/// expectations count.
#[test]
fn q1_read_path_per_hop_expiry() {
    let mut repo = MemoryRepo::new();
    let t = ts(150);

    let p = person("adam");
    let (g1, g2, g3, g5) = (group("g1"), group("g2"), group("g3"), group("g5"));
    let e_direct = event("direct", iv(0, 10));
    let e_deep = event("deep", iv(0, 10));
    let e_expired = event("expired-subtree", iv(0, 10));

    let pid = p.id;
    let (g1id, g2id, g3id, g5id) = (g1.id, g2.id, g3.id, g5.id);
    let (ed, edeep, eexp) = (e_direct.id, e_deep.id, e_expired.id);

    for cmd in [
        Command::UpsertPerson(p),
        Command::UpsertGroup(g1),
        Command::UpsertGroup(g2),
        Command::UpsertGroup(g3),
        Command::UpsertGroup(g5),
        Command::UpsertEvent(e_direct),
        Command::UpsertEvent(e_deep),
        Command::UpsertEvent(e_expired),
        Command::AddMembership { person: pid, group: g1id, during: iv(0, 999), role: Role::Member },
        Command::AddSubgroup { child: g1id, parent: g2id, during: iv(0, 999) },
        Command::AddSubgroup { child: g2id, parent: g3id, during: iv(0, 999) },
        Command::AddSubgroup { child: g2id, parent: g5id, during: iv(0, 50) },
    ] {
        repo.apply(cmd).unwrap();
    }
    for (g, e) in [(g1id, ed), (g3id, edeep), (g5id, eexp)] {
        repo.apply(Command::AddExpectation {
            group: g,
            event: e,
            obligation: Obligation::Expected,
            default_priority: prio(0.5),
            during: iv(0, 999),
            cascades: true,
            by: Actor::System,
        })
        .unwrap();
    }

    let direct: Vec<GroupId> = repo.memberships(pid, t).into_iter().map(|m| m.group).collect();
    assert_eq!(direct, vec![g1id]);

    let mut reach = direct.clone();
    for g in &direct {
        reach.extend(repo.group_ancestors(*g, t));
    }
    assert!(reach.contains(&g2id) && reach.contains(&g3id), "{reach:?}");
    assert!(!reach.contains(&g5id), "expired mid-chain edge must prune: {reach:?}");

    let events: Vec<EventId> = repo.expectations(&reach, t).into_iter().map(|x| x.event).collect();
    assert!(events.contains(&ed), "depth-0 expectation must count");
    assert!(events.contains(&edeep));
    assert!(!events.contains(&eexp));
}

/// A binding override changes the effective value without destroying
/// what the person wanted.
#[test]
fn priority_stack_preserves_person_input() {
    let mut repo = MemoryRepo::new();
    let p = person("m");
    let e = event("e", iv(0, 10));
    let (pid, eid) = (p.id, e.id);
    repo.apply(Command::UpsertPerson(p)).unwrap();
    repo.apply(Command::UpsertEvent(e)).unwrap();
    repo.apply(Command::AddAttendance { person: pid, event: eid, priority: Some(prio(0.9)) }).unwrap();
    repo.apply(Command::SetPriority {
        person: pid,
        event: eid,
        by: Actor::Coordinator(PersonId::new()),
        binding: true,
        value: prio(0.1),
    })
    .unwrap();

    let a = &repo.attends_for(pid, iv(0, 10))[0];
    assert_eq!(a.effective_priority(), prio(0.1));
    assert_eq!(a.priority_person, Some(prio(0.9)), "user input never destroyed");
    let div = (as_f32(a.priority_coord.unwrap()) - as_f32(a.priority_person.unwrap())).abs();
    assert!((div - 0.8).abs() < 1e-6, "divergence ~0.8, got {div}");
}

/// Deselect removes exactly the (person, event) edge; removing a
/// non-existent edge is an error, not a silent no-op.
#[test]
fn remove_attendance_removes_edge_and_errors_when_absent() {
    let mut repo = MemoryRepo::new();
    let p = person("m");
    let (e1, e2) = (event("kept", iv(0, 10)), event("dropped", iv(0, 10)));
    let (pid, kept, dropped) = (p.id, e1.id, e2.id);
    repo.apply(Command::UpsertPerson(p)).unwrap();
    repo.apply(Command::UpsertEvent(e1)).unwrap();
    repo.apply(Command::UpsertEvent(e2)).unwrap();
    for eid in [kept, dropped] {
        repo.apply(Command::AddAttendance { person: pid, event: eid, priority: None }).unwrap();
    }

    repo.apply(Command::RemoveAttendance { person: pid, event: dropped }).unwrap();
    let left = repo.attends_for(pid, iv(0, 10));
    assert_eq!(left.len(), 1);
    assert_eq!(left[0].event, kept);

    let err = repo.apply(Command::RemoveAttendance { person: pid, event: dropped }).unwrap_err();
    assert!(matches!(err, OrreryError::NotFound(_)), "{err:?}");
}

fn room(name: &str) -> Location {
    Location { id: LocationId::new(), name: name.into(), tier: Tier::Room, portal: Portal::Ordinary, capacity: Some(40) }
}

fn walk(from: LocationId, to: LocationId, s: i64) -> Traverse {
    Traverse {
        from,
        to,
        mode: Mode("walk".into()),
        duration_typical_s: s,
        duration_peak_s: None,
        peak_window: None,
        distance_m: None,
        provenance: TravelProvenance::Estimated,
        computed_at: ts(0),
        sibling_override: false,
    }
}

/// One command writes both directed rows.
#[test]
fn traverse_pair_writes_two_rows() {
    let mut repo = MemoryRepo::new();
    let (ra, rb) = (room("a"), room("b"));
    let (a, b) = (ra.id, rb.id);
    repo.apply(Command::UpsertLocation(ra)).unwrap();
    repo.apply(Command::UpsertLocation(rb)).unwrap();
    repo.apply(Command::AddTraversePair(walk(a, b, 120))).unwrap();
    let m = Mode("walk".into());
    assert_eq!(repo.travel(a, b, &m).unwrap().duration_s, 120);
    assert_eq!(repo.travel(b, a, &m).unwrap().duration_s, 120);
    assert_eq!(repo.traverse_all().len(), 2);
}

/// Inverted containment and cross-tier traverse without portal or
/// override are rejected with typed errors.
#[test]
fn tier_rules_enforced_at_write() {
    let mut repo = MemoryRepo::new();
    let r = room("r");
    let bldg = Location { id: LocationId::new(), name: "bldg".into(), tier: Tier::Structure, portal: Portal::Ordinary, capacity: None };
    let (rid, bid) = (r.id, bldg.id);
    repo.apply(Command::UpsertLocation(r)).unwrap();
    repo.apply(Command::UpsertLocation(bldg)).unwrap();

    repo.apply(Command::AddContainment { child: rid, parent: bid }).unwrap();
    assert!(matches!(
        repo.apply(Command::AddContainment { child: bid, parent: rid }),
        Err(OrreryError::CommandRejected { .. })
    ));
    let bad = walk(rid, bid, 60);
    assert!(matches!(repo.apply(Command::AddTraversePair(bad.clone())), Err(OrreryError::CommandRejected { .. })));
    repo.apply(Command::AddTraversePair(Traverse { sibling_override: true, ..bad })).unwrap();
}

#[test]
fn refused_commands_change_nothing_and_accepted_ones_count() {
    let mut repo = MemoryRepo::new();
    let missing = PersonId::new();
    let err = repo.apply(Command::AddAttendance { person: missing, event: EventId::new(), priority: None }).unwrap_err();
    assert!(matches!(err, OrreryError::NotFound(_)));
    assert!(repo.persons().is_empty());
    let r1 = repo.apply(Command::UpsertPerson(person("a"))).unwrap();
    let r2 = repo.apply(Command::UpsertPerson(person("b"))).unwrap();
    assert_eq!(r1.seq, 1);
    assert_eq!(r2.seq, 2);
    assert_eq!(repo.persons().len(), 2);
}

#[test]
fn upsert_replaces_by_id_and_reads_are_sorted() {
    let mut repo = MemoryRepo::new();
    let e = event("first", iv(50, 60));
    let id = e.id;
    repo.apply(Command::UpsertEvent(e)).unwrap();
    repo.apply(Command::UpsertEvent(Event { id, name: "renamed".into(), window: iv(50, 60), kind: "k".into(), timezone: None }))
        .unwrap();
    assert_eq!(repo.events().len(), 1);
    assert_eq!(repo.event(id).unwrap().name, "renamed");
    let early = event("early", iv(0, 10));
    repo.apply(Command::UpsertEvent(early)).unwrap();
    let inw = repo.events_in(iv(0, 100));
    assert_eq!(inw.len(), 2);
    assert_eq!(inw[0].name, "early");
}
