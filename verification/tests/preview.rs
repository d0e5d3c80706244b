use orrery::command::Command;
use orrery::derive::{digest_of_ids, expand};
use orrery::engine::Engine;
use orrery::interval::{Interval, Timestamp};
use orrery::model::{Actor, Event, EventId, Group, GroupId, Obligation, Person, PersonId, Priority, Role};
use orrery::repo::memory::MemoryRepo;
use orrery::OrreryError;

fn iv(s: i64, e: i64) -> Interval {
    Interval::new(Timestamp(s), Timestamp(e)).unwrap()
}
fn prio(f: f32) -> Priority {
    Priority::from_bits(f.to_bits())
}

fn seeded_repo(persons: &[PersonId], groups: &[GroupId], events: &[EventId]) -> MemoryRepo {
    let mut repo = MemoryRepo::new();
    for p in persons {
        repo.apply(Command::UpsertPerson(Person { id: *p, name: "p".into(), derived_digest: None })).unwrap();
    }
    for g in groups {
        repo.apply(Command::UpsertGroup(Group { id: *g, name: "g".into(), default_priority: None, timezone: None }))
            .unwrap();
    }
    for e in events {
        repo.apply(Command::UpsertEvent(Event {
            id: *e,
            name: "e".into(),
            window: iv(0, 1000),
            kind: "k".into(),
            timezone: None,
        }))
        .unwrap();
    }
    repo
}

fn seeded_engine(persons: &[PersonId], groups: &[GroupId], events: &[EventId]) -> Engine {
    Engine::new(seeded_repo(persons, groups, events)).unwrap()
}

/// Deterministic honesty case, readable on failure: an expectation on a
/// group with one member previews to exactly that member.
#[test]
fn preview_expectation_names_exactly_the_affected_member() {
    let persons: Vec<PersonId> = (0..3).map(|_| PersonId::new()).collect();
    let groups: Vec<GroupId> = (0..2).map(|_| GroupId::new()).collect();
    let events: Vec<EventId> = (0..1).map(|_| EventId::new()).collect();
    let mut engine = seeded_engine(&persons, &groups, &events);
    engine
        .apply(Command::AddMembership { person: persons[0], group: groups[0], during: iv(0, 100), role: Role::Member })
        .unwrap();
    let t = Timestamp(50);
    engine.refresh_digests(t).unwrap();

    let cmd = Command::AddExpectation {
        group: groups[0],
        event: events[0],
        obligation: Obligation::Expected,
        default_priority: prio(0.5),
        during: iv(0, 100),
        cascades: true,
        by: Actor::System,
    };
    let preview = engine.preview_digests(&cmd, t).unwrap();
    assert_eq!(preview, vec![persons[0]]);

    engine.apply(cmd).unwrap();
    assert_eq!(engine.refresh_digests(t).unwrap(), vec![persons[0]]);
}

/// Unsupported kinds are a typed refusal, not a possibly-lying answer.
#[test]
fn preview_unsupported_kind_is_a_typed_error() {
    let persons: Vec<PersonId> = vec![PersonId::new()];
    let events: Vec<EventId> = vec![EventId::new()];
    let engine = seeded_engine(&persons, &[], &events);

    for cmd in [
        Command::AddAttendance { person: persons[0], event: events[0], priority: None },
        Command::RemoveAttendance { person: persons[0], event: events[0] },
        Command::UpsertPerson(Person { id: persons[0], name: "p".into(), derived_digest: None }),
    ] {
        let err = engine.preview_digests(&cmd, Timestamp(0)).unwrap_err();
        assert!(
            matches!(err, OrreryError::PreviewUnsupported { .. }),
            "expected PreviewUnsupported for {}, got {err:?}",
            cmd.kind()
        );
    }
}

/// A small deterministic generator, so that many worlds can be tried
/// without a property-testing framework.
struct Lcg(u64);
impl Lcg {
    fn next(&mut self, bound: u64) -> u64 {
        self.0 = self.0.wrapping_mul(6364136223846793005).wrapping_add(1442695040888963407);
        (self.0 >> 33) % bound
    }
}

fn random_command(rng: &mut Lcg, persons: &[PersonId], groups: &[GroupId], events: &[EventId]) -> Command {
    let from = rng.next(300) as i64;
    let len = 1 + rng.next(299) as i64;
    match rng.next(3) {
        0 => Command::AddMembership {
            person: persons[rng.next(persons.len() as u64) as usize],
            group: groups[rng.next(groups.len() as u64) as usize],
            during: iv(from, from + len),
            role: Role::Member,
        },
        1 => Command::AddSubgroup {
            child: groups[rng.next(groups.len() as u64) as usize],
            parent: groups[rng.next(groups.len() as u64) as usize],
            during: iv(from, from + len),
        },
        _ => Command::AddExpectation {
            group: groups[rng.next(groups.len() as u64) as usize],
            event: events[rng.next(events.len() as u64) as usize],
            obligation: Obligation::Expected,
            default_priority: prio(rng.next(100) as f32 / 100.0),
            during: iv(from, from + len),
            cascades: rng.next(2) == 0,
            by: Actor::System,
        },
    }
}

/// On many generated worlds, warmed or cold, the preview of a mirrored
/// command equals the change set of applying it and refreshing, and the
/// preview writes nothing.
#[test]
fn preview_matches_post_commit_refresh_on_generated_worlds() {
    let mut rng = Lcg(7);
    for _round in 0..64 {
        let persons: Vec<PersonId> = (0..4).map(|_| PersonId::new()).collect();
        let groups: Vec<GroupId> = (0..6).map(|_| GroupId::new()).collect();
        let events: Vec<EventId> = (0..6).map(|_| EventId::new()).collect();
        let mut engine = seeded_engine(&persons, &groups, &events);
        let n_ops = rng.next(20);
        for _ in 0..n_ops {
            let cmd = random_command(&mut rng, &persons, &groups, &events);
            engine.apply(cmd).unwrap();
        }
        let at = Timestamp(rng.next(400) as i64);
        if rng.next(2) == 0 {
            engine.refresh_digests(at).unwrap();
        }
        let stored_before: Vec<_> =
            persons.iter().map(|p| engine.repo().person(*p).unwrap().derived_digest).collect();
        let seq_before = engine
            .apply(Command::UpsertGroup(Group { id: groups[0], name: "g".into(), default_priority: None, timezone: None }))
            .unwrap()
            .seq;

        let cmd = random_command(&mut rng, &persons, &groups, &events);
        let mut preview = engine.preview_digests(&cmd, at).unwrap();
        let stored_after: Vec<_> =
            persons.iter().map(|p| engine.repo().person(*p).unwrap().derived_digest).collect();
        assert_eq!(stored_before, stored_after, "preview persisted a digest");
        let receipt = engine.apply(cmd).unwrap();
        assert_eq!(receipt.seq, seq_before + 1, "preview consumed a receipt");

        let mut actual = engine.refresh_digests(at).unwrap();
        preview.sort();
        actual.sort();
        assert_eq!(preview, actual);

        // The incremental digest agrees with a cold recomputation.
        for p in &persons {
            let cold: Vec<_> = expand(engine.repo(), *p, at).into_iter().map(|d| d.id).collect();
            assert_eq!(engine.digest(*p, at), digest_of_ids(&cold));
        }
    }
}
