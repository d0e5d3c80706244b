use orrery::command::Command;
use orrery::derive::{derived_id, effective_schedule, expand};
use orrery::interval::{Interval, Timestamp};
use orrery::model::{
    Actor, Event, EventId, Group, GroupId, MemberOf, Obligation, Person, PersonId, Priority, Role,
    SubgroupOf,
};
use orrery::repo::memory::MemoryRepo;

fn iv(s: i64, e: i64) -> Interval {
    Interval::new(Timestamp(s), Timestamp(e)).unwrap()
}
fn prio(f: f32) -> Priority {
    Priority::from_bits(f.to_bits())
}

fn seed_repo(
    person: PersonId,
    memberships: &[MemberOf],
    subgroups: &[SubgroupOf],
    expects: &[(GroupId, EventId, f32, bool, Interval)],
    groups: &[GroupId],
    events: &[EventId],
) -> MemoryRepo {
    let mut repo = MemoryRepo::new();
    repo.apply(Command::UpsertPerson(Person { id: person, name: "p".into(), derived_digest: None }))
        .unwrap();
    for g in groups {
        repo.apply(Command::UpsertGroup(Group {
            id: *g,
            name: "g".into(),
            default_priority: None,
            timezone: None,
        }))
        .unwrap();
    }
    for e in events {
        repo.apply(Command::UpsertEvent(Event {
            id: *e,
            name: "e".into(),
            window: iv(0, 1000),
            kind: "k".into(),
            timezone: None,
        }))
        .unwrap();
    }
    for m in memberships {
        repo.apply(Command::AddMembership { person: m.person, group: m.group, during: m.during, role: m.role })
            .unwrap();
    }
    for s in subgroups {
        repo.apply(Command::AddSubgroup { child: s.child, parent: s.parent, during: s.during }).unwrap();
    }
    for (g, e, p, cascades, during) in expects {
        repo.apply(Command::AddExpectation {
            group: *g,
            event: *e,
            obligation: Obligation::Expected,
            default_priority: prio(*p),
            during: *during,
            cascades: *cascades,
            by: Actor::System,
        })
        .unwrap();
    }
    repo
}

/// cascades=false on an ancestor's expectation must not reach a
/// subgroup member; the same expectation on a direct group applies.
#[test]
fn cascade_flag_respected() {
    let person = PersonId::new();
    let (child, parent) = (GroupId::new(), GroupId::new());
    let ev = EventId::new();
    let memberships = [MemberOf { person, group: child, during: iv(0, 100), role: Role::Member }];
    let subgroups = [SubgroupOf { child, parent, during: iv(0, 100) }];
    let expects = [(parent, ev, 0.5f32, false, iv(0, 100))];
    let repo = seed_repo(person, &memberships, &subgroups, &expects, &[child, parent], &[ev]);
    assert!(
        expand(&repo, person, Timestamp(50)).is_empty(),
        "non-cascading ancestor expectation must not flow down"
    );
}

/// Explicit attendance shadows derived for the same event.
#[test]
fn explicit_shadows_derived() {
    let person = PersonId::new();
    let g = GroupId::new();
    let ev = EventId::new();
    let memberships = [MemberOf { person, group: g, during: iv(0, 100), role: Role::Member }];
    let expects = [(g, ev, 0.5f32, true, iv(0, 100))];
    let mut repo = seed_repo(person, &memberships, &[], &expects, &[g], &[ev]);
    repo.apply(Command::AddAttendance { person, event: ev, priority: Some(prio(0.9)) }).unwrap();

    let sched = effective_schedule(&repo, person, iv(0, 1000), Timestamp(50));
    assert_eq!(sched.explicit.len(), 1);
    assert!(sched.derived.is_empty(), "derived edge shadowed by explicit");
}

#[test]
fn non_cascading_expectation_applies_to_its_direct_group() {
    let person = PersonId::new();
    let g = GroupId::new();
    let ev = EventId::new();
    let memberships = [MemberOf { person, group: g, during: iv(0, 100), role: Role::Member }];
    let expects = [(g, ev, 0.5f32, false, iv(0, 100))];
    let repo = seed_repo(person, &memberships, &[], &expects, &[g], &[ev]);
    let got = expand(&repo, person, Timestamp(50));
    assert_eq!(got.len(), 1);
    assert_eq!(got[0].event, ev);
    assert_eq!(got[0].source_group, g);
    assert_eq!(f32::from_bits(got[0].priority_group.to_bits()), 0.5);
}

#[test]
fn highest_priority_ancestor_wins_for_one_event() {
    let person = PersonId::new();
    let (child, parent) = (GroupId::new(), GroupId::new());
    let ev = EventId::new();
    let memberships = [MemberOf { person, group: child, during: iv(0, 100), role: Role::Member }];
    let subgroups = [SubgroupOf { child, parent, during: iv(0, 100) }];
    let expects =
        [(child, ev, 0.3f32, true, iv(0, 100)), (parent, ev, 0.8f32, true, iv(0, 100))];
    let repo = seed_repo(person, &memberships, &subgroups, &expects, &[child, parent], &[ev]);
    let got = expand(&repo, person, Timestamp(50));
    assert_eq!(got.len(), 1);
    assert_eq!(got[0].source_group, parent);
    assert_eq!(f32::from_bits(got[0].priority_group.to_bits()), 0.8);
}

#[test]
fn expired_membership_derives_nothing() {
    let person = PersonId::new();
    let g = GroupId::new();
    let ev = EventId::new();
    let memberships = [MemberOf { person, group: g, during: iv(0, 40), role: Role::Member }];
    let expects = [(g, ev, 0.5f32, true, iv(0, 100))];
    let repo = seed_repo(person, &memberships, &[], &expects, &[g], &[ev]);
    assert!(expand(&repo, person, Timestamp(50)).is_empty());
    assert_eq!(expand(&repo, person, Timestamp(20)).len(), 1);
}

#[test]
fn derived_identity_is_stable_and_input_sensitive() {
    let (p, e, g) = (PersonId(1), EventId(2), GroupId(3));
    assert_eq!(derived_id(p, e, g, Timestamp(7)), derived_id(p, e, g, Timestamp(7)));
    assert_ne!(derived_id(p, e, g, Timestamp(7)), derived_id(p, e, g, Timestamp(8)));
    assert_ne!(derived_id(p, e, g, Timestamp(7)), derived_id(PersonId(9), e, g, Timestamp(7)));
}

/// The two zeros are one priority: a tie between them goes to the smaller
/// group, as with any equal priorities.
#[test]
fn equal_priorities_of_either_zero_tie_to_the_smaller_group() {
    assert_eq!(prio(-0.0), prio(0.0));
    assert!(prio(-0.5).0 < prio(-0.0).0 && prio(0.0).0 < prio(0.5).0);
    let person = PersonId(1);
    let (small, large) = (GroupId(10), GroupId(20));
    let ev = EventId(5);
    let memberships = [
        MemberOf { person, group: small, during: iv(0, 100), role: Role::Member },
        MemberOf { person, group: large, during: iv(0, 100), role: Role::Member },
    ];
    let expects = [(small, ev, -0.0f32, true, iv(0, 100)), (large, ev, 0.0f32, true, iv(0, 100))];
    let repo = seed_repo(person, &memberships, &[], &expects, &[small, large], &[ev]);
    let got = expand(&repo, person, Timestamp(50));
    assert_eq!(got.len(), 1);
    assert_eq!(got[0].source_group, small);
}
