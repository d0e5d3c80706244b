use orrery::analytics::{capacity_pressure, co_attendance, divergence_pairs, engagement_terms};
use orrery::command::Command;
use orrery::derive::effective_schedule;
use orrery::interval::{Interval, Timestamp};
use orrery::model::{
    Actor, Event, EventId, Group, GroupId, Obligation, Person, PersonId, Priority, Role,
};
use orrery::repo::memory::MemoryRepo;

fn iv(s: i64, e: i64) -> Interval {
    Interval::new(Timestamp(s), Timestamp(e)).unwrap()
}
fn prio(f: f32) -> Priority {
    Priority::from_bits(f.to_bits())
}
fn val(p: Priority) -> f64 {
    f32::from_bits(p.to_bits()) as f64
}

fn engagement(repo: &MemoryRepo, p: PersonId, w: Interval, t: Timestamp) -> f64 {
    let sched = effective_schedule(repo, p, w, t);
    engagement_terms(repo, &sched, w).into_iter().map(val).sum()
}

/// (edges, mean, max) of |coordinator − personal| over a group's members.
fn divergence(repo: &MemoryRepo, g: GroupId, w: Interval, t: Timestamp) -> (usize, Option<f64>, Option<f64>) {
    let pairs = divergence_pairs(repo, g, w, t);
    let gaps: Vec<f64> =
        pairs.iter().map(|(c, p)| (f32::from_bits(c.to_bits()) - f32::from_bits(p.to_bits())).abs() as f64).collect();
    let n = gaps.len();
    let sum: f64 = gaps.iter().sum();
    let max = gaps.iter().cloned().fold(f64::MIN, f64::max);
    (n, (n > 0).then(|| sum / n as f64), (n > 0).then_some(max))
}

fn seed(repo: &mut MemoryRepo, persons: &[PersonId], groups: &[GroupId], events: &[(EventId, i64, i64)]) {
    for p in persons {
        repo.apply(Command::UpsertPerson(Person { id: *p, name: "p".into(), derived_digest: None })).unwrap();
    }
    for g in groups {
        repo.apply(Command::UpsertGroup(Group { id: *g, name: "g".into(), default_priority: None, timezone: None }))
            .unwrap();
    }
    for (e, s, t) in events {
        repo.apply(Command::UpsertEvent(Event { id: *e, name: "e".into(), window: iv(*s, *t), kind: "k".into(), timezone: None }))
            .unwrap();
    }
}

#[test]
fn empty_world_summaries_are_honest() {
    let mut repo = MemoryRepo::new();
    let p = PersonId::new();
    let g = GroupId::new();
    seed(&mut repo, &[p], &[g], &[]);
    let w = iv(0, 100);
    let t = Timestamp(50);
    assert_eq!(engagement(&repo, p, w, t), 0.0);
    assert!(capacity_pressure(&repo, w, prio(0.0)).unwrap().is_empty());
    assert!(co_attendance(&repo, p, w).unwrap().is_empty());
    assert_eq!(divergence(&repo, g, w, t), (0, None, None));
}

#[test]
fn engagement_sums_explicit_and_unshadowed_derived_in_window() {
    let mut repo = MemoryRepo::new();
    let p = PersonId(1);
    let g = GroupId(2);
    let (e1, e2, e3) = (EventId(11), EventId(12), EventId(13));
    seed(&mut repo, &[p], &[g], &[(e1, 0, 50), (e2, 60, 90), (e3, 200, 300)]);
    repo.apply(Command::AddAttendance { person: p, event: e1, priority: Some(prio(0.5)) }).unwrap();
    repo.apply(Command::AddMembership { person: p, group: g, during: iv(0, 1000), role: Role::Member }).unwrap();
    for (e, w) in [(e1, 0.9f32), (e2, 0.25), (e3, 0.75)] {
        repo.apply(Command::AddExpectation {
            group: g,
            event: e,
            obligation: Obligation::Expected,
            default_priority: prio(w),
            during: iv(0, 1000),
            cascades: true,
            by: Actor::System,
        })
        .unwrap();
    }
    // e1 explicit (0.5) shadows its derived edge; e2 derived (0.25) is in
    // the window; e3's event lies outside it.
    assert_eq!(engagement(&repo, p, iv(0, 100), Timestamp(10)), 0.75);
}

#[test]
fn divergence_reads_edges_with_both_priorities() {
    let mut repo = MemoryRepo::new();
    let (a, b) = (PersonId(1), PersonId(2));
    let g = GroupId(3);
    let e = EventId(4);
    seed(&mut repo, &[a, b], &[g], &[(e, 0, 50)]);
    for p in [a, b] {
        repo.apply(Command::AddMembership { person: p, group: g, during: iv(0, 100), role: Role::Member }).unwrap();
        repo.apply(Command::AddAttendance { person: p, event: e, priority: Some(prio(0.5)) }).unwrap();
    }
    repo.apply(Command::SetPriority { person: a, event: e, by: Actor::Coordinator(PersonId(9)), binding: false, value: prio(0.75) }).unwrap();
    let pairs = divergence_pairs(&repo, g, iv(0, 100), Timestamp(10));
    assert_eq!(pairs, vec![(prio(0.75), prio(0.5))]);
    assert_eq!(divergence(&repo, g, iv(0, 100), Timestamp(10)), (1, Some(0.25), Some(0.25)));
}
