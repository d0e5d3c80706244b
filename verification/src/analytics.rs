//! Analytics: pure read functions over the repository. No I/O, no clock.
//!
//! Group roll-ups resolve members through every membership: these are
//! batch and reporting surfaces, not interactive ones.

use vstd::prelude::*;

use crate::detect::capacity_exceeded::{self, interested};
use crate::interval::{Interval, Timestamp};
use crate::derive::{DerivedAttends, EffectiveSchedule};
use crate::model::{effective_priority_spec, Attends, Event, EventId, GroupId, Held, MemberOf, PersonId, Priority};
use crate::order::{lemma_strictly_increasing_unique, sorted_unique, stable_sort_by, strictly_increasing};
use crate::repo::memory::{event_is, event_start_key, location_is, person_keys, sorted_persons, MemoryRepo, RepoView};
use crate::repo::find_where;

verus! {

/// Signalled interest against allocated capacity for one event: a ranking
/// signal, not a forecast.
#[derive(Clone, Copy, PartialEq, Eq, Structural, Debug)]
pub struct CapacityPressure {
    pub event: EventId,
    /// Edges with effective priority strictly above the threshold: the
    /// count the capacity detector uses.
    pub signalled: u32,
    /// Sum of the per-hold binding capacities over the holds that resolve
    /// one; `None` when none do.
    pub allocated: Option<u32>,
}

/// The capacity binding one hold: its override, else its location's.
pub open spec fn hold_capacity(v: RepoView, h: Held) -> Option<u32> {
    match h.capacity_override {
        Some(c) => Some(c),
        None => match find_where(v.locations, location_is(h.location)) {
            Some(l) => l.capacity,
            None => None,
        },
    }
}

/// Allocation over the first `n` holds (the `u32` sum wraps).
pub open spec fn allocated_upto(v: RepoView, hs: Seq<Held>, n: int) -> Option<u32>
    decreases n,
{
    if n <= 0 {
        None
    } else {
        let a = allocated_upto(v, hs, n - 1);
        match hold_capacity(v, hs[n - 1]) {
            None => a,
            Some(c) => Some(
                ((match a {
                    Some(x) => x as int,
                    None => 0,
                } + c) % 0x1_0000_0000) as u32,
            ),
        }
    }
}

/// The capacities the holds of `hs` resolve, in hold order.
pub open spec fn resolved_capacities(v: RepoView, hs: Seq<Held>) -> Seq<u32> {
    hs.filter_map(|h: Held| hold_capacity(v, h))
}

/// The sum of a sequence of capacities, as an integer.
pub open spec fn capacity_sum(cs: Seq<u32>) -> int {
    cs.fold_left(0int, |acc: int, c: u32| acc + c)
}

/// Allocation sums the holds: over the first `n` holds, nothing is
/// allocated when none resolves a capacity, and otherwise the allocation is
/// the sum of the resolved capacities (override, else the location's),
/// wrapped to `u32`. Two holds of 50 and 30 seats allocate 80.
pub proof fn lemma_allocated_is_sum(v: RepoView, hs: Seq<Held>, n: int)
    requires
        0 <= n <= hs.len(),
    ensures
        allocated_upto(v, hs, n) == (if resolved_capacities(v, hs.take(n)).len() == 0 {
            None::<u32>
        } else {
            Some((capacity_sum(resolved_capacities(v, hs.take(n))) % 0x1_0000_0000) as u32)
        }),
    decreases n,
{
    if n > 0 {
        lemma_allocated_is_sum(v, hs, n - 1);
        let t = hs.take(n);
        assert(t.drop_last() =~= hs.take(n - 1));
        assert(t.last() == hs[n - 1]);
        let prev = resolved_capacities(v, hs.take(n - 1));
        match hold_capacity(v, hs[n - 1]) {
            Some(c) => {
                let cur = resolved_capacities(v, t);
                assert(cur == prev + seq![c]);
                assert(cur.drop_last() =~= prev);
                assert(cur.last() == c);
                assert(capacity_sum(cur) == capacity_sum(prev) + c);
                if prev.len() > 0 {
                    let x = (capacity_sum(prev) % 0x1_0000_0000) as u32;
                    assert(capacity_sum(prev) >= 0) by {
                        lemma_capacity_sum_nonneg(prev);
                    }
                    assert(((x as int + c) % 0x1_0000_0000) == ((capacity_sum(prev) + c) % 0x1_0000_0000)) by (nonlinear_arith)
                        requires
                            x as int == capacity_sum(prev) % 0x1_0000_0000,
                            capacity_sum(prev) >= 0,
                    ;
                } else {
                    assert(prev.len() == 0);
                    assert(capacity_sum(prev) == 0);
                }
            },
            None => {
                assert(resolved_capacities(v, t) == prev);
            },
        }
    } else {
        assert(hs.take(0) =~= Seq::<Held>::empty());
    }
}

proof fn lemma_capacity_sum_nonneg(cs: Seq<u32>)
    ensures
        capacity_sum(cs) >= 0,
    decreases cs.len(),
{
    if cs.len() > 0 {
        lemma_capacity_sum_nonneg(cs.drop_last());
    }
}

/// The pressure reported for an event allocates the sum of what its holds
/// resolve (override, else the location's capacity), wrapped to `u32`, and
/// nothing when no hold resolves a capacity.
pub proof fn lemma_pressure_allocates_sum(v: RepoView, e: Event, threshold: Priority)
    ensures
        ({
            let caps = resolved_capacities(v, v.held.filter(|h: Held| h.event == e.id));
            pressure_of(v, e, threshold).allocated == (if caps.len() == 0 {
                None::<u32>
            } else {
                Some((capacity_sum(caps) % 0x1_0000_0000) as u32)
            })
        }),
{
    let hs = v.held.filter(|h: Held| h.event == e.id);
    lemma_allocated_is_sum(v, hs, hs.len() as int);
    assert(hs.take(hs.len() as int) =~= hs);
}

/// The pressure one event is under.
pub open spec fn pressure_of(v: RepoView, e: Event, threshold: Priority) -> CapacityPressure {
    let hs = v.held.filter(|h: Held| h.event == e.id);
    CapacityPressure {
        event: e.id,
        signalled: (interested(v.attends.filter(|a: Attends| a.event == e.id), e.id, threshold).len()
            % 0x1_0000_0000) as u32,
        allocated: allocated_upto(v, hs, hs.len() as int),
    }
}

/// Capacity pressure for every event overlapping `window`, by start then
/// identifier. `interest_threshold` is caller-supplied: the caller owns
/// the attendance model, the engine ships count-above-threshold.
pub fn capacity_pressure(repo: &MemoryRepo, window: Interval, interest_threshold: Priority) -> (r: Result<Vec<CapacityPressure>, crate::error::OrreryError>)
    ensures
        r matches Ok(ps) && ps@ == stable_sort_by(
            repo@.events.filter(|e: Event| e.window.overlaps_with(window)),
            |e: Event| event_start_key(e),
        ).map_values(|e: Event| pressure_of(repo@, e, interest_threshold)),
{
    let evs = repo.events_in(window);
    let ghost f = |e: Event| pressure_of(repo@, e, interest_threshold);
    let mut out: Vec<CapacityPressure> = Vec::new();
    let mut i: usize = 0;
    while i < evs.len()
        invariant
            i <= evs@.len(),
            f == (|e: Event| pressure_of(repo@, e, interest_threshold)),
            out@ == evs@.take(i as int).map_values(f),
        decreases evs@.len() - i,
    {
        let ev = &evs[i];
        let attends = repo.attends_for_event(ev.id);
        let signalled = capacity_exceeded::signalled_interest(ev.id, attends.as_slice(), interest_threshold);
        let holds = repo.held_for_event(ev.id);
        let mut allocated: Option<u32> = None;
        let mut k: usize = 0;
        while k < holds.len()
            invariant
                k <= holds@.len(),
                allocated == allocated_upto(repo@, holds@, k as int),
            decreases holds@.len() - k,
        {
            let h = holds[k];
            let cap = match h.capacity_override {
                Some(c) => Some(c),
                None => match repo.location(h.location) {
                    Some(l) => l.capacity,
                    None => None,
                },
            };
            if let Some(c) = cap {
                let base: u32 = match allocated {
                    Some(x) => x,
                    None => 0,
                };
                allocated = Some(base.wrapping_add(c));
            }
            k += 1;
        }
        let p = CapacityPressure { event: ev.id, signalled, allocated };
        assert(p == f(*ev));
        out.push(p);
        assert(out@ =~= evs@.take(i + 1).map_values(f));
        i += 1;
    }
    assert(evs@.take(evs@.len() as int) =~= evs@);
    Ok(out)
}

/// The person's edges overlapping `window`.
pub open spec fn edges_in(v: RepoView, person: PersonId, window: Interval) -> Seq<Attends> {
    v.attends.filter(|a: Attends| a.person == person && a.during.overlaps_with(window))
}

/// The other persons on an event's edges overlapping `window`, as
/// identifier values, in edge order.
pub open spec fn others_on(v: RepoView, person: PersonId, window: Interval, event: EventId) -> Seq<u128> {
    v.attends.filter(|b: Attends| b.event == event).filter(
        |b: Attends| b.person != person && b.during.overlaps_with(window),
    ).map_values(|b: Attends| b.person.0)
}

/// Co-attendee identifier values reached through the first `n` edges.
pub open spec fn co_upto(v: RepoView, person: PersonId, window: Interval, n: int) -> Seq<u128>
    decreases n,
{
    if n <= 0 {
        seq![]
    } else {
        co_upto(v, person, window, n - 1) + others_on(v, person, window, edges_in(v, person, window)[n - 1].event)
    }
}

/// The other persons of the events a person attends in `window`, each
/// edge counted only when it overlaps `window`.
pub open spec fn co_attendees(v: RepoView, person: PersonId, window: Interval) -> Set<u128> {
    co_upto(v, person, window, edges_in(v, person, window).len() as int).to_set()
}

/// Bounded two-hop co-attendance: person → their edges overlapping
/// `window` → those events' edges overlapping `window` → the distinct other
/// persons, ascending.
pub fn co_attendance(repo: &MemoryRepo, person: PersonId, window: Interval) -> (r: Result<Vec<PersonId>, crate::error::OrreryError>)
    ensures
        r matches Ok(ps) && ps@ == sorted_persons(co_attendees(repo@, person, window)),
{
    let mine = repo.attends_for(person, window);
    let mut raw: Vec<u128> = Vec::new();
    let mut i: usize = 0;
    while i < mine.len()
        invariant
            i <= mine@.len(),
            mine@ == edges_in(repo@, person, window),
            raw@ == co_upto(repo@, person, window, i as int),
        decreases mine@.len() - i,
    {
        let a = mine[i];
        let others = repo.attends_for_event(a.event);
        let ghost pred = |b: Attends| b.person != person && b.during.overlaps_with(window);
        let ghost raw0 = raw@;
        let mut k: usize = 0;
        while k < others.len()
            invariant
                k <= others@.len(),
                pred == (|b: Attends| b.person != person && b.during.overlaps_with(window)),
                raw@ == raw0 + others@.take(k as int).filter(pred).map_values(|b: Attends| b.person.0),
            decreases others@.len() - k,
        {
            let b = others[k];
            proof {
                assert(others@.take(k + 1) =~= others@.take(k as int).push(b));
                others@.take(k as int).lemma_filter_push(b, pred);
            }
            if b.person != person && b.during.overlaps(&window) {
                raw.push(b.person.0);
            }
            assert(raw@ =~= raw0 + others@.take(k + 1).filter(pred).map_values(|b: Attends| b.person.0));
            k += 1;
        }
        assert(others@.take(others@.len() as int) =~= others@);
        assert(raw@ == co_upto(repo@, person, window, i + 1));
        i += 1;
    }
    let ids = sorted_unique(&raw);
    let out = persons_of_keys(&ids);
    proof {
        let c = sorted_persons(co_attendees(repo@, person, window));
        assert(strictly_increasing(person_keys(out@)) && person_keys(out@).to_set() == co_attendees(repo@, person, window));
        lemma_strictly_increasing_unique(person_keys(out@), person_keys(c));
        assert(out@ =~= c) by {
            assert forall|k: int| 0 <= k < out@.len() implies out@[k] == c[k] by {
                assert(person_keys(out@)[k] == person_keys(c)[k]);
            }
        }
    }
    Ok(out)
}

/// Persons with the given identifier values, in order.
fn persons_of_keys(ids: &Vec<u128>) -> (r: Vec<PersonId>)
    ensures
        person_keys(r@) == ids@,
{
    let mut out: Vec<PersonId> = Vec::new();
    let mut j: usize = 0;
    while j < ids.len()
        invariant
            j <= ids@.len(),
            person_keys(out@) == ids@.take(j as int),
        decreases ids@.len() - j,
    {
        let ghost before = out@;
        out.push(PersonId(ids[j]));
        assert(out@ == before.push(PersonId(ids@[j as int])));
        assert(ids@.take(j + 1) =~= ids@.take(j as int).push(ids@[j as int]));
        assert(person_keys(out@) =~= person_keys(before).push(ids@[j as int]));
        j += 1;
    }
    assert(ids@.take(ids@.len() as int) =~= ids@);
    out
}

/// Members of `group` valid at `at`, as identifier values.
pub open spec fn member_ids(v: RepoView, group: GroupId, at: Timestamp) -> Set<u128> {
    v.member_of.filter(|m: MemberOf| m.group == group && m.during.contains_spec(at.0 as int)).map_values(
        |m: MemberOf| m.person.0,
    ).to_set()
}

/// Members of `group` valid at `at`, sorted and deduplicated. A
/// population-scale scan by design.
pub fn members_at(repo: &MemoryRepo, group: GroupId, at: Timestamp) -> (r: Vec<PersonId>)
    ensures
        r@ == sorted_persons(member_ids(repo@, group, at)),
{
    let all = repo.memberships_all();
    let ghost pred = |m: MemberOf| m.group == group && m.during.contains_spec(at.0 as int);
    let mut raw: Vec<u128> = Vec::new();
    let mut i: usize = 0;
    while i < all.len()
        invariant
            i <= all@.len(),
            all@ == repo@.member_of,
            pred == (|m: MemberOf| m.group == group && m.during.contains_spec(at.0 as int)),
            raw@ == all@.take(i as int).filter(pred).map_values(|m: MemberOf| m.person.0),
        decreases all@.len() - i,
    {
        let m = all[i];
        proof {
            assert(all@.take(i + 1) =~= all@.take(i as int).push(m));
            all@.take(i as int).lemma_filter_push(m, pred);
        }
        if m.group == group && m.during.contains_point(at) {
            raw.push(m.person.0);
        }
        assert(raw@ =~= all@.take(i + 1).filter(pred).map_values(|m: MemberOf| m.person.0));
        i += 1;
    }
    assert(all@.take(all@.len() as int) =~= all@);
    let ids = sorted_unique(&raw);
    let out = persons_of_keys(&ids);
    proof {
        let c = sorted_persons(member_ids(repo@, group, at));
        assert(strictly_increasing(person_keys(out@)) && person_keys(out@).to_set() == member_ids(repo@, group, at));
        lemma_strictly_increasing_unique(person_keys(out@), person_keys(c));
        assert(out@ =~= c) by {
            assert forall|k: int| 0 <= k < out@.len() implies out@[k] == c[k] by {
                assert(person_keys(out@)[k] == person_keys(c)[k]);
            }
        }
    }
    out
}

/// The event of a derived edge overlaps `window`.
pub open spec fn event_overlaps(v: RepoView, window: Interval) -> spec_fn(DerivedAttends) -> bool {
    |d: DerivedAttends| match find_where(v.events, event_is(d.event)) {
        Some(e) => e.window.overlaps_with(window),
        None => false,
    }
}

/// The terms of a person's engagement over `window`, from their effective
/// schedule: the effective priority of each explicit edge, then the group
/// seed of each derived edge whose event overlaps `window` (a derived
/// edge's own window is the expectation's, not the event's).
pub fn engagement_terms(repo: &MemoryRepo, sched: &EffectiveSchedule, window: Interval) -> (r: Vec<Priority>)
    ensures
        r@ == sched.explicit@.map_values(|a: Attends| effective_priority_spec(a)) + sched.derived@.filter(
            event_overlaps(repo@, window),
        ).map_values(|d: DerivedAttends| d.priority_group),
{
    let mut out: Vec<Priority> = Vec::new();
    let mut i: usize = 0;
    while i < sched.explicit.len()
        invariant
            i <= sched.explicit@.len(),
            out@ == sched.explicit@.take(i as int).map_values(|a: Attends| effective_priority_spec(a)),
        decreases sched.explicit@.len() - i,
    {
        out.push(sched.explicit[i].effective_priority());
        assert(sched.explicit@.take(i + 1) =~= sched.explicit@.take(i as int).push(sched.explicit@[i as int]));
        assert(out@ =~= sched.explicit@.take(i + 1).map_values(|a: Attends| effective_priority_spec(a)));
        i += 1;
    }
    assert(sched.explicit@.take(sched.explicit@.len() as int) =~= sched.explicit@);
    let ghost base = out@;
    let ghost pred = event_overlaps(repo@, window);
    let mut k: usize = 0;
    while k < sched.derived.len()
        invariant
            k <= sched.derived@.len(),
            pred == event_overlaps(repo@, window),
            out@ == base + sched.derived@.take(k as int).filter(pred).map_values(|d: DerivedAttends| d.priority_group),
        decreases sched.derived@.len() - k,
    {
        let d = sched.derived[k];
        proof {
            assert(sched.derived@.take(k + 1) =~= sched.derived@.take(k as int).push(d));
            sched.derived@.take(k as int).lemma_filter_push(d, pred);
        }
        let keep = match repo.event(d.event) {
            Some(e) => e.window.overlaps(&window),
            None => false,
        };
        if keep {
            out.push(d.priority_group);
        }
        assert(out@ =~= base + sched.derived@.take(k + 1).filter(pred).map_values(|d: DerivedAttends| d.priority_group));
        k += 1;
    }
    assert(sched.derived@.take(sched.derived@.len() as int) =~= sched.derived@);
    out
}

/// The coordinator and personal priorities of each edge that has both.
pub open spec fn both_priorities(s: Seq<Attends>) -> Seq<(Priority, Priority)> {
    s.filter(|a: Attends| a.priority_coord is Some && a.priority_person is Some).map_values(
        |a: Attends| (a.priority_coord.unwrap(), a.priority_person.unwrap()),
    )
}

/// Priority pairs over the first `n` members' edges overlapping `window`.
pub open spec fn divergence_upto(v: RepoView, members: Seq<PersonId>, window: Interval, n: int) -> Seq<(Priority, Priority)>
    decreases n,
{
    if n <= 0 {
        seq![]
    } else {
        divergence_upto(v, members, window, n - 1) + both_priorities(edges_in(v, members[n - 1], window))
    }
}

/// The (coordinator, personal) priority pairs whose gap the divergence
/// analytic aggregates: over the members of `group` valid at `at`,
/// ascending, their edges overlapping `window` that carry both values.
pub fn divergence_pairs(repo: &MemoryRepo, group: GroupId, window: Interval, at: Timestamp) -> (r: Vec<(Priority, Priority)>)
    ensures
        r@ == divergence_upto(
            repo@,
            sorted_persons(member_ids(repo@, group, at)),
            window,
            sorted_persons(member_ids(repo@, group, at)).len() as int,
        ),
{
    let members = members_at(repo, group, at);
    let mut out: Vec<(Priority, Priority)> = Vec::new();
    let ghost pred = |a: Attends| a.priority_coord is Some && a.priority_person is Some;
    let mut i: usize = 0;
    while i < members.len()
        invariant
            i <= members@.len(),
            members@ == sorted_persons(member_ids(repo@, group, at)),
            pred == (|a: Attends| a.priority_coord is Some && a.priority_person is Some),
            out@ == divergence_upto(repo@, members@, window, i as int),
        decreases members@.len() - i,
    {
        let edges = repo.attends_for(members[i], window);
        let ghost base = out@;
        let mut k: usize = 0;
        while k < edges.len()
            invariant
                k <= edges@.len(),
                pred == (|a: Attends| a.priority_coord is Some && a.priority_person is Some),
                out@ == base + edges@.take(k as int).filter(pred).map_values(
                    |a: Attends| (a.priority_coord.unwrap(), a.priority_person.unwrap()),
                ),
            decreases edges@.len() - k,
        {
            let a = edges[k];
            proof {
                assert(edges@.take(k + 1) =~= edges@.take(k as int).push(a));
                edges@.take(k as int).lemma_filter_push(a, pred);
            }
            match (a.priority_coord, a.priority_person) {
                (Some(c), Some(p)) => {
                    out.push((c, p));
                },
                _ => {},
            }
            assert(out@ =~= base + edges@.take(k + 1).filter(pred).map_values(
                |a: Attends| (a.priority_coord.unwrap(), a.priority_person.unwrap()),
            ));
            k += 1;
        }
        assert(edges@.take(edges@.len() as int) =~= edges@);
        assert(edges@ == edges_in(repo@, members@[i as int], window));
        i += 1;
    }
    out
}

} // verus!
