//! The proof-of-concept story: one member self-selects two overlapping
//! talks and the conflict appears, end to end, from engine records; her
//! cohort's expectation shows as a derived entry with provenance.

use vstd::prelude::*;

use crate::command::Command;
use crate::engine::Engine;
use crate::error::{counted, decimal, joined, OrreryError};
use crate::interval::{Interval, Timestamp};
use crate::model::{
    Actor, Event, EventId, Group, GroupId, Location, LocationId, MemberOf, Obligation, Person, PersonId, Portal,
    Priority, Role, Tier,
};
use crate::muster::service::{
    after_sweep, entries_view, schedule_spec, touching, EntrySource, EntryView, MusterService, ScheduleEntry, SourceView,
};
use crate::repo::find_where;
use crate::repo::memory::{applied, event_is, group_is, has_event, has_location, has_person, location_is, person_is, MemoryRepo, RepoView};

verus! {

/// One hour, in microseconds.
pub const HOUR: i64 = 3_600_000_000;

/// The interval from hour `h_start` to hour `h_end` of the demo calendar.
fn iv(h_start: i64, h_end: i64) -> (r: Interval)
    requires
        0 <= h_start < h_end <= 24 * 365,
    ensures
        r.lo() == h_start * HOUR,
        r.hi() == h_end * HOUR,
{
    match Interval::new(Timestamp(h_start * HOUR), Timestamp(h_end * HOUR)) {
        Ok(i) => i,
        Err(_) => Interval::at_point(Timestamp(0)),
    }
}

/// Ids and instants of the seeded demo world: what a story or a test
/// needs to drive the member flow against it.
#[derive(Clone, Copy, Debug)]
pub struct DemoWorld {
    pub member: PersonId,
    pub cohort: GroupId,
    pub talk_rust: EventId,
    pub talk_systems: EventId,
    pub social: EventId,
    /// A whole-day evaluation window and a morning "now".
    pub day: Interval,
    pub now: Timestamp,
}

/// The priority key of `0.5`.
pub open spec fn half_priority() -> Priority {
    Priority(0xbf00_0000)
}

/// What the seeded world holds, whatever identifiers were drawn: the
/// member and the cohort, the cohort membership and the evening social
/// expectation over the year, and the three events, held.
pub open spec fn demo_seeded(v: RepoView, w: DemoWorld) -> bool {
    &&& has_person(v, w.member)
    &&& has_event(v, w.talk_rust)
    &&& has_event(v, w.talk_systems)
    &&& has_event(v, w.social)
    &&& v.member_of == seq![MemberOf { person: w.member, group: w.cohort, during: v.member_of[0].during, role: Role::Member }]
    &&& v.member_of[0].during.lo() == 0 && v.member_of[0].during.hi() == 24 * 365 * HOUR
    &&& v.expects.len() == 1
    &&& v.expects[0].group == w.cohort && v.expects[0].event == w.social && v.expects[0].cascades
    &&& v.expects[0].default_priority == half_priority()
    &&& v.held.len() == 3
    &&& v.held[0].event == w.talk_rust && v.held[1].event == w.talk_systems && v.held[2].event == w.social
    &&& v.attends.len() == 0
    &&& v.violations.len() == 0
    &&& demo_layout(v, w)
}

/// A demo session: its identifier, its name, and its window from hour
/// `h_start` to hour `h_end`.
pub open spec fn demo_event(e: Event, id: EventId, name: Seq<char>, h_start: int, h_end: int) -> bool {
    &&& e.id == id
    &&& e.name@ == name
    &&& e.window.lo() == h_start * HOUR
    &&& e.window.hi() == h_end * HOUR
}

/// The drawn event identifiers are pairwise distinct, as fresh identifiers
/// are.
pub open spec fn demo_events_distinct(w: DemoWorld) -> bool {
    w.talk_rust != w.talk_systems && w.talk_rust != w.social && w.talk_systems != w.social
}

/// The demo calendar and rooms. The one group is the cohort, named
/// "cohort-26". The holds place, in order, the talk on Rust, the systems
/// workshop and the social, none as an overflow, and the talk on Rust and
/// the social share a room. When the drawn event identifiers are distinct,
/// the events are, in order, "Intro to Rust" from hour 9 to 10, "Systems
/// Workshop" from hour 9 to 11 and "Evening Social" from hour 18 to 19, and
/// each hold spans its event. When the two rooms' identifiers differ, the
/// locations are, in order, "Room 101" (the first hold's) and "Room 202"
/// (the second's).
pub open spec fn demo_layout(v: RepoView, w: DemoWorld) -> bool {
    &&& v.groups.len() == 1 && v.groups[0].id == w.cohort && v.groups[0].name@ == "cohort-26"@
    &&& v.held.len() == 3
    &&& v.held[0].location == v.held[2].location
    &&& forall|k: int| 0 <= k < 3 ==> (#[trigger] v.held[k]).overflow_for is None
    &&& demo_events_distinct(w) ==> {
        &&& v.events.len() == 3
        &&& demo_event(v.events[0], w.talk_rust, "Intro to Rust"@, 9, 10)
        &&& demo_event(v.events[1], w.talk_systems, "Systems Workshop"@, 9, 11)
        &&& demo_event(v.events[2], w.social, "Evening Social"@, 18, 19)
        &&& forall|k: int| 0 <= k < 3 ==> (#[trigger] v.held[k]).during == v.events[k].window
    }
    &&& v.held[0].location != v.held[1].location ==> {
        &&& v.locations.len() == 2
        &&& v.locations[0].id == v.held[0].location && v.locations[0].name@ == "Room 101"@
        &&& v.locations[1].id == v.held[1].location && v.locations[1].name@ == "Room 202"@
    }
}

/// Upserting an element no present element matches appends it.
proof fn lemma_upsert_fresh<T>(s: Seq<T>, p: spec_fn(T) -> bool, x: T)
    requires
        forall|j: int| 0 <= j < s.len() ==> !p(#[trigger] s[j]),
    ensures
        crate::repo::upsert_where(s, p, x) == s.push(x),
{
    crate::repo::lemma_first_where_is(s, p, s.len() as int);
}

/// Write an event, keeping every event already present.
fn seed_event(repo: &mut MemoryRepo, e: Event) -> (r: Result<(), OrreryError>)
    ensures
        r is Ok,
        has_event(final(repo)@, e.id),
        forall|k: EventId| has_event(old(repo)@, k) ==> has_event(final(repo)@, k),
        final(repo)@ == (RepoView { events: final(repo)@.events, seq: final(repo)@.seq, ..old(repo)@ }),
        final(repo)@.events == crate::repo::upsert_where(old(repo)@.events, event_is(e.id), e),
{
    let ghost v = repo@;
    let ghost id = e.id;
    let ghost x = e;
    repo.apply(Command::UpsertEvent(e))?;
    proof {
        assert forall|k: EventId| has_event(v, k) implies has_event(repo@, k) by {
            crate::repo::lemma_upsert_presence(v.events, event_is(id), x, event_is(k));
        }
        crate::repo::lemma_upsert_presence(v.events, event_is(id), x, event_is(id));
    }
    Ok(())
}

/// Write a location, keeping every location already present.
fn seed_location(repo: &mut MemoryRepo, l: Location) -> (r: Result<(), OrreryError>)
    ensures
        r is Ok,
        has_location(final(repo)@, l.id),
        forall|k: LocationId| has_location(old(repo)@, k) ==> has_location(final(repo)@, k),
        final(repo)@ == (RepoView { locations: final(repo)@.locations, seq: final(repo)@.seq, ..old(repo)@ }),
        final(repo)@.locations == crate::repo::upsert_where(old(repo)@.locations, location_is(l.id), l),
{
    let ghost v = repo@;
    let ghost id = l.id;
    let ghost x = l;
    repo.apply(Command::UpsertLocation(l))?;
    proof {
        assert forall|k: LocationId| has_location(v, k) implies has_location(repo@, k) by {
            crate::repo::lemma_upsert_presence(v.locations, location_is(id), x, location_is(k));
        }
        crate::repo::lemma_upsert_presence(v.locations, location_is(id), x, location_is(id));
    }
    Ok(())
}

/// A session event of the demo calendar.
fn session(id: EventId, name: &str, window: Interval) -> (r: Event)
    ensures
        r.id == id,
        r.window == window,
        r.name@ == name@,
{
    Event {
        id,
        name: name.to_owned(),
        window,
        kind: "session".to_owned(),
        timezone: Some("America/New_York".to_owned()),
    }
}

/// A demo room with forty places.
fn demo_room(id: LocationId, name: &str) -> (r: Location)
    ensures
        r.id == id,
        r.name@ == name@,
{
    Location { id, name: name.to_owned(), tier: Tier::Room, portal: Portal::Ordinary, capacity: Some(40) }
}

/// Seed the demo world: the member, her cohort (with membership and the
/// evening social expectation), three events, two rooms with holds. No
/// selections: stories and tests drive those.
pub fn build_demo_world() -> (r: Result<(MusterService, DemoWorld), OrreryError>)
    ensures
        r matches Ok((svc, w)) && {
            &&& svc.wf()
            &&& forall|k: crate::model::ViolationKind| svc.policies().policy_of(k) == crate::detect::Policy::Detect
            &&& demo_seeded(svc@, w)
            &&& w.day.lo() == 0 && w.day.hi() == 24 * HOUR
            &&& w.now.0 == 8 * HOUR
        },
{
    let mut repo = MemoryRepo::new();
    let ada = PersonId::new();
    let cohort = GroupId::new();
    let talk_rust = EventId::new();
    let talk_systems = EventId::new();
    let social = EventId::new();
    let room_id = LocationId::new();
    let room2_id = LocationId::new();
    let ghost v0 = repo@;
    let pa = Person { id: ada, name: "Ada".to_owned(), derived_digest: None };
    let ghost gpa = pa;
    repo.apply(Command::UpsertPerson(pa))?;
    proof {
        crate::repo::lemma_upsert_presence(v0.persons, person_is(ada), gpa, person_is(ada));
    }
    assert(has_person(repo@, ada));
    let ghost v1 = repo@;
    let grp = Group { id: cohort, name: "cohort-26".to_owned(), default_priority: None, timezone: None };
    let ghost ggrp = grp;
    repo.apply(Command::UpsertGroup(grp))?;
    proof {
        lemma_upsert_fresh(v1.groups, group_is(cohort), ggrp);
    }
    assert(repo@.groups == seq![ggrp]);
    let room1 = demo_room(room_id, "Room 101");
    let room2 = demo_room(room2_id, "Room 202");
    let ghost (g1, g2) = (room1, room2);
    let ghost v2 = repo@;
    seed_location(&mut repo, room1)?;
    proof {
        lemma_upsert_fresh(v2.locations, location_is(room_id), g1);
    }
    let ghost v3 = repo@;
    seed_location(&mut repo, room2)?;
    proof {
        if room_id != room2_id {
            lemma_upsert_fresh(v3.locations, location_is(room2_id), g2);
        }
    }
    let w_rust = iv(9, 10);
    let w_systems = iv(9, 11);
    let w_social = iv(18, 19);
    let e1 = session(talk_rust, "Intro to Rust", w_rust);
    let e2 = session(talk_systems, "Systems Workshop", w_systems);
    let e3 = session(social, "Evening Social", w_social);
    let ghost (ge1, ge2, ge3) = (e1, e2, e3);
    let ghost distinct = talk_rust != talk_systems && talk_rust != social && talk_systems != social;
    let ghost v4 = repo@;
    seed_event(&mut repo, e1)?;
    proof {
        lemma_upsert_fresh(v4.events, event_is(talk_rust), ge1);
    }
    let ghost v5 = repo@;
    seed_event(&mut repo, e2)?;
    proof {
        if distinct {
            lemma_upsert_fresh(v5.events, event_is(talk_systems), ge2);
        }
    }
    let ghost v6 = repo@;
    seed_event(&mut repo, e3)?;
    proof {
        if distinct {
            lemma_upsert_fresh(v6.events, event_is(social), ge3);
            assert(repo@.events == seq![ge1, ge2, ge3]);
            crate::repo::lemma_first_where_is(repo@.events, event_is(talk_rust), 0);
            crate::repo::lemma_first_where_is(repo@.events, event_is(talk_systems), 1);
            crate::repo::lemma_first_where_is(repo@.events, event_is(social), 2);
        }
    }
    let ghost evs = repo@.events;
    let holds: [(EventId, LocationId); 3] = [(talk_rust, room_id), (talk_systems, room2_id), (social, room_id)];
    let mut k: usize = 0;
    while k < 3
        invariant
            k <= 3,
            holds@.len() == 3,
            holds@[0].0 == talk_rust && holds@[1].0 == talk_systems && holds@[2].0 == social,
            holds@[0].1 == room_id && holds@[1].1 == room2_id && holds@[2].1 == room_id,
            has_person(repo@, ada),
            has_event(repo@, talk_rust) && has_event(repo@, talk_systems) && has_event(repo@, social),
            has_location(repo@, room_id) && has_location(repo@, room2_id),
            repo@.held.len() == k,
            forall|j: int| 0 <= j < k ==> (#[trigger] repo@.held[j]).event == holds@[j].0,
            forall|j: int| 0 <= j < k ==> (#[trigger] repo@.held[j]).location == holds@[j].1,
            forall|j: int| 0 <= j < k ==> (#[trigger] repo@.held[j]).overflow_for is None,
            repo@.events == evs,
            distinct == (talk_rust != talk_systems && talk_rust != social && talk_systems != social),
            distinct ==> evs == seq![ge1, ge2, ge3],
            distinct ==> find_where(evs, event_is(talk_rust)) == Some(ge1) && find_where(evs, event_is(talk_systems)) == Some(ge2)
                && find_where(evs, event_is(social)) == Some(ge3),
            distinct ==> forall|j: int| 0 <= j < k ==> (#[trigger] repo@.held[j]).during == evs[j].window,
            repo@.groups == seq![ggrp],
            room_id != room2_id ==> repo@.locations == seq![g1, g2],
            repo@.member_of.len() == 0 && repo@.expects.len() == 0 && repo@.attends.len() == 0 && repo@.violations.len() == 0,
        decreases 3 - k,
    {
        let (e, l) = holds[k];
        let during = match repo.event(e) {
            Some(ev) => ev.window,
            None => {
                return Err(OrreryError::NotFound(crate::model::EntityRef::Event(e)));
            },
        };
        let ghost before = repo@;
        repo.apply(
            Command::HoldLocation { location: l, event: e, during, overflow_for: None, capacity_override: None },
        )?;
        assert(repo@.held == before.held.push(repo@.held[k as int]));
        k += 1;
    }
    let engine = Engine::new(repo)?;
    let mut svc = MusterService::new(engine);
    let year = iv(0, 24 * 365);
    proof {
        svc.lemma_engine_value();
    }
    svc.engine_mut().apply(Command::AddMembership { person: ada, group: cohort, during: year, role: Role::Member })?;
    proof {
        svc.lemma_engine_value();
    }
    svc.engine_mut().apply(
        Command::AddExpectation {
            group: cohort,
            event: social,
            obligation: Obligation::Expected,
            default_priority: Priority(0xbf00_0000),
            during: year,
            cascades: true,
            by: Actor::System,
        },
    )?;
    proof {
        svc.lemma_engine_value();
    }
    let w = DemoWorld { member: ada, cohort, talk_rust, talk_systems, social, day: iv(0, 24), now: Timestamp(8 * HOUR) };
    assert(svc.wf());
    assert(forall|k: crate::model::ViolationKind| svc.policies().policy_of(k) == crate::detect::Policy::Detect);
    assert(has_person(svc@, w.member));
    assert(has_event(svc@, w.talk_rust));
    assert(svc@.member_of == seq![MemberOf { person: w.member, group: w.cohort, during: svc@.member_of[0].during, role: Role::Member }]);
    assert(svc@.member_of[0].during.lo() == 0 && svc@.member_of[0].during.hi() == 24 * 365 * HOUR);
    assert(svc@.expects.len() == 1);
    assert(svc@.expects[0].group == w.cohort && svc@.expects[0].event == w.social && svc@.expects[0].cascades);
    assert(svc@.held.len() == 3);
    assert(svc@.attends.len() == 0);
    assert(svc@.violations.len() == 0);
    assert(demo_layout(svc@, w));
    Ok((svc, w))
}

/// The report of the story.
#[derive(Debug)]
pub struct DemoReport {
    pub member: PersonId,
    pub conflicts_after_selection: usize,
    pub schedule: Vec<ScheduleEntry>,
    pub derived_entries: usize,
    pub lines: Vec<String>,
}

/// Entries derived from a group expectation.
pub open spec fn derived_count(s: Seq<EntryView>) -> int
    decreases s.len(),
{
    if s.len() == 0 {
        0
    } else {
        derived_count(s.drop_last()) + if s.last().source is DerivedFromGroup {
            1int
        } else {
            0int
        }
    }
}

/// The line announcing how many problems a selection surfaced.
pub open spec fn selection_chars(n: nat) -> Seq<char> {
    "Ada selected two talks; the system immediately shows "@ + decimal(n) + " problem(s)."@
}

/// The provenance text of an entry's source.
pub open spec fn source_chars(s: SourceView) -> Seq<char> {
    match s {
        SourceView::SelfSelected => "you picked this"@,
        SourceView::Coordinator => "a coordinator placed this"@,
        SourceView::DerivedFromGroup { group_name, .. } => "expected via group '"@ + group_name + "'"@,
    }
}

/// `s` followed by spaces up to `width` characters.
pub open spec fn padded_chars(s: Seq<char>, width: nat) -> Seq<char> {
    if s.len() >= width {
        s
    } else {
        s + Seq::new((width - s.len()) as nat, |i: int| ' ')
    }
}

/// One schedule line: the event name padded to eighteen characters, its
/// provenance, and the conflict mark of a flagged entry.
pub open spec fn entry_chars(e: EntryView) -> Seq<char> {
    "  "@ + padded_chars(e.event_name, 18) + " — "@ + source_chars(e.source) + if e.flagged {
        "  ⚠ CONFLICT"@
    } else {
        ""@
    }
}

/// The line announcing how many problems a selection surfaced.
fn selection_line(n: usize) -> (r: String)
    ensures
        r@ == selection_chars(n as nat),
{
    counted("Ada selected two talks; the system immediately shows ", n, " problem(s).")
}

/// `s` followed by spaces up to `width` characters.
fn padded(s: &str, width: usize) -> (r: String)
    ensures
        r@ == padded_chars(s@, width as nat),
{
    let n = s.unicode_len();
    let mut out = s.to_owned();
    let mut k = n;
    while k < width
        invariant
            n == s@.len(),
            n <= k,
            k <= width || k == n,
            out@ == s@ + Seq::new((k - n) as nat, |i: int| ' '),
        decreases width - k,
    {
        let ghost before = out@;
        out.append(" ");
        proof {
            reveal_strlit(" ");
            assert(out@ =~= s@ + Seq::new((k + 1 - n) as nat, |i: int| ' '));
        }
        k += 1;
    }
    assert(n >= width ==> out@ =~= s@);
    out
}

/// The provenance text of a group-derived entry.
fn group_source_text(group_name: &str) -> (r: String)
    ensures
        r@ == "expected via group '"@ + group_name@ + "'"@,
{
    let head = joined("expected via group '", group_name);
    joined(head.as_str(), "'")
}

/// One schedule line: the event name padded to a column, its provenance,
/// and the conflict mark.
fn entry_line(name: &str, source: &str, mark: &str) -> (r: String)
    ensures
        r@ == "  "@ + padded_chars(name@, 18) + " — "@ + source@ + mark@,
{
    let col = padded(name, 18);
    let a = joined("  ", col.as_str());
    let b = joined(a.as_str(), " — ");
    let c = joined(b.as_str(), source);
    joined(c.as_str(), mark)
}

/// What the story's report shows of state `v`: the member's conflicts and
/// her schedule over the demo day, seen from the morning.
pub open spec fn story_seen(rep: &DemoReport, v: RepoView, day: Interval, now: Timestamp) -> bool {
    &&& day.lo() == 0 && day.hi() == 24 * HOUR && now.0 == 8 * HOUR
    &&& touching(v, rep.member).len() == rep.conflicts_after_selection
    &&& entries_view(rep.schedule@) == schedule_spec(v, rep.member, day, now)
}

/// The member's selection of `event` at `priority`.
pub open spec fn pick(w: DemoWorld, event: EventId, priority: Priority) -> Command {
    Command::AddAttendance { person: w.member, event, priority: Some(priority) }
}

/// The states the story passes through: the seeded world `v0`; the
/// member's selection of the talk on Rust (priority key of `0.9`), swept
/// over the demo day seen from the morning, into `v1`; her selection of
/// the systems workshop (priority key of `0.7`), swept likewise, into `v2`.
pub open spec fn story_states(w: DemoWorld, v0: RepoView, v1: RepoView, v2: RepoView) -> bool {
    &&& demo_seeded(v0, w)
    &&& w.day.lo() == 0 && w.day.hi() == 24 * HOUR && w.now.0 == 8 * HOUR
    &&& after_sweep(applied(v0, pick(w, w.talk_rust, Priority(0xbf66_6666))), v1, w.day, w.now)
    &&& after_sweep(applied(v1, pick(w, w.talk_systems, Priority(0xbf33_3333))), v2, w.day, w.now)
}

/// Build the demo world and walk the story: the member self-selects two
/// overlapping talks (a conflict appears, from engine records); her
/// cohort's expectation of the evening social shows as a derived entry
/// with provenance, with no attendance write.
pub fn run_demo() -> (r: Result<DemoReport, OrreryError>)
    ensures
        r matches Ok(rep) && {
            &&& rep.derived_entries == derived_count(entries_view(rep.schedule@))
            &&& rep.lines@.len() == 1 + rep.schedule@.len()
            &&& rep.lines@[0]@ == selection_chars(rep.conflicts_after_selection as nat)
            &&& forall|k: int| 0 <= k < rep.schedule@.len() ==> #[trigger] rep.lines@[k + 1]@ == entry_chars(rep.schedule@[k]@)
            &&& exists|w: DemoWorld, v0: RepoView, v1: RepoView, v2: RepoView| #[trigger] story_states(w, v0, v1, v2)
                && rep.member == w.member && story_seen(&rep, v2, w.day, w.now)
        },
{
    let (mut svc, w) = match build_demo_world() {
        Ok(x) => x,
        Err(e) => {
            return Err(e);
        },
    };
    let ada = w.member;
    let day = w.day;
    let now = w.now;
    let mut lines: Vec<String> = Vec::new();
    let ghost v0 = svc@;
    assert(svc.policies().policy_of(crate::model::ViolationKind::TimeConflict) == crate::detect::Policy::Detect);
    match svc.select(ada, w.talk_rust, Some(Priority(0xbf66_6666)), now, day) {
        Ok(_) => {},
        Err(e) => {
            return Err(e);
        },
    }
    let ghost v1 = svc@;
    assert(svc@.persons == v0.persons && svc@.events == v0.events);
    assert(has_person(svc@, ada) && has_event(svc@, w.talk_systems));
    let outcome = match svc.select(ada, w.talk_systems, Some(Priority(0xbf33_3333)), now, day) {
        Ok(o) => o,
        Err(e) => {
            return Err(e);
        },
    };
    let conflicts = outcome.conflicts.len();
    assert(touching(svc@, ada).len() == conflicts);
    lines.push(selection_line(conflicts));
    let view = match svc.my_schedule(ada, day, now) {
        Ok(v) => v,
        Err(e) => {
            return Err(e);
        },
    };
    assert(entries_view(view.entries@) == schedule_spec(svc@, ada, day, now));
    let ghost ev = entries_view(view.entries@);
    let mut derived_entries: usize = 0;
    let mut i: usize = 0;
    while i < view.entries.len()
        invariant
            i <= view.entries@.len(),
            ev == entries_view(view.entries@),
            derived_entries == derived_count(ev.take(i as int)),
            derived_entries <= i,
            lines@.len() == 1 + i,
            lines@[0]@ == selection_chars(conflicts as nat),
            forall|k: int| 0 <= k < i ==> #[trigger] lines@[k + 1]@ == entry_chars(ev[k]),
        decreases view.entries@.len() - i,
    {
        let entry = &view.entries[i];
        let src = match &entry.source {
            EntrySource::SelfSelected => "you picked this".to_owned(),
            EntrySource::Coordinator => "a coordinator placed this".to_owned(),
            EntrySource::DerivedFromGroup { group_name, .. } => group_source_text(group_name.as_str()),
        };
        let mark = if entry.flagged {
            "  ⚠ CONFLICT"
        } else {
            ""
        };
        proof {
            reveal_strlit("you picked this");
            reveal_strlit("a coordinator placed this");
            reveal_strlit("  ⚠ CONFLICT");
            reveal_strlit("");
        }
        assert(src@ == source_chars(entry.source@));
        assert(mark@ == (if entry.flagged {
            "  ⚠ CONFLICT"@
        } else {
            ""@
        }));
        let line = entry_line(entry.event_name.as_str(), src.as_str(), mark);
        assert(ev[i as int] == entry@);
        assert(line@ == entry_chars(ev[i as int]));
        let ghost before = lines@;
        lines.push(line);
        assert(lines@[i + 1] == line);
        assert(lines@[0] == before[0]);
        assert(ev.take(i + 1).drop_last() =~= ev.take(i as int));
        if let EntrySource::DerivedFromGroup { .. } = &entry.source {
            derived_entries += 1;
        }
        i += 1;
    }
    assert(ev.take(view.entries@.len() as int) =~= ev);
    let schedule = view.entries;
    let rep = DemoReport { member: ada, conflicts_after_selection: conflicts, schedule, derived_entries, lines };
    assert(story_seen(&rep, svc@, day, now));
    assert(story_states(w, v0, v1, svc@));
    assert(rep.derived_entries == derived_count(entries_view(rep.schedule@)));
    assert(rep.lines@.len() == 1 + rep.schedule@.len());
    Ok(rep)
}

} // verus!
