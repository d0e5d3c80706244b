//! The service layer: what any frontend calls.

use vstd::prelude::*;

use crate::command::Command;
use crate::derive::{effective_schedule, expand_spec, shadowed, DerivedAttends};
use crate::engine::{engine_refusal, hold_key, open_records, Engine};
use crate::error::OrreryError;
use crate::interval::{Interval, Timestamp};
use crate::model::{
    Actor, AttendanceSource, Attends, EntityRef, Event, EventId, GroupId, Held, PersonId, Priority, Violation,
    ViolationView,
};
use crate::order::{keyed_by, payloads, sort_keyed, stable_sort_by, ts_key, ts_key_spec};
use crate::repo::find_where;
use crate::repo::memory::{applied, event_is, event_start_key, group_is, location_is, next_seq, RepoView};

verus! {

pub struct MusterService {
    engine: Engine,
}

impl View for MusterService {
    type V = RepoView;

    closed spec fn view(&self) -> RepoView {
        self.engine@
    }
}

#[derive(Debug)]
pub struct SelectionOutcome {
    pub seq: u64,
    /// Open violations touching the member after the change, shown
    /// immediately.
    pub conflicts: Vec<Violation>,
}

#[derive(Debug)]
pub enum EntrySource {
    /// The member chose this themselves.
    SelfSelected,
    /// A coordinator placed it.
    Coordinator,
    /// Derived from a group expectation: no attendance row exists; the
    /// entry names where it came from.
    DerivedFromGroup { group: GroupId, group_name: String },
}

/// The value of an entry's source.
pub enum SourceView {
    SelfSelected,
    Coordinator,
    DerivedFromGroup { group: GroupId, group_name: Seq<char> },
}

impl View for EntrySource {
    type V = SourceView;

    open spec fn view(&self) -> SourceView {
        match self {
            EntrySource::SelfSelected => SourceView::SelfSelected,
            EntrySource::Coordinator => SourceView::Coordinator,
            EntrySource::DerivedFromGroup { group, group_name } => SourceView::DerivedFromGroup {
                group: *group,
                group_name: group_name@,
            },
        }
    }
}

#[derive(Debug)]
pub struct ScheduleEntry {
    pub event: EventId,
    pub event_name: String,
    pub window: Interval,
    pub source: EntrySource,
    /// True when an open violation touching the member names this event:
    /// read from engine records, never recomputed here.
    pub flagged: bool,
}

/// The value of a schedule entry.
pub struct EntryView {
    pub event: EventId,
    pub event_name: Seq<char>,
    pub window: Interval,
    pub source: SourceView,
    pub flagged: bool,
}

impl View for ScheduleEntry {
    type V = EntryView;

    open spec fn view(&self) -> EntryView {
        EntryView {
            event: self.event,
            event_name: self.event_name@,
            window: self.window,
            source: self.source@,
            flagged: self.flagged,
        }
    }
}

#[derive(Debug)]
pub struct ScheduleView {
    pub entries: Vec<ScheduleEntry>,
}

impl Default for ScheduleView {
    fn default() -> (r: ScheduleView)
        ensures
            r.entries@.len() == 0,
    {
        ScheduleView { entries: Vec::new() }
    }
}

/// One browsable event: name, time and primary room.
#[derive(Debug)]
pub struct EventSummary {
    pub event: EventId,
    pub name: String,
    pub window: Interval,
    /// Primary room name: first non-overflow hold, ties to the smaller
    /// location, as the engine places events.
    pub room: Option<String>,
}

/// The value of an event summary.
pub struct SummaryView {
    pub event: EventId,
    pub name: Seq<char>,
    pub window: Interval,
    pub room: Option<Seq<char>>,
}

impl View for EventSummary {
    type V = SummaryView;

    open spec fn view(&self) -> SummaryView {
        SummaryView {
            event: self.event,
            name: self.name@,
            window: self.window,
            room: match self.room {
                Some(r) => Some(r@),
                None => None,
            },
        }
    }
}

/// The name of the room an event is primarily held in, if any.
pub open spec fn primary_room(v: RepoView, e: EventId) -> Option<Seq<char>> {
    let hs = stable_sort_by(v.held.filter(|h: Held| h.event == e), |h: Held| hold_key(h));
    if hs.len() == 0 {
        None
    } else {
        match find_where(v.locations, location_is(hs[0].location)) {
            Some(l) => Some(l.name@),
            None => None,
        }
    }
}

/// The name of the location `l`, if it is known.
pub open spec fn location_name(v: RepoView, l: crate::model::LocationId) -> Option<Seq<char>> {
    match find_where(v.locations, location_is(l)) {
        Some(loc) => Some(loc.name@),
        None => None,
    }
}

/// The room shown for an event is its primary hold's: for any hold `h` of
/// the event, the room shown is the name of the location of a hold `p` of
/// the event. When `h` is not an overflow hold, neither is `p`, and `p`'s
/// location identifier is no greater than `h`'s (the first non-overflow
/// hold by location); an overflow room is shown only when every hold is an
/// overflow, and then the one of smallest location identifier.
pub proof fn lemma_primary_room_is_primary_hold(v: RepoView, e: EventId, h: Held)
    requires
        v.held.contains(h),
        h.event == e,
    ensures
        exists|p: Held|
            #![trigger v.held.contains(p)]
            v.held.contains(p) && p.event == e && primary_room(v, e) == location_name(v, p.location) && (h.overflow_for is None
                ==> p.overflow_for is None && p.location.0 <= h.location.0) && (p.overflow_for is Some ==> p.location.0
                <= h.location.0),
{
    let pred = |x: Held| x.event == e;
    let key = |x: Held| hold_key(x);
    let f = v.held.filter(pred);
    let hs = stable_sort_by(f, key);
    let k0 = choose|k: int| 0 <= k < v.held.len() && v.held[k] == h;
    v.held.lemma_filter_contains(pred, k0);
    crate::order::lemma_stable_sort(f, key);
    vstd::seq_lib::to_multiset_contains(f, h);
    vstd::seq_lib::to_multiset_contains(hs, h);
    let q = choose|q: int| 0 <= q < hs.len() && hs[q] == h;
    let p = hs[0];
    if q > 0 {
        assert(crate::order::key_le(key(hs[0]), key(hs[q])));
    } else {
        crate::order::lemma_key_lt_irreflexive(hold_key(h));
    }
    let kp = hold_key(p);
    let kh = hold_key(h);
    assert(crate::order::key_le(kp, kh));
    reveal_with_fuel(crate::order::key_lt, 3);
    assert(kp.drop_first() =~= seq![kp[1]]);
    assert(kh.drop_first() =~= seq![kh[1]]);
    assert(hs.contains(p));
    vstd::seq_lib::to_multiset_contains(hs, p);
    vstd::seq_lib::to_multiset_contains(f, p);
    v.held.lemma_filter_contains_rev(pred, p);
    let j = choose|j: int| 0 <= j < f.len() && f[j] == p;
    v.held.lemma_filter_pred(pred, j);
    assert(primary_room(v, e) == location_name(v, p.location));
    assert(v.held.contains(p));
}

/// The summary of one event.
pub open spec fn summary_of(v: RepoView, e: Event) -> SummaryView {
    SummaryView { event: e.id, name: e.name@, window: e.window, room: primary_room(v, e.id) }
}

/// Open violations naming the person.
pub open spec fn touching(v: RepoView, person: PersonId) -> Seq<ViolationView> {
    open_records(v).filter(|o: ViolationView| o.subjects.contains(EntityRef::Person(person)))
}

/// Whether an open violation touching the member names the event.
pub open spec fn flagged_in(open: Seq<ViolationView>, event: EventId) -> bool {
    exists|k: int| 0 <= k < open.len() && (#[trigger] open[k]).subjects.contains(EntityRef::Event(event))
}

/// An event's name, or a placeholder for an unknown one.
pub open spec fn event_name_of(v: RepoView, e: EventId) -> Seq<char> {
    match find_where(v.events, event_is(e)) {
        Some(ev) => ev.name@,
        None => "(unknown event)"@,
    }
}

/// A group's name, or a placeholder for an unknown one.
pub open spec fn group_name_of(v: RepoView, g: GroupId) -> Seq<char> {
    match find_where(v.groups, group_is(g)) {
        Some(gr) => gr.name@,
        None => "(unknown group)"@,
    }
}

/// The entry an explicit edge shows as.
pub open spec fn explicit_entry(v: RepoView, person: PersonId, a: Attends) -> EntryView {
    EntryView {
        event: a.event,
        event_name: event_name_of(v, a.event),
        window: a.during,
        source: match a.source {
            AttendanceSource::SelfSelected => SourceView::SelfSelected,
            AttendanceSource::Coordinator(_) => SourceView::Coordinator,
            AttendanceSource::Group(g) => SourceView::DerivedFromGroup { group: g, group_name: group_name_of(v, g) },
        },
        flagged: flagged_in(touching(v, person), a.event),
    }
}

/// The entry a derived edge shows as: with the event's window (a derived
/// edge's own window is the expectation's validity, not when the event
/// happens) and the group it came from.
pub open spec fn derived_entry(v: RepoView, person: PersonId, d: DerivedAttends) -> EntryView {
    EntryView {
        event: d.event,
        event_name: event_name_of(v, d.event),
        window: match find_where(v.events, event_is(d.event)) {
            Some(ev) => ev.window,
            None => d.during,
        },
        source: SourceView::DerivedFromGroup { group: d.source_group, group_name: group_name_of(v, d.source_group) },
        flagged: flagged_in(touching(v, person), d.event),
    }
}

/// Order of schedule entries: window start, then event.
pub open spec fn entry_key(e: EntryView) -> Seq<u128> {
    seq![ts_key_spec(e.window.lo() as i64), e.event.0]
}

/// The member's schedule: explicit attendance in `window`, plus the
/// derived edges at `at` for events with no explicit edge, by start.
pub open spec fn schedule_spec(v: RepoView, person: PersonId, window: Interval, at: Timestamp) -> Seq<EntryView> {
    let explicit = v.attends.filter(|a: Attends| a.person == person && a.during.overlaps_with(window));
    let derived = expand_spec(v, person, at).filter(|d: DerivedAttends| !shadowed(explicit, d));
    stable_sort_by(
        explicit.map_values(|a: Attends| explicit_entry(v, person, a)) + derived.map_values(
            |d: DerivedAttends| derived_entry(v, person, d),
        ),
        |e: EntryView| entry_key(e),
    )
}

/// Views of a list of entries.
pub open spec fn entries_view(s: Seq<ScheduleEntry>) -> Seq<EntryView> {
    s.map_values(|e: ScheduleEntry| e@)
}

impl MusterService {
    pub closed spec fn wf(&self) -> bool {
        self.engine.wf()
    }

    pub fn new(engine: Engine) -> (r: MusterService)
        requires
            engine.wf(),
        ensures
            r.wf(),
            r@ == engine@,
            r.policies() == engine.policy_map(),
    {
        MusterService { engine }
    }

    /// The engine, for administration and setup.
    pub fn engine_mut(&mut self) -> (r: &mut Engine)
        ensures
            *r == old(self).engine_value(),
            final(self).engine_value() == *final(r),
    {
        &mut self.engine
    }

    /// The engine a service wraps.
    pub closed spec fn engine_value(&self) -> Engine {
        self.engine
    }

    /// The service over an engine, seen through its wrapper.
    pub proof fn lemma_engine_value(&self)
        ensures
            self.wf() == self.engine_value().wf(),
            self@ == self.engine_value()@,
            self.policies() == self.engine_value().policy_map(),
    {
    }

    /// Browse: events overlapping `window`, by start, with their primary
    /// room's name.
    pub fn events(&self, window: Interval) -> (r: Result<Vec<EventSummary>, OrreryError>)
        ensures
            r matches Ok(es) && es@.map_values(|s: EventSummary| s@) == stable_sort_by(
                self@.events.filter(|e: Event| e.window.overlaps_with(window)),
                |e: Event| event_start_key(e),
            ).map_values(|e: Event| summary_of(self@, e)),
    {
        let repo = self.engine.repo();
        let evs = repo.events_in(window);
        let ghost sf = |s: EventSummary| s@;
        let ghost ef = |e: Event| summary_of(self@, e);
        let mut out: Vec<EventSummary> = Vec::new();
        let mut i: usize = 0;
        while i < evs.len()
            invariant
                i <= evs@.len(),
                repo@ == self@,
                sf == (|s: EventSummary| s@),
                ef == (|e: Event| summary_of(self@, e)),
                out@.map_values(sf) == evs@.take(i as int).map_values(ef),
            decreases evs@.len() - i,
        {
            let e = &evs[i];
            let holds = repo.held_for_event(e.id);
            let ghost key = |h: Held| hold_key(h);
            let mut keyed: Vec<(Vec<u128>, Held)> = Vec::new();
            let mut k: usize = 0;
            while k < holds.len()
                invariant
                    k <= holds@.len(),
                    key == (|h: Held| hold_key(h)),
                    keyed_by(keyed@, key),
                    payloads(keyed@) == holds@.take(k as int),
                decreases holds@.len() - k,
            {
                let h = holds[k];
                let mut kv: Vec<u128> = Vec::new();
                kv.push(if h.overflow_for.is_some() { 1u128 } else { 0u128 });
                kv.push(h.location.0);
                assert(kv@ =~= hold_key(h));
                let ghost before = keyed@;
                keyed.push((kv, h));
                assert(payloads(keyed@) =~= payloads(before).push(h));
                assert(holds@.take(k + 1) =~= holds@.take(k as int).push(h));
                k += 1;
            }
            assert(holds@.take(holds@.len() as int) =~= holds@);
            let sorted = crate::order::sorted_payloads(keyed, Ghost(key));
            let room = if sorted.len() > 0 {
                match repo.location(sorted[0].location) {
                    Some(l) => Some(l.name),
                    None => None,
                }
            } else {
                None
            };
            let s = EventSummary { event: e.id, name: e.name.clone(), window: e.window, room };
            assert(s@ == summary_of(self@, *e));
            let ghost before = out@;
            out.push(s);
            assert(out@.map_values(sf) =~= before.map_values(sf).push(s@));
            assert(evs@.take(i + 1).map_values(ef) =~= evs@.take(i as int).map_values(ef).push(ef(evs@[i as int])));
            i += 1;
        }
        assert(evs@.take(evs@.len() as int) =~= evs@);
        Ok(out)
    }

    /// Open violations naming the person, by identifier.
    fn violations_touching(&self, person: PersonId) -> (r: Vec<Violation>)
        ensures
            crate::model::violations_view(r@) == touching(self@, person),
    {
        let open = self.engine.repo().open_violations();
        let ghost pred = |o: ViolationView| o.subjects.contains(EntityRef::Person(person));
        let ghost ov = crate::model::violations_view(open@);
        let mut out: Vec<Violation> = Vec::new();
        let mut i: usize = 0;
        while i < open.len()
            invariant
                i <= open@.len(),
                ov == crate::model::violations_view(open@),
                pred == (|o: ViolationView| o.subjects.contains(EntityRef::Person(person))),
                crate::model::violations_view(out@) == ov.take(i as int).filter(pred),
            decreases open@.len() - i,
        {
            let v = &open[i];
            proof {
                assert(ov[i as int] == v@);
                assert(ov.take(i + 1) =~= ov.take(i as int).push(v@));
                ov.take(i as int).lemma_filter_push(v@, pred);
            }
            if refs_contain(&v.subjects, EntityRef::Person(person)) {
                let ghost before = out@;
                let c = v.clone();
                out.push(c);
                assert(crate::model::violations_view(out@) =~= crate::model::violations_view(before).push(v@));
            }
            i += 1;
        }
        assert(ov.take(open@.len() as int) =~= ov);
        out
    }
}

/// Whether a subject list names `x`.
fn refs_contain(s: &Vec<EntityRef>, x: EntityRef) -> (r: bool)
    ensures
        r == s@.contains(x),
{
    let mut i: usize = 0;
    while i < s.len()
        invariant
            i <= s@.len(),
            forall|k: int| 0 <= k < i ==> s@[k] != x,
        decreases s@.len() - i,
    {
        if s[i] == x {
            return true;
        }
        i += 1;
    }
    false
}

/// What a change followed by a sweep over `window` at `at` leaves: `v`
/// with the violation records and the apply counter replaced, the records
/// as the sweep leaves them.
pub open spec fn after_sweep(v: RepoView, fin: RepoView, window: Interval, at: Timestamp) -> bool {
    &&& fin == (RepoView { violations: fin.violations, seq: fin.seq, ..v })
    &&& crate::engine::swept_from(v, fin, window, at)
}

impl MusterService {
    /// The policy map in force.
    pub closed spec fn policies(&self) -> crate::detect::PolicyMap {
        self.engine.policy_map()
    }

    /// Apply a command, then sweep and read back what touches the member.
    fn change_and_sweep(&mut self, person: PersonId, cmd: Command, at: Timestamp, window: Interval) -> (r: Result<SelectionOutcome, OrreryError>)
        requires
            old(self).wf(),
        ensures
            final(self).wf(),
            final(self).policies() == old(self).policies(),
            r is Ok <==> engine_refusal(old(self)@, old(self).policies(), cmd) is None,
            r matches Err(e) ==> Some(e) == engine_refusal(old(self)@, old(self).policies(), cmd) && final(self)@ == old(self)@,
            r matches Ok(o) ==> o.seq == next_seq(old(self)@.seq) && after_sweep(applied(old(self)@, cmd), final(self)@, window, at)
                && crate::model::violations_view(o.conflicts@) == touching(final(self)@, person),
    {
        let receipt = match self.engine.apply(cmd) {
            Ok(rc) => rc,
            Err(e) => {
                return Err(e);
            },
        };
        match self.engine.sweep(at, window) {
            Ok(_) => {},
            Err(e) => {
                return Err(e);
            },
        }
        let conflicts = self.violations_touching(person);
        Ok(SelectionOutcome { seq: receipt.seq, conflicts })
    }

    /// Select: the engine records the member's attendance; conflicts come
    /// back immediately, from violation records after a sweep.
    pub fn select(&mut self, person: PersonId, event: EventId, priority: Option<Priority>, at: Timestamp, window: Interval) -> (r: Result<SelectionOutcome, OrreryError>)
        requires
            old(self).wf(),
        ensures
            final(self).wf(),
            final(self).policies() == old(self).policies(),
            ({
                let cmd = Command::AddAttendance { person, event, priority };
                &&& r is Ok <==> engine_refusal(old(self)@, old(self).policies(), cmd) is None
                &&& r matches Err(e) ==> Some(e) == engine_refusal(old(self)@, old(self).policies(), cmd) && final(self)@ == old(self)@
                &&& r matches Ok(o) ==> o.seq == next_seq(old(self)@.seq) && after_sweep(applied(old(self)@, cmd), final(self)@, window, at)
                    && crate::model::violations_view(o.conflicts@) == touching(final(self)@, person)
            }),
    {
        self.change_and_sweep(person, Command::AddAttendance { person, event, priority }, at, window)
    }

    /// The member sets a personal priority on their own selection.
    pub fn set_priority(&mut self, person: PersonId, event: EventId, value: Priority) -> (r: Result<u64, OrreryError>)
        requires
            old(self).wf(),
        ensures
            final(self).wf(),
            final(self).policies() == old(self).policies(),
            ({
                let cmd = Command::SetPriority { person, event, by: Actor::Member(person), binding: false, value };
                &&& r is Ok <==> engine_refusal(old(self)@, old(self).policies(), cmd) is None
                &&& r matches Err(e) ==> Some(e) == engine_refusal(old(self)@, old(self).policies(), cmd) && final(self)@ == old(self)@
                &&& r matches Ok(seq) ==> seq == next_seq(old(self)@.seq) && final(self)@ == applied(old(self)@, cmd)
            }),
    {
        let receipt = self.engine.apply(Command::SetPriority { person, event, by: Actor::Member(person), binding: false, value })?;
        Ok(receipt.seq)
    }

    /// Remove the selection; the sweep then resolves violations whose
    /// cause disappeared.
    pub fn deselect(&mut self, person: PersonId, event: EventId, at: Timestamp, window: Interval) -> (r: Result<SelectionOutcome, OrreryError>)
        requires
            old(self).wf(),
        ensures
            final(self).wf(),
            final(self).policies() == old(self).policies(),
            ({
                let cmd = Command::RemoveAttendance { person, event };
                &&& r is Ok <==> engine_refusal(old(self)@, old(self).policies(), cmd) is None
                &&& r matches Err(e) ==> Some(e) == engine_refusal(old(self)@, old(self).policies(), cmd) && final(self)@ == old(self)@
                &&& r matches Ok(o) ==> o.seq == next_seq(old(self)@.seq) && after_sweep(applied(old(self)@, cmd), final(self)@, window, at)
                    && crate::model::violations_view(o.conflicts@) == touching(final(self)@, person)
            }),
    {
        self.change_and_sweep(person, Command::RemoveAttendance { person, event }, at, window)
    }

    /// An event's name, or a placeholder.
    fn event_name(&self, e: EventId) -> (r: String)
        ensures
            r@ == event_name_of(self@, e),
    {
        match self.engine.repo().event(e) {
            Some(ev) => ev.name,
            None => "(unknown event)".to_owned(),
        }
    }

    /// A group's name, or a placeholder.
    fn group_name(&self, g: GroupId) -> (r: String)
        ensures
            r@ == group_name_of(self@, g),
    {
        match self.engine.repo().group(g) {
            Some(gr) => gr.name,
            None => "(unknown group)".to_owned(),
        }
    }

    /// The member's effective schedule: explicit attendance unioned with
    /// derived expectations, each entry carrying provenance and a flag
    /// sourced from open violation records, by start.
    pub fn my_schedule(&self, person: PersonId, window: Interval, at: Timestamp) -> (r: Result<ScheduleView, OrreryError>)
        ensures
            r matches Ok(view) && entries_view(view.entries@) == schedule_spec(self@, person, window, at),
    {
        let repo = self.engine.repo();
        let sched = effective_schedule(repo, person, window, at);
        let open = self.violations_touching(person);
        let ghost ov = crate::model::violations_view(open@);
        let ghost kf = |e: ScheduleEntry| entry_key(e@);
        let ghost xf = |a: Attends| explicit_entry(self@, person, a);
        let ghost df = |d: DerivedAttends| derived_entry(self@, person, d);
        let mut keyed: Vec<(Vec<u128>, ScheduleEntry)> = Vec::new();
        let mut i: usize = 0;
        while i < sched.explicit.len()
            invariant
                i <= sched.explicit@.len(),
                repo@ == self@,
                ov == touching(self@, person),
                ov == crate::model::violations_view(open@),
                kf == (|e: ScheduleEntry| entry_key(e@)),
                xf == (|a: Attends| explicit_entry(self@, person, a)),
                keyed_by(keyed@, kf),
                entries_view(payloads(keyed@)) == sched.explicit@.take(i as int).map_values(xf),
            decreases sched.explicit@.len() - i,
        {
            let a = sched.explicit[i];
            let source = match a.source {
                AttendanceSource::SelfSelected => EntrySource::SelfSelected,
                AttendanceSource::Coordinator(_) => EntrySource::Coordinator,
                AttendanceSource::Group(g) => EntrySource::DerivedFromGroup { group: g, group_name: self.group_name(g) },
            };
            let flagged = flagged_by(&open, a.event);
            let e = ScheduleEntry { event: a.event, event_name: self.event_name(a.event), window: a.during, source, flagged };
            assert(e@ == xf(a));
            let kv = entry_key_vec(&e);
            let ghost before = keyed@;
            keyed.push((kv, e));
            assert(entries_view(payloads(keyed@)) =~= entries_view(payloads(before)).push(xf(a)));
            assert(sched.explicit@.take(i + 1).map_values(xf) =~= sched.explicit@.take(i as int).map_values(xf).push(xf(a)));
            i += 1;
        }
        assert(sched.explicit@.take(sched.explicit@.len() as int) =~= sched.explicit@);
        let ghost nx = keyed@.len();
        let mut j: usize = 0;
        while j < sched.derived.len()
            invariant
                j <= sched.derived@.len(),
                repo@ == self@,
                ov == touching(self@, person),
                ov == crate::model::violations_view(open@),
                kf == (|e: ScheduleEntry| entry_key(e@)),
                xf == (|a: Attends| explicit_entry(self@, person, a)),
                df == (|d: DerivedAttends| derived_entry(self@, person, d)),
                keyed_by(keyed@, kf),
                entries_view(payloads(keyed@)) == sched.explicit@.map_values(xf) + sched.derived@.take(j as int).map_values(df),
            decreases sched.derived@.len() - j,
        {
            let d = sched.derived[j];
            let window_shown = match repo.event(d.event) {
                Some(ev) => ev.window,
                None => d.during,
            };
            let flagged = flagged_by(&open, d.event);
            let e = ScheduleEntry {
                event: d.event,
                event_name: self.event_name(d.event),
                window: window_shown,
                source: EntrySource::DerivedFromGroup { group: d.source_group, group_name: self.group_name(d.source_group) },
                flagged,
            };
            assert(e@ == df(d));
            let kv = entry_key_vec(&e);
            let ghost before = keyed@;
            keyed.push((kv, e));
            assert(entries_view(payloads(keyed@)) =~= entries_view(payloads(before)).push(df(d)));
            assert(sched.derived@.take(j + 1).map_values(df) =~= sched.derived@.take(j as int).map_values(df).push(df(d)));
            j += 1;
        }
        assert(sched.derived@.take(sched.derived@.len() as int) =~= sched.derived@);
        let ghost ks = payloads(keyed@);
        let sorted = sort_keyed(keyed, Ghost(kf));
        proof {
            crate::order::lemma_sort_map(ks, |e: ScheduleEntry| e@, |e: EntryView| entry_key(e), kf);
            assert(entries_view(ks) =~= ks.map_values(|e: ScheduleEntry| e@));
        }
        let entries = crate::order::into_payloads(sorted);
        assert(entries_view(entries@) =~= payloads(sorted@).map_values(|e: ScheduleEntry| e@));
        Ok(ScheduleView { entries })
    }
}

/// Whether an open violation among `open` names the event.
fn flagged_by(open: &Vec<Violation>, event: EventId) -> (r: bool)
    ensures
        r == flagged_in(crate::model::violations_view(open@), event),
{
    let ghost ov = crate::model::violations_view(open@);
    let mut i: usize = 0;
    while i < open.len()
        invariant
            i <= open@.len(),
            ov == crate::model::violations_view(open@),
            forall|k: int| 0 <= k < i ==> !(#[trigger] ov[k]).subjects.contains(EntityRef::Event(event)),
        decreases open@.len() - i,
    {
        assert(ov[i as int] == open@[i as int]@);
        if refs_contain(&open[i].subjects, EntityRef::Event(event)) {
            return true;
        }
        i += 1;
    }
    false
}

/// The order key of an entry, built.
fn entry_key_vec(e: &ScheduleEntry) -> (r: Vec<u128>)
    ensures
        r@ == entry_key(e@),
{
    let mut k: Vec<u128> = Vec::new();
    k.push(ts_key(e.window.start().0));
    k.push(e.event.0);
    assert(k@ =~= entry_key(e@));
    k
}

} // verus!
