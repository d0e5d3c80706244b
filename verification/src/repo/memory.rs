//! `MemoryRepo`: the in-memory repository.
//!
//! Writes go through [`MemoryRepo::apply`] only, which takes the
//! repository exclusively (`&mut self`): a second concurrent writer, or a
//! read while a write is open, is refused by the borrow checker before the
//! program runs. Traversals only ever apply constant instant filters.

use vstd::prelude::*;

use crate::command::{Command, CommandReceipt};
use crate::error::{OrreryError, Rejection};
use crate::interval::{Interval, Timestamp};
use crate::model::{
    violations_view, Actor, Anchors, AttendanceSource, Attends, ClosureEntry, DigestRecord,
    EntityRef, Event, EventId, Expects, Group, GroupId, Held, Location, LocationId, MemberOf, Mode,
    Person, PersonId, Posture, Priority, SubgroupOf, TravelCost, Traverse, Violation, ViolationId,
    ViolationView, Within,
};
use crate::order::{keyed_by, payloads, sort_keyed, sorted_unique, stable_sort_by, ts_key, ts_key_spec};
use crate::repo::{find_where, first_min, first_where, upsert_where, MAX_GROUP_DEPTH};
use crate::tier;

verus! {

/// The contents of a repository.
#[verifier::ext_equal]
pub struct RepoView {
    pub persons: Seq<Person>,
    pub groups: Seq<Group>,
    pub events: Seq<Event>,
    pub locations: Seq<Location>,
    pub attends: Seq<Attends>,
    pub held: Seq<Held>,
    pub member_of: Seq<MemberOf>,
    pub subgroup_of: Seq<SubgroupOf>,
    pub expects: Seq<Expects>,
    pub traverse: Seq<Traverse>,
    pub within: Seq<Within>,
    pub closure: Seq<ClosureEntry>,
    pub violations: Seq<ViolationView>,
    pub anchors: Seq<Anchors>,
    /// Number of commands applied.
    pub seq: u64,
}

pub struct MemoryRepo {
    persons: Vec<Person>,
    groups: Vec<Group>,
    events: Vec<Event>,
    locations: Vec<Location>,
    attends: Vec<Attends>,
    held: Vec<Held>,
    member_of: Vec<MemberOf>,
    subgroup_of: Vec<SubgroupOf>,
    expects: Vec<Expects>,
    traverse: Vec<Traverse>,
    within: Vec<Within>,
    closure: Vec<ClosureEntry>,
    violations: Vec<Violation>,
    anchors: Vec<Anchors>,
    seq: u64,
}

impl View for MemoryRepo {
    type V = RepoView;

    closed spec fn view(&self) -> RepoView {
        RepoView {
            persons: self.persons@,
            groups: self.groups@,
            events: self.events@,
            locations: self.locations@,
            attends: self.attends@,
            held: self.held@,
            member_of: self.member_of@,
            subgroup_of: self.subgroup_of@,
            expects: self.expects@,
            traverse: self.traverse@,
            within: self.within@,
            closure: self.closure@,
            violations: violations_view(self.violations@),
            anchors: self.anchors@,
            seq: self.seq,
        }
    }
}

// ------------------------------------------------------------ spec helpers

pub open spec fn person_is(id: PersonId) -> spec_fn(Person) -> bool {
    |p: Person| p.id == id
}

pub open spec fn group_is(id: GroupId) -> spec_fn(Group) -> bool {
    |g: Group| g.id == id
}

pub open spec fn event_is(id: EventId) -> spec_fn(Event) -> bool {
    |e: Event| e.id == id
}

pub open spec fn location_is(id: LocationId) -> spec_fn(Location) -> bool {
    |l: Location| l.id == id
}

pub open spec fn violation_is(id: ViolationId) -> spec_fn(ViolationView) -> bool {
    |v: ViolationView| v.id == id
}

pub open spec fn edge_is(person: PersonId, event: EventId) -> spec_fn(Attends) -> bool {
    |a: Attends| a.person == person && a.event == event
}

/// Identifier values of the stored persons.
pub open spec fn person_ids(v: RepoView) -> Set<u128> {
    v.persons.map_values(|p: Person| p.id.0).to_set()
}

/// The stored person identifiers, ascending, each once.
pub open spec fn person_list(v: RepoView) -> Seq<PersonId> {
    sorted_persons(person_ids(v))
}

/// The persons with identifiers in `ids`, ascending: the one strictly
/// increasing list of them.
pub open spec fn sorted_persons(ids: Set<u128>) -> Seq<PersonId> {
    choose|r: Seq<PersonId>| crate::order::strictly_increasing(#[trigger] person_keys(r)) && person_keys(r).to_set() == ids
}

/// Identifier values of a person list.
pub open spec fn person_keys(s: Seq<PersonId>) -> Seq<u128> {
    s.map_values(|p: PersonId| p.0)
}

/// The stored location identifiers, ascending, each once.
pub open spec fn location_list(v: RepoView) -> Seq<LocationId> {
    sorted_locations(location_ids(v))
}

/// The locations with identifiers in `ids`, ascending.
pub open spec fn sorted_locations(ids: Set<u128>) -> Seq<LocationId> {
    choose|r: Seq<LocationId>| crate::order::strictly_increasing(#[trigger] location_keys(r)) && location_keys(r).to_set() == ids
}

/// Identifier values of a location list.
pub open spec fn location_keys(s: Seq<LocationId>) -> Seq<u128> {
    s.map_values(|l: LocationId| l.0)
}

/// Identifier values of the stored locations.
pub open spec fn location_ids(v: RepoView) -> Set<u128> {
    v.locations.map_values(|l: Location| l.id.0).to_set()
}

/// Sort key: identifier.
pub open spec fn event_id_key(e: Event) -> Seq<u128> {
    seq![e.id.0]
}

/// Sort key: window start, then identifier.
pub open spec fn event_start_key(e: Event) -> Seq<u128> {
    seq![ts_key_spec(e.window.lo() as i64), e.id.0]
}

pub open spec fn violation_id_key(v: ViolationView) -> Seq<u128> {
    seq![v.id.0]
}

/// The travel answer a list of candidate costs gives: the first cheapest.
pub open spec fn cheapest(durations: Seq<int>, provenances: Seq<crate::model::TravelProvenance>) -> Option<TravelCost> {
    if durations.len() == 0 {
        None
    } else {
        Some(TravelCost { duration_s: durations[first_min(durations)] as i64, provenance: provenances[first_min(durations)] })
    }
}

/// Closure entries `from -> to`, optionally restricted to a mode.
pub open spec fn closure_matches(v: RepoView, from: LocationId, to: LocationId, mode: Option<Seq<char>>) -> Seq<ClosureEntry> {
    v.closure.filter(|e: ClosureEntry| e.from == from && e.to == to && match mode {
        Some(m) => e.mode.0@ == m,
        None => true,
    })
}

/// Traverse rows `from -> to`, optionally restricted to a mode.
pub open spec fn traverse_matches(v: RepoView, from: LocationId, to: LocationId, mode: Option<Seq<char>>) -> Seq<Traverse> {
    v.traverse.filter(|t: Traverse| t.from == from && t.to == to && match mode {
        Some(m) => t.mode.0@ == m,
        None => true,
    })
}

/// Cheapest known cost `from -> to`: the materialised closure when it has
/// an entry, else the cheapest direct traverse row.
pub open spec fn travel_spec(v: RepoView, from: LocationId, to: LocationId, mode: Option<Seq<char>>) -> Option<TravelCost> {
    let c = closure_matches(v, from, to, mode);
    let t = traverse_matches(v, from, to, mode);
    if c.len() > 0 {
        cheapest(c.map_values(|e: ClosureEntry| e.duration_s as int), c.map_values(|e: ClosureEntry| e.provenance))
    } else {
        cheapest(t.map_values(|e: Traverse| e.duration_typical_s as int), t.map_values(|e: Traverse| e.provenance))
    }
}

/// One step of the bounded upward walk: scan the subgroup edges in order;
/// each edge valid at `at` whose child is in `frontier` contributes its
/// parent once, unless it is the origin.
pub open spec fn ancestor_step(edges: Seq<SubgroupOf>, origin: GroupId, at: Timestamp, frontier: Seq<GroupId>, seen: Seq<GroupId>, next: Seq<GroupId>, k: int) -> (Seq<GroupId>, Seq<GroupId>)
    decreases k,
{
    if k <= 0 {
        (seen, next)
    } else {
        let (s, n) = ancestor_step(edges, origin, at, frontier, seen, next, k - 1);
        let e = edges[k - 1];
        if frontier.contains(e.child) && e.during.contains_spec(at.0 as int) && e.parent != origin && !s.contains(e.parent) {
            (s.push(e.parent), n.push(e.parent))
        } else {
            (s, n)
        }
    }
}

/// The walk from `frontier` for at most `depth` more levels.
pub open spec fn ancestor_walk(edges: Seq<SubgroupOf>, origin: GroupId, at: Timestamp, frontier: Seq<GroupId>, seen: Seq<GroupId>, depth: nat) -> Seq<GroupId>
    decreases depth,
{
    if depth == 0 {
        seen
    } else {
        let (s, n) = ancestor_step(edges, origin, at, frontier, seen, seq![], edges.len() as int);
        if n.len() == 0 {
            s
        } else {
            ancestor_walk(edges, origin, at, n, s, (depth - 1) as nat)
        }
    }
}

/// Strict ancestors of `id` through subgroup edges valid at `at`, each hop
/// filtered by the same instant, at most `MAX_GROUP_DEPTH` levels up, in
/// discovery order; never `id` itself.
pub open spec fn ancestors_spec(edges: Seq<SubgroupOf>, id: GroupId, at: Timestamp) -> Seq<GroupId> {
    ancestor_walk(edges, id, at, seq![id], seq![], MAX_GROUP_DEPTH as nat)
}

impl MemoryRepo {
    pub fn new() -> (r: MemoryRepo)
        ensures
            r@.persons.len() == 0 && r@.groups.len() == 0 && r@.events.len() == 0,
            r@.locations.len() == 0 && r@.attends.len() == 0 && r@.held.len() == 0,
            r@.member_of.len() == 0 && r@.subgroup_of.len() == 0 && r@.expects.len() == 0,
            r@.traverse.len() == 0 && r@.within.len() == 0 && r@.closure.len() == 0,
            r@.violations.len() == 0 && r@.anchors.len() == 0 && r@.seq == 0,
    {
        MemoryRepo {
            persons: Vec::new(),
            groups: Vec::new(),
            events: Vec::new(),
            locations: Vec::new(),
            attends: Vec::new(),
            held: Vec::new(),
            member_of: Vec::new(),
            subgroup_of: Vec::new(),
            expects: Vec::new(),
            traverse: Vec::new(),
            within: Vec::new(),
            closure: Vec::new(),
            violations: Vec::new(),
            anchors: Vec::new(),
            seq: 0,
        }
    }

    fn person_index(&self, id: PersonId) -> (r: usize)
        ensures
            r == first_where(self@.persons, person_is(id)),
            r <= self@.persons.len(),
    {
        let mut i: usize = 0;
        while i < self.persons.len()
            invariant
                i <= self.persons@.len(),
                forall|j: int| 0 <= j < i ==> !(person_is(id))(#[trigger] self.persons@[j]),
            decreases self.persons@.len() - i,
        {
            if self.persons[i].id == id {
                proof { crate::repo::lemma_first_where_is(self.persons@, person_is(id), i as int); }
                return i;
            }
            i += 1;
        }
        proof { crate::repo::lemma_first_where_is(self.persons@, person_is(id), i as int); }
        i
    }

    fn group_index(&self, id: GroupId) -> (r: usize)
        ensures
            r == first_where(self@.groups, group_is(id)),
            r <= self@.groups.len(),
    {
        let mut i: usize = 0;
        while i < self.groups.len()
            invariant
                i <= self.groups@.len(),
                forall|j: int| 0 <= j < i ==> !(group_is(id))(#[trigger] self.groups@[j]),
            decreases self.groups@.len() - i,
        {
            if self.groups[i].id == id {
                proof { crate::repo::lemma_first_where_is(self.groups@, group_is(id), i as int); }
                return i;
            }
            i += 1;
        }
        proof { crate::repo::lemma_first_where_is(self.groups@, group_is(id), i as int); }
        i
    }

    fn event_index(&self, id: EventId) -> (r: usize)
        ensures
            r == first_where(self@.events, event_is(id)),
            r <= self@.events.len(),
    {
        let mut i: usize = 0;
        while i < self.events.len()
            invariant
                i <= self.events@.len(),
                forall|j: int| 0 <= j < i ==> !(event_is(id))(#[trigger] self.events@[j]),
            decreases self.events@.len() - i,
        {
            if self.events[i].id == id {
                proof { crate::repo::lemma_first_where_is(self.events@, event_is(id), i as int); }
                return i;
            }
            i += 1;
        }
        proof { crate::repo::lemma_first_where_is(self.events@, event_is(id), i as int); }
        i
    }

    fn location_index(&self, id: LocationId) -> (r: usize)
        ensures
            r == first_where(self@.locations, location_is(id)),
            r <= self@.locations.len(),
    {
        let mut i: usize = 0;
        while i < self.locations.len()
            invariant
                i <= self.locations@.len(),
                forall|j: int| 0 <= j < i ==> !(location_is(id))(#[trigger] self.locations@[j]),
            decreases self.locations@.len() - i,
        {
            if self.locations[i].id == id {
                proof { crate::repo::lemma_first_where_is(self.locations@, location_is(id), i as int); }
                return i;
            }
            i += 1;
        }
        proof { crate::repo::lemma_first_where_is(self.locations@, location_is(id), i as int); }
        i
    }

    fn violation_index(&self, id: ViolationId) -> (r: usize)
        ensures
            r == first_where(self@.violations, violation_is(id)),
            r <= self@.violations.len(),
    {
        let mut i: usize = 0;
        while i < self.violations.len()
            invariant
                i <= self.violations@.len(),
                forall|j: int| 0 <= j < i ==> !(violation_is(id))(#[trigger] self@.violations[j]),
            decreases self.violations@.len() - i,
        {
            if self.violations[i].id == id {
                proof { crate::repo::lemma_first_where_is(self@.violations, violation_is(id), i as int); }
                return i;
            }
            i += 1;
        }
        proof { crate::repo::lemma_first_where_is(self@.violations, violation_is(id), i as int); }
        i
    }

    fn edge_index(&self, person: PersonId, event: EventId) -> (r: usize)
        ensures
            r == first_where(self@.attends, edge_is(person, event)),
            r <= self@.attends.len(),
    {
        let mut i: usize = 0;
        while i < self.attends.len()
            invariant
                i <= self.attends@.len(),
                forall|j: int| 0 <= j < i ==> !(edge_is(person, event))(#[trigger] self.attends@[j]),
            decreases self.attends@.len() - i,
        {
            if self.attends[i].person == person && self.attends[i].event == event {
                proof { crate::repo::lemma_first_where_is(self.attends@, edge_is(person, event), i as int); }
                return i;
            }
            i += 1;
        }
        proof { crate::repo::lemma_first_where_is(self.attends@, edge_is(person, event), i as int); }
        i
    }

    pub fn person(&self, id: PersonId) -> (r: Option<Person>)
        ensures
            r == find_where(self@.persons, person_is(id)),
    {
        let i = self.person_index(id);
        if i < self.persons.len() {
            Some(self.persons[i].clone())
        } else {
            None
        }
    }

    pub fn group(&self, id: GroupId) -> (r: Option<Group>)
        ensures
            r == find_where(self@.groups, group_is(id)),
    {
        let i = self.group_index(id);
        if i < self.groups.len() {
            Some(self.groups[i].clone())
        } else {
            None
        }
    }

    pub fn event(&self, id: EventId) -> (r: Option<Event>)
        ensures
            r == find_where(self@.events, event_is(id)),
    {
        let i = self.event_index(id);
        if i < self.events.len() {
            Some(self.events[i].clone())
        } else {
            None
        }
    }

    pub fn location(&self, id: LocationId) -> (r: Option<Location>)
        ensures
            r == find_where(self@.locations, location_is(id)),
    {
        let i = self.location_index(id);
        if i < self.locations.len() {
            Some(self.locations[i].clone())
        } else {
            None
        }
    }

    pub fn containment(&self) -> (r: Vec<Within>)
        ensures
            r@ == self@.within,
    {
        self.within.clone()
    }

    /// Stored person identifiers, ascending.
    pub fn persons(&self) -> (r: Vec<PersonId>)
        ensures
            r@ == person_list(self@),
            crate::order::strictly_increasing(r@.map_values(|p: PersonId| p.0)),
            r@.map_values(|p: PersonId| p.0).to_set() == person_ids(self@),
    {
        let mut raw: Vec<u128> = Vec::new();
        let mut i: usize = 0;
        while i < self.persons.len()
            invariant
                i <= self.persons@.len(),
                raw@ == self.persons@.take(i as int).map_values(|p: Person| p.id.0),
            decreases self.persons@.len() - i,
        {
            raw.push(self.persons[i].id.0);
            assert(self.persons@.take(i + 1).map_values(|p: Person| p.id.0) =~= raw@);
            i += 1;
        }
        assert(self.persons@.take(self.persons@.len() as int) =~= self.persons@);
        let ids = sorted_unique(&raw);
        let mut out: Vec<PersonId> = Vec::new();
        let mut j: usize = 0;
        while j < ids.len()
            invariant
                j <= ids@.len(),
                out@.map_values(|p: PersonId| p.0) == ids@.take(j as int),
            decreases ids@.len() - j,
        {
            let ghost before = out@;
            out.push(PersonId(ids[j]));
            assert(out@ == before.push(PersonId(ids@[j as int])));
            assert(ids@.take(j + 1) =~= ids@.take(j as int).push(ids@[j as int]));
            assert(out@.map_values(|p: PersonId| p.0) =~= before.map_values(|p: PersonId| p.0).push(ids@[j as int]));
            j += 1;
        }
        assert(ids@.take(ids@.len() as int) =~= ids@);
        proof {
            assert(crate::order::strictly_increasing(person_keys(out@)));
            assert(person_keys(out@).to_set() == person_ids(self@));
            let c = person_list(self@);
            crate::order::lemma_strictly_increasing_unique(person_keys(out@), person_keys(c));
            assert(out@ =~= c) by {
                assert forall|k: int| 0 <= k < out@.len() implies out@[k] == c[k] by {
                    assert(person_keys(out@)[k] == person_keys(c)[k]);
                }
            }
        }
        out
    }

    /// Stored location identifiers, ascending.
    pub fn locations(&self) -> (r: Vec<LocationId>)
        ensures
            r@ == location_list(self@),
            crate::order::strictly_increasing(r@.map_values(|l: LocationId| l.0)),
            r@.map_values(|l: LocationId| l.0).to_set() == location_ids(self@),
    {
        let mut raw: Vec<u128> = Vec::new();
        let mut i: usize = 0;
        while i < self.locations.len()
            invariant
                i <= self.locations@.len(),
                raw@ == self.locations@.take(i as int).map_values(|l: Location| l.id.0),
            decreases self.locations@.len() - i,
        {
            raw.push(self.locations[i].id.0);
            assert(self.locations@.take(i + 1).map_values(|l: Location| l.id.0) =~= raw@);
            i += 1;
        }
        assert(self.locations@.take(self.locations@.len() as int) =~= self.locations@);
        let ids = sorted_unique(&raw);
        let mut out: Vec<LocationId> = Vec::new();
        let mut j: usize = 0;
        while j < ids.len()
            invariant
                j <= ids@.len(),
                out@.map_values(|l: LocationId| l.0) == ids@.take(j as int),
            decreases ids@.len() - j,
        {
            let ghost before = out@;
            out.push(LocationId(ids[j]));
            assert(out@ == before.push(LocationId(ids@[j as int])));
            assert(ids@.take(j + 1) =~= ids@.take(j as int).push(ids@[j as int]));
            assert(out@.map_values(|l: LocationId| l.0) =~= before.map_values(|l: LocationId| l.0).push(ids@[j as int]));
            j += 1;
        }
        assert(ids@.take(ids@.len() as int) =~= ids@);
        proof {
            assert(location_keys(out@) =~= out@.map_values(|l: LocationId| l.0));
            let c = location_list(self@);
            crate::order::lemma_strictly_increasing_unique(location_keys(out@), location_keys(c));
            assert(out@ =~= c) by {
                assert forall|k: int| 0 <= k < out@.len() implies out@[k] == c[k] by {
                    assert(location_keys(out@)[k] == location_keys(c)[k]);
                }
            }
        }
        out
    }

    /// Sorts events by the given key, keeping input order among equal keys.
    fn sort_events(items: Vec<(Vec<u128>, Event)>, Ghost(key): Ghost<spec_fn(Event) -> Seq<u128>>) -> (r: Vec<Event>)
        requires
            keyed_by(items@, key),
        ensures
            r@ == stable_sort_by(payloads(items@), key),
    {
        let sorted = sort_keyed(items, Ghost(key));
        let mut out: Vec<Event> = Vec::new();
        let mut j: usize = 0;
        while j < sorted.len()
            invariant
                j <= sorted@.len(),
                out@ == payloads(sorted@).take(j as int),
            decreases sorted@.len() - j,
        {
            out.push(sorted[j].1.clone());
            assert(out@ =~= payloads(sorted@).take(j + 1));
            j += 1;
        }
        assert(payloads(sorted@).take(sorted@.len() as int) =~= payloads(sorted@));
        out
    }

    /// All events, by identifier.
    pub fn events(&self) -> (r: Vec<Event>)
        ensures
            r@ == stable_sort_by(self@.events, |e: Event| event_id_key(e)),
    {
        let ghost key = |e: Event| event_id_key(e);
        let mut keyed: Vec<(Vec<u128>, Event)> = Vec::new();
        let mut i: usize = 0;
        while i < self.events.len()
            invariant
                i <= self.events@.len(),
                key == (|e: Event| event_id_key(e)),
                keyed_by(keyed@, key),
                payloads(keyed@) == self.events@.take(i as int),
            decreases self.events@.len() - i,
        {
            let e = self.events[i].clone();
            let mut k: Vec<u128> = Vec::new();
            k.push(e.id.0);
            assert(k@ =~= event_id_key(e));
            let ghost before = keyed@;
            keyed.push((k, e));
            assert(payloads(keyed@) =~= payloads(before).push(e));
            assert(self.events@.take(i + 1) =~= self.events@.take(i as int).push(e));
            i += 1;
        }
        assert(self.events@.take(self.events@.len() as int) =~= self.events@);
        Self::sort_events(keyed, Ghost(key))
    }

    /// Events whose window overlaps `window`, by start then identifier.
    pub fn events_in(&self, window: Interval) -> (r: Vec<Event>)
        ensures
            r@ == stable_sort_by(
                self@.events.filter(|e: Event| e.window.overlaps_with(window)),
                |e: Event| event_start_key(e),
            ),
    {
        let ghost key = |e: Event| event_start_key(e);
        let ghost pred = |e: Event| e.window.overlaps_with(window);
        let mut keyed: Vec<(Vec<u128>, Event)> = Vec::new();
        let mut i: usize = 0;
        while i < self.events.len()
            invariant
                i <= self.events@.len(),
                key == (|e: Event| event_start_key(e)),
                pred == (|e: Event| e.window.overlaps_with(window)),
                keyed_by(keyed@, key),
                payloads(keyed@) == self.events@.take(i as int).filter(pred),
            decreases self.events@.len() - i,
        {
            let e = self.events[i].clone();
            proof {
                assert(self.events@.take(i + 1) =~= self.events@.take(i as int).push(e));
                self.events@.take(i as int).lemma_filter_push(e, pred);
            }
            if e.window.overlaps(&window) {
                let mut k: Vec<u128> = Vec::new();
                k.push(ts_key(e.window.start().0));
                k.push(e.id.0);
                assert(k@ =~= event_start_key(e));
                let ghost before = keyed@;
                keyed.push((k, e));
                assert(payloads(keyed@) =~= payloads(before).push(e));
            }
            i += 1;
        }
        assert(self.events@.take(self.events@.len() as int) =~= self.events@);
        Self::sort_events(keyed, Ghost(key))
    }

    pub fn attends_for_event(&self, id: EventId) -> (r: Vec<Attends>)
        ensures
            r@ == self@.attends.filter(|a: Attends| a.event == id),
    {
        let ghost pred = |a: Attends| a.event == id;
        let mut out: Vec<Attends> = Vec::new();
        let mut i: usize = 0;
        while i < self.attends.len()
            invariant
                i <= self.attends@.len(),
                pred == (|a: Attends| a.event == id),
                out@ == self.attends@.take(i as int).filter(pred),
            decreases self.attends@.len() - i,
        {
            let a = self.attends[i];
            proof {
                assert(self.attends@.take(i + 1) =~= self.attends@.take(i as int).push(a));
                self.attends@.take(i as int).lemma_filter_push(a, pred);
            }
            if a.event == id {
                out.push(a);
            }
            i += 1;
        }
        assert(self.attends@.take(self.attends@.len() as int) =~= self.attends@);
        out
    }

    pub fn held_for_event(&self, id: EventId) -> (r: Vec<Held>)
        ensures
            r@ == self@.held.filter(|h: Held| h.event == id),
    {
        let ghost pred = |h: Held| h.event == id;
        let mut out: Vec<Held> = Vec::new();
        let mut i: usize = 0;
        while i < self.held.len()
            invariant
                i <= self.held@.len(),
                pred == (|h: Held| h.event == id),
                out@ == self.held@.take(i as int).filter(pred),
            decreases self.held@.len() - i,
        {
            let h = self.held[i];
            proof {
                assert(self.held@.take(i + 1) =~= self.held@.take(i as int).push(h));
                self.held@.take(i as int).lemma_filter_push(h, pred);
            }
            if h.event == id {
                out.push(h);
            }
            i += 1;
        }
        assert(self.held@.take(self.held@.len() as int) =~= self.held@);
        out
    }

    /// Open violation records (not resolved), by identifier.
    pub fn open_violations(&self) -> (r: Vec<Violation>)
        ensures
            violations_view(r@) == stable_sort_by(
                self@.violations.filter(|v: ViolationView| v.resolved_at is None),
                |v: ViolationView| violation_id_key(v),
            ),
    {
        let ghost vkey = |v: Violation| violation_id_key(v@);
        let ghost pred = |v: ViolationView| v.resolved_at is None;
        let ghost f = |v: Violation| v@;
        let mut keyed: Vec<(Vec<u128>, Violation)> = Vec::new();
        let mut i: usize = 0;
        while i < self.violations.len()
            invariant
                i <= self.violations@.len(),
                vkey == (|v: Violation| violation_id_key(v@)),
                pred == (|v: ViolationView| v.resolved_at is None),
                f == (|v: Violation| v@),
                keyed_by(keyed@, vkey),
                payloads(keyed@).map_values(f) == violations_view(self.violations@).take(i as int).filter(pred),
            decreases self.violations@.len() - i,
        {
            let v = self.violations[i].clone();
            proof {
                assert(violations_view(self.violations@).take(i + 1) =~= violations_view(self.violations@).take(i as int).push(v@));
                violations_view(self.violations@).take(i as int).lemma_filter_push(v@, pred);
            }
            if v.resolved_at.is_none() {
                let mut k: Vec<u128> = Vec::new();
                k.push(v.id.0);
                assert(k@ =~= violation_id_key(v@));
                let ghost before = keyed@;
                keyed.push((k, v));
                assert(payloads(keyed@) =~= payloads(before).push(v));
                assert(payloads(keyed@).map_values(f) =~= payloads(before).map_values(f).push(f(v)));
            }
            i += 1;
        }
        assert(violations_view(self.violations@).take(self.violations@.len() as int) =~= violations_view(self.violations@));
        let ghost keyed_view = keyed@;
        let sorted = sort_keyed(keyed, Ghost(vkey));
        let mut out: Vec<Violation> = Vec::new();
        let mut j: usize = 0;
        while j < sorted.len()
            invariant
                j <= sorted@.len(),
                f == (|v: Violation| v@),
                violations_view(out@) == payloads(sorted@).take(j as int).map_values(f),
            decreases sorted@.len() - j,
        {
            let v = sorted[j].1.clone();
            let ghost before = out@;
            out.push(v);
            assert(out@ == before.push(v));
            assert(payloads(sorted@).take(j + 1) =~= payloads(sorted@).take(j as int).push(sorted@[j as int].1));
            assert(violations_view(out@) =~= violations_view(before).push(v@));
            assert(violations_view(out@) =~= payloads(sorted@).take(j + 1).map_values(f));
            j += 1;
        }
        assert(payloads(sorted@).take(sorted@.len() as int) =~= payloads(sorted@));
        proof {
            crate::order::lemma_sort_map(payloads(keyed_view), f, |v: ViolationView| violation_id_key(v), vkey);
            assert(violations_view(out@) == payloads(sorted@).map_values(f));
            assert(payloads(sorted@) == stable_sort_by(payloads(keyed_view), vkey));
            assert(payloads(keyed_view).map_values(f) == violations_view(self.violations@).filter(pred));
            assert(stable_sort_by(payloads(keyed_view), vkey).map_values(f) == stable_sort_by(payloads(keyed_view).map_values(f), |v: ViolationView| violation_id_key(v)));
            assert(self@.violations == violations_view(self.violations@));
        }
        out
    }

    pub fn memberships_all(&self) -> (r: Vec<MemberOf>)
        ensures
            r@ == self@.member_of,
    {
        self.member_of.clone()
    }

    pub fn subgroups_all(&self) -> (r: Vec<SubgroupOf>)
        ensures
            r@ == self@.subgroup_of,
    {
        self.subgroup_of.clone()
    }

    pub fn expectations_all(&self) -> (r: Vec<Expects>)
        ensures
            r@ == self@.expects,
    {
        self.expects.clone()
    }

    /// `attends` edges of one person whose window overlaps `window`.
    pub fn attends_for(&self, id: PersonId, window: Interval) -> (r: Vec<Attends>)
        ensures
            r@ == self@.attends.filter(|a: Attends| a.person == id && a.during.overlaps_with(window)),
    {
        let ghost pred = |a: Attends| a.person == id && a.during.overlaps_with(window);
        let mut out: Vec<Attends> = Vec::new();
        let mut i: usize = 0;
        while i < self.attends.len()
            invariant
                i <= self.attends@.len(),
                pred == (|a: Attends| a.person == id && a.during.overlaps_with(window)),
                out@ == self.attends@.take(i as int).filter(pred),
            decreases self.attends@.len() - i,
        {
            let a = self.attends[i];
            proof {
                assert(self.attends@.take(i + 1) =~= self.attends@.take(i as int).push(a));
                self.attends@.take(i as int).lemma_filter_push(a, pred);
            }
            if a.person == id && a.during.overlaps(&window) {
                out.push(a);
            }
            i += 1;
        }
        assert(self.attends@.take(self.attends@.len() as int) =~= self.attends@);
        out
    }

    /// `held` edges into one location whose window overlaps `window`.
    pub fn held_for(&self, id: LocationId, window: Interval) -> (r: Vec<Held>)
        ensures
            r@ == self@.held.filter(|h: Held| h.location == id && h.during.overlaps_with(window)),
    {
        let ghost pred = |h: Held| h.location == id && h.during.overlaps_with(window);
        let mut out: Vec<Held> = Vec::new();
        let mut i: usize = 0;
        while i < self.held.len()
            invariant
                i <= self.held@.len(),
                pred == (|h: Held| h.location == id && h.during.overlaps_with(window)),
                out@ == self.held@.take(i as int).filter(pred),
            decreases self.held@.len() - i,
        {
            let h = self.held[i];
            proof {
                assert(self.held@.take(i + 1) =~= self.held@.take(i as int).push(h));
                self.held@.take(i as int).lemma_filter_push(h, pred);
            }
            if h.location == id && h.during.overlaps(&window) {
                out.push(h);
            }
            i += 1;
        }
        assert(self.held@.take(self.held@.len() as int) =~= self.held@);
        out
    }

    /// Memberships of one person valid at `at`.
    pub fn memberships(&self, id: PersonId, at: Timestamp) -> (r: Vec<MemberOf>)
        ensures
            r@ == self@.member_of.filter(|m: MemberOf| m.person == id && m.during.contains_spec(at.0 as int)),
    {
        let ghost pred = |m: MemberOf| m.person == id && m.during.contains_spec(at.0 as int);
        let mut out: Vec<MemberOf> = Vec::new();
        let mut i: usize = 0;
        while i < self.member_of.len()
            invariant
                i <= self.member_of@.len(),
                pred == (|m: MemberOf| m.person == id && m.during.contains_spec(at.0 as int)),
                out@ == self.member_of@.take(i as int).filter(pred),
            decreases self.member_of@.len() - i,
        {
            let m = self.member_of[i];
            proof {
                assert(self.member_of@.take(i + 1) =~= self.member_of@.take(i as int).push(m));
                self.member_of@.take(i as int).lemma_filter_push(m, pred);
            }
            if m.person == id && m.during.contains_point(at) {
                out.push(m);
            }
            i += 1;
        }
        assert(self.member_of@.take(self.member_of@.len() as int) =~= self.member_of@);
        out
    }

    /// Expectations attached to any of `groups`, valid at `at`.
    pub fn expectations(&self, groups: &[GroupId], at: Timestamp) -> (r: Vec<Expects>)
        ensures
            r@ == self@.expects.filter(|x: Expects| groups@.contains(x.group) && x.during.contains_spec(at.0 as int)),
    {
        let ghost pred = |x: Expects| groups@.contains(x.group) && x.during.contains_spec(at.0 as int);
        let mut out: Vec<Expects> = Vec::new();
        let mut i: usize = 0;
        while i < self.expects.len()
            invariant
                i <= self.expects@.len(),
                pred == (|x: Expects| groups@.contains(x.group) && x.during.contains_spec(at.0 as int)),
                out@ == self.expects@.take(i as int).filter(pred),
            decreases self.expects@.len() - i,
        {
            let x = self.expects[i];
            proof {
                assert(self.expects@.take(i + 1) =~= self.expects@.take(i as int).push(x));
                self.expects@.take(i as int).lemma_filter_push(x, pred);
            }
            if contains_group(groups, x.group) && x.during.contains_point(at) {
                out.push(x);
            }
            i += 1;
        }
        assert(self.expects@.take(self.expects@.len() as int) =~= self.expects@);
        out
    }
}

/// Membership of a group identifier in a slice.
pub fn contains_group(groups: &[GroupId], g: GroupId) -> (r: bool)
    ensures
        r == groups@.contains(g),
{
    let mut i: usize = 0;
    while i < groups.len()
        invariant
            i <= groups@.len(),
            forall|k: int| 0 <= k < i ==> groups@[k] != g,
        decreases groups@.len() - i,
    {
        if groups[i] == g {
            return true;
        }
        i += 1;
    }
    false
}


/// The travel answer for a mode restriction given as a string view.
pub open spec fn mode_view(mode: Option<&Mode>) -> Option<Seq<char>> {
    match mode {
        Some(m) => Some(m.0@),
        None => None,
    }
}

impl MemoryRepo {
    fn lookup_cost(&self, from: LocationId, to: LocationId, mode: Option<&Mode>) -> (r: Option<TravelCost>)
        ensures
            r == travel_spec(self@, from, to, mode_view(mode)),
    {
        let ghost mv = mode_view(mode);
        let ghost cpred = |e: ClosureEntry| e.from == from && e.to == to && match mv {
            Some(m) => e.mode.0@ == m,
            None => true,
        };
        let ghost cd = |e: ClosureEntry| e.duration_s as int;
        let ghost cp = |e: ClosureEntry| e.provenance;
        let mut found = false;
        let mut best = TravelCost { duration_s: 0, provenance: crate::model::TravelProvenance::Estimated };
        let mut i: usize = 0;
        while i < self.closure.len()
            invariant
                i <= self.closure@.len(),
                mv == mode_view(mode),
                cpred == (|e: ClosureEntry| e.from == from && e.to == to && match mv {
                    Some(m) => e.mode.0@ == m,
                    None => true,
                }),
                cd == (|e: ClosureEntry| e.duration_s as int),
                cp == (|e: ClosureEntry| e.provenance),
                found == (self.closure@.take(i as int).filter(cpred).len() > 0),
                found ==> cheapest(self.closure@.take(i as int).filter(cpred).map_values(cd), self.closure@.take(i as int).filter(cpred).map_values(cp)) == Some(best),
            decreases self.closure@.len() - i,
        {
            let e = &self.closure[i];
            let ghost c0 = self.closure@.take(i as int).filter(cpred);
            proof {
                assert(self.closure@.take(i + 1) =~= self.closure@.take(i as int).push(*e));
                self.closure@.take(i as int).lemma_filter_push(*e, cpred);
            }
            let mode_ok = match mode {
                Some(m) => e.mode.0 == m.0,
                None => true,
            };
            if e.from == from && e.to == to && mode_ok {
                let ghost d0 = c0.map_values(cd);
                let ghost p0 = c0.map_values(cp);
                proof {
                    if found {
                        crate::repo::lemma_first_min(d0);
                    }
                }
                if !found || e.duration_s < best.duration_s {
                    best = TravelCost { duration_s: e.duration_s, provenance: e.provenance };
                }
                proof {
                    let c1 = c0.push(*e);
                    let d1 = d0.push(cd(*e));
                    assert(c1.map_values(cd) =~= d1);
                    assert(c1.map_values(cp) =~= p0.push(cp(*e)));
                    assert(d1.drop_last() =~= d0);
                    if found {
                        assert(d1[first_min(d0)] == d0[first_min(d0)]);
                    }
                }
                found = true;
            }
            i += 1;
        }
        assert(self.closure@.take(self.closure@.len() as int) =~= self.closure@);
        if found {
            return Some(best);
        }
        let ghost tpred = |t: Traverse| t.from == from && t.to == to && match mv {
            Some(m) => t.mode.0@ == m,
            None => true,
        };
        let ghost td = |t: Traverse| t.duration_typical_s as int;
        let ghost tp = |t: Traverse| t.provenance;
        let mut j: usize = 0;
        while j < self.traverse.len()
            invariant
                j <= self.traverse@.len(),
                mv == mode_view(mode),
                tpred == (|t: Traverse| t.from == from && t.to == to && match mv {
                    Some(m) => t.mode.0@ == m,
                    None => true,
                }),
                td == (|t: Traverse| t.duration_typical_s as int),
                tp == (|t: Traverse| t.provenance),
                found == (self.traverse@.take(j as int).filter(tpred).len() > 0),
                found ==> cheapest(self.traverse@.take(j as int).filter(tpred).map_values(td), self.traverse@.take(j as int).filter(tpred).map_values(tp)) == Some(best),
            decreases self.traverse@.len() - j,
        {
            let t = &self.traverse[j];
            let ghost c0 = self.traverse@.take(j as int).filter(tpred);
            proof {
                assert(self.traverse@.take(j + 1) =~= self.traverse@.take(j as int).push(*t));
                self.traverse@.take(j as int).lemma_filter_push(*t, tpred);
            }
            let mode_ok = match mode {
                Some(m) => t.mode.0 == m.0,
                None => true,
            };
            if t.from == from && t.to == to && mode_ok {
                let ghost d0 = c0.map_values(td);
                let ghost p0 = c0.map_values(tp);
                proof {
                    if found {
                        crate::repo::lemma_first_min(d0);
                    }
                }
                if !found || t.duration_typical_s < best.duration_s {
                    best = TravelCost { duration_s: t.duration_typical_s, provenance: t.provenance };
                }
                proof {
                    let c1 = c0.push(*t);
                    let d1 = d0.push(td(*t));
                    assert(c1.map_values(td) =~= d1);
                    assert(c1.map_values(tp) =~= p0.push(tp(*t)));
                    assert(d1.drop_last() =~= d0);
                    if found {
                        assert(d1[first_min(d0)] == d0[first_min(d0)]);
                    }
                }
                found = true;
            }
            j += 1;
        }
        assert(self.traverse@.take(self.traverse@.len() as int) =~= self.traverse@);
        if found {
            Some(best)
        } else {
            None
        }
    }

    /// Cheapest traverse cost `from -> to` for a mode, if any is known.
    pub fn travel(&self, from: LocationId, to: LocationId, mode: &Mode) -> (r: Option<TravelCost>)
        ensures
            r == travel_spec(self@, from, to, Some(mode.0@)),
    {
        self.lookup_cost(from, to, Some(mode))
    }

    /// Cheapest cost `from -> to` over every mode, if any is known.
    pub fn travel_best(&self, from: LocationId, to: LocationId) -> (r: Option<TravelCost>)
        ensures
            r == travel_spec(self@, from, to, None),
    {
        self.lookup_cost(from, to, None)
    }

    pub fn traverse_all(&self) -> (r: Vec<Traverse>)
        ensures
            r@ == self@.traverse,
    {
        let mut out: Vec<Traverse> = Vec::new();
        let mut i: usize = 0;
        while i < self.traverse.len()
            invariant
                i <= self.traverse@.len(),
                out@ == self.traverse@.take(i as int),
            decreases self.traverse@.len() - i,
        {
            out.push(self.traverse[i].clone());
            assert(out@ =~= self.traverse@.take(i + 1));
            i += 1;
        }
        assert(self.traverse@.take(self.traverse@.len() as int) =~= self.traverse@);
        out
    }

    /// Anchors of one person valid at `at`.
    pub fn anchors_for(&self, person: PersonId, at: Timestamp) -> (r: Vec<Anchors>)
        ensures
            r@ == self@.anchors.filter(|a: Anchors| a.person == person && a.during.contains_spec(at.0 as int)),
    {
        let ghost pred = |a: Anchors| a.person == person && a.during.contains_spec(at.0 as int);
        let mut out: Vec<Anchors> = Vec::new();
        let mut i: usize = 0;
        while i < self.anchors.len()
            invariant
                i <= self.anchors@.len(),
                pred == (|a: Anchors| a.person == person && a.during.contains_spec(at.0 as int)),
                out@ == self.anchors@.take(i as int).filter(pred),
            decreases self.anchors@.len() - i,
        {
            let a = self.anchors[i].clone();
            proof {
                assert(self.anchors@.take(i + 1) =~= self.anchors@.take(i as int).push(a));
                self.anchors@.take(i as int).lemma_filter_push(a, pred);
            }
            if a.person == person && a.during.contains_point(at) {
                out.push(a);
            }
            i += 1;
        }
        assert(self.anchors@.take(self.anchors@.len() as int) =~= self.anchors@);
        out
    }

    /// Strict ancestors of `id` reachable through subgroup edges valid at
    /// `at`, each hop filtered by the same constant instant, depth bounded
    /// by [`MAX_GROUP_DEPTH`]. Does not include `id` itself.
    pub fn group_ancestors(&self, id: GroupId, at: Timestamp) -> (r: Vec<GroupId>)
        ensures
            r@ == ancestors_spec(self@.subgroup_of, id, at),
    {
        let ghost edges = self.subgroup_of@;
        let mut frontier: Vec<GroupId> = Vec::new();
        frontier.push(id);
        assert(frontier@ =~= seq![id]);
        let mut seen: Vec<GroupId> = Vec::new();
        let mut depth: usize = 0;
        while depth < MAX_GROUP_DEPTH
            invariant
                depth <= MAX_GROUP_DEPTH,
                edges == self.subgroup_of@,
                ancestor_walk(edges, id, at, frontier@, seen@, (MAX_GROUP_DEPTH - depth) as nat) == ancestors_spec(edges, id, at),
            decreases MAX_GROUP_DEPTH - depth,
        {
            let mut next: Vec<GroupId> = Vec::new();
            let ghost seen0 = seen@;
            let mut k: usize = 0;
            assert(next@ =~= Seq::<GroupId>::empty());
            while k < self.subgroup_of.len()
                invariant
                    k <= edges.len(),
                    edges == self.subgroup_of@,
                    (seen@, next@) == ancestor_step(edges, id, at, frontier@, seen0, seq![], k as int),
                decreases edges.len() - k,
            {
                let e = self.subgroup_of[k];
                if contains_group(frontier.as_slice(), e.child) && e.during.contains_point(at) {
                    if e.parent != id && !contains_group(seen.as_slice(), e.parent) {
                        seen.push(e.parent);
                        next.push(e.parent);
                    }
                }
                k += 1;
            }
            if next.len() == 0 {
                return seen;
            }
            frontier = next;
            depth += 1;
        }
        seen
    }
}


/// The stored window of an event, if the event exists.
pub open spec fn event_window(v: RepoView, id: EventId) -> Option<Interval> {
    match find_where(v.events, event_is(id)) {
        Some(e) => Some(e.window),
        None => None,
    }
}

/// Whether an entity is stored.
pub open spec fn has_person(v: RepoView, id: PersonId) -> bool {
    find_where(v.persons, person_is(id)) is Some
}

pub open spec fn has_event(v: RepoView, id: EventId) -> bool {
    find_where(v.events, event_is(id)) is Some
}

pub open spec fn has_location(v: RepoView, id: LocationId) -> bool {
    find_where(v.locations, location_is(id)) is Some
}

pub open spec fn has_violation(v: RepoView, id: ViolationId) -> bool {
    find_where(v.violations, violation_is(id)) is Some
}

pub open spec fn has_edge(v: RepoView, person: PersonId, event: EventId) -> bool {
    find_where(v.attends, edge_is(person, event)) is Some
}

/// Why `cmd` is refused on `v`, if it is: a missing referenced entity, or
/// an illegal tier relation.
pub open spec fn refusal(v: RepoView, cmd: Command) -> Option<OrreryError> {
    match cmd {
        Command::AddAttendance { person, event, .. } => if !has_person(v, person) {
            Some(OrreryError::NotFound(EntityRef::Person(person)))
        } else if !has_event(v, event) {
            Some(OrreryError::NotFound(EntityRef::Event(event)))
        } else {
            None
        },
        Command::RemoveAttendance { person, event } => if !has_edge(v, person, event) {
            Some(OrreryError::NotFound(EntityRef::Person(person)))
        } else {
            None
        },
        Command::SetPriority { person, event, .. } => if !has_edge(v, person, event) {
            Some(OrreryError::NotFound(EntityRef::Person(person)))
        } else {
            None
        },
        Command::HoldLocation { location, event, .. } => if !has_location(v, location) {
            Some(OrreryError::NotFound(EntityRef::Location(location)))
        } else if !has_event(v, event) {
            Some(OrreryError::NotFound(EntityRef::Event(event)))
        } else {
            None
        },
        Command::AddContainment { child, parent } => if !has_location(v, child) {
            Some(OrreryError::NotFound(EntityRef::Location(child)))
        } else if !has_location(v, parent) {
            Some(OrreryError::NotFound(EntityRef::Location(parent)))
        } else if !(tier::rank_spec(find_where(v.locations, location_is(child)).unwrap().tier)
            < tier::rank_spec(find_where(v.locations, location_is(parent)).unwrap().tier)) {
            Some(
                OrreryError::CommandRejected {
                    reason: Rejection::ContainmentNotAscending(
                        find_where(v.locations, location_is(child)).unwrap().tier,
                        find_where(v.locations, location_is(parent)).unwrap().tier,
                    ),
                },
            )
        } else {
            None
        },
        Command::AddTraversePair(t) => if !has_location(v, t.from) {
            Some(OrreryError::NotFound(EntityRef::Location(t.from)))
        } else if !has_location(v, t.to) {
            Some(OrreryError::NotFound(EntityRef::Location(t.to)))
        } else {
            let a = find_where(v.locations, location_is(t.from)).unwrap();
            let b = find_where(v.locations, location_is(t.to)).unwrap();
            if !(t.sibling_override || a.tier == b.tier || a.portal != crate::model::Portal::Ordinary
                || b.portal != crate::model::Portal::Ordinary) {
                Some(OrreryError::CommandRejected { reason: Rejection::TraverseNotSibling(a.tier, b.tier) })
            } else {
                None
            }
        },
        Command::WaiveViolation { id, .. } => if !has_violation(v, id) {
            Some(OrreryError::NotFound(EntityRef::Violation(id)))
        } else {
            None
        },
        Command::ResolveViolation { id, .. } => if !has_violation(v, id) {
            Some(OrreryError::NotFound(EntityRef::Violation(id)))
        } else {
            None
        },
        Command::SetDerivedDigest { person, .. } => if !has_person(v, person) {
            Some(OrreryError::NotFound(EntityRef::Person(person)))
        } else {
            None
        },
        _ => None,
    }
}

/// The attendance edge a self-selection creates: the event's window, no
/// personal input other than `priority`, group seed zero.
pub open spec fn selected_edge(person: PersonId, event: EventId, window: Interval, priority: Option<Priority>) -> Attends {
    Attends {
        person,
        event,
        during: window,
        priority_group: Priority(0x8000_0000),
        priority_person: priority,
        priority_coord: None,
        coord_binding: false,
        source: AttendanceSource::SelfSelected,
        pinned: false,
    }
}

/// The edge after a priority write: a member writes their own component; a
/// coordinator or the system writes the coordinator component and sets
/// whether it binds.
pub open spec fn reprioritised(a: Attends, by: Actor, binding: bool, value: Priority) -> Attends {
    match by {
        Actor::Member(_) => Attends { priority_person: Some(value), ..a },
        _ => Attends { priority_coord: Some(value), coord_binding: binding, ..a },
    }
}

/// User input is never destroyed: a member's priority never overwrites the
/// coordinator's, a coordinator's never overwrites the member's, neither
/// touches the group seed; a binding coordinator value is the effective
/// priority, and a member's own value is effective unless a coordinator
/// binds.
pub proof fn lemma_priority_inputs_kept(a: Attends, by: Actor, binding: bool, value: Priority)
    ensures
        reprioritised(a, by, binding, value).priority_group == a.priority_group,
        by is Member ==> reprioritised(a, by, binding, value).priority_coord == a.priority_coord
            && reprioritised(a, by, binding, value).coord_binding == a.coord_binding,
        !(by is Member) ==> reprioritised(a, by, binding, value).priority_person == a.priority_person,
        !(by is Member) && binding ==> crate::model::effective_priority_spec(reprioritised(a, by, binding, value)) == value,
        by is Member && !(a.coord_binding && a.priority_coord is Some) ==> crate::model::effective_priority_spec(
            reprioritised(a, by, binding, value),
        ) == value,
{
}

/// The reverse row of a traverse pair.
pub open spec fn reversed(t: Traverse) -> Traverse {
    Traverse { from: t.to, to: t.from, ..t }
}

/// Who acknowledged a waiver.
pub open spec fn acknowledger(by: Actor) -> Option<PersonId> {
    match by {
        Actor::Member(p) => Some(p),
        Actor::Coordinator(p) => Some(p),
        Actor::System => None,
    }
}

/// The apply counter after one more accepted command (it wraps).
pub open spec fn next_seq(seq: u64) -> u64 {
    if seq == u64::MAX {
        0
    } else {
        (seq + 1) as u64
    }
}

/// Entity upserts are idempotent on the identifier: applying the same
/// upsert twice leaves the same state as applying it once, but for the
/// command count.
pub proof fn lemma_upsert_idempotent(v: RepoView, cmd: Command)
    requires
        cmd is UpsertPerson || cmd is UpsertGroup || cmd is UpsertEvent || cmd is UpsertLocation,
    ensures
        applied(applied(v, cmd), cmd) == (RepoView { seq: applied(applied(v, cmd), cmd).seq, ..applied(v, cmd) }),
{
    match cmd {
        Command::UpsertPerson(p) => crate::repo::lemma_upsert_twice(v.persons, person_is(p.id), p),
        Command::UpsertGroup(g) => crate::repo::lemma_upsert_twice(v.groups, group_is(g.id), g),
        Command::UpsertEvent(e) => crate::repo::lemma_upsert_twice(v.events, event_is(e.id), e),
        Command::UpsertLocation(l) => crate::repo::lemma_upsert_twice(v.locations, location_is(l.id), l),
        _ => {},
    }
}

/// The contents after applying an accepted `cmd` to `v`.
pub open spec fn applied(v: RepoView, cmd: Command) -> RepoView {
    let w = RepoView { seq: next_seq(v.seq), ..v };
    match cmd {
        Command::UpsertPerson(p) => RepoView { persons: upsert_where(v.persons, person_is(p.id), p), ..w },
        Command::UpsertGroup(g) => RepoView { groups: upsert_where(v.groups, group_is(g.id), g), ..w },
        Command::UpsertEvent(e) => RepoView { events: upsert_where(v.events, event_is(e.id), e), ..w },
        Command::UpsertLocation(l) => RepoView { locations: upsert_where(v.locations, location_is(l.id), l), ..w },
        Command::AddAttendance { person, event, priority } => RepoView {
            attends: v.attends.push(selected_edge(person, event, event_window(v, event).unwrap(), priority)),
            ..w
        },
        Command::RemoveAttendance { person, event } => RepoView {
            attends: v.attends.filter(|a: Attends| !(a.person == person && a.event == event)),
            ..w
        },
        Command::SetPriority { person, event, by, binding, value } => {
            let i = first_where(v.attends, edge_is(person, event));
            RepoView { attends: v.attends.update(i, reprioritised(v.attends[i], by, binding, value)), ..w }
        },
        Command::AddMembership { person, group, during, role } => RepoView {
            member_of: v.member_of.push(MemberOf { person, group, during, role }),
            ..w
        },
        Command::AddSubgroup { child, parent, during } => RepoView {
            subgroup_of: v.subgroup_of.push(SubgroupOf { child, parent, during }),
            ..w
        },
        Command::AddExpectation { group, event, obligation, default_priority, during, cascades, by } => RepoView {
            expects: v.expects.push(Expects {
                group,
                event,
                obligation,
                default_priority,
                during,
                cascades,
                can_decline: true,
                set_by: by,
                set_at: Timestamp(during.lo() as i64),
            }),
            ..w
        },
        Command::HoldLocation { location, event, during, overflow_for, capacity_override } => RepoView {
            held: v.held.push(Held { location, event, during, posture: Posture::OnSite, overflow_for, capacity_override }),
            ..w
        },
        Command::AddContainment { child, parent } => RepoView { within: v.within.push(Within { child, parent }), ..w },
        Command::AddTraversePair(t) => RepoView { traverse: v.traverse.push(t).push(reversed(t)), ..w },
        Command::AddAnchor(a) => RepoView { anchors: v.anchors.push(a), ..w },
        Command::WaiveViolation { id, by, reason } => {
            let i = first_where(v.violations, violation_is(id));
            RepoView {
                violations: v.violations.update(
                    i,
                    ViolationView { waiver_reason: Some(reason), acknowledged_by: acknowledger(by), ..v.violations[i] },
                ),
                ..w
            }
        },
        Command::RecordViolation(x) => RepoView { violations: upsert_where(v.violations, violation_is(x.id), x@), ..w },
        Command::ResolveViolation { id, at } => {
            let i = first_where(v.violations, violation_is(id));
            RepoView { violations: v.violations.update(i, ViolationView { resolved_at: Some(at), ..v.violations[i] }), ..w }
        },
        Command::SetDerivedDigest { person, digest, at } => {
            let i = first_where(v.persons, person_is(person));
            RepoView {
                persons: v.persons.update(i, Person { derived_digest: Some(DigestRecord { digest, at }), ..v.persons[i] }),
                ..w
            }
        },
        Command::ReplaceClosure { entries } => RepoView { closure: entries@, ..w },
    }
}


impl MemoryRepo {
    fn remove_edges(&mut self, person: PersonId, event: EventId)
        ensures
            final(self)@ == (RepoView {
                attends: old(self)@.attends.filter(|a: Attends| !(a.person == person && a.event == event)),
                ..old(self)@
            }),
    {
        let ghost pred = |a: Attends| !(a.person == person && a.event == event);
        let mut kept: Vec<Attends> = Vec::new();
        let mut i: usize = 0;
        while i < self.attends.len()
            invariant
                i <= self.attends@.len(),
                pred == (|a: Attends| !(a.person == person && a.event == event)),
                kept@ == self.attends@.take(i as int).filter(pred),
            decreases self.attends@.len() - i,
        {
            let a = self.attends[i];
            proof {
                assert(self.attends@.take(i + 1) =~= self.attends@.take(i as int).push(a));
                self.attends@.take(i as int).lemma_filter_push(a, pred);
            }
            if !(a.person == person && a.event == event) {
                kept.push(a);
            }
            i += 1;
        }
        assert(self.attends@.take(self.attends@.len() as int) =~= self.attends@);
        self.attends = kept;
    }

    fn set_violation(&mut self, i: usize, v: Violation)
        requires
            i < old(self)@.violations.len(),
        ensures
            final(self)@ == (RepoView { violations: old(self)@.violations.update(i as int, v@), ..old(self)@ }),
    {
        let ghost before = self.violations@;
        self.violations.set(i, v);
        assert(violations_view(self.violations@) =~= violations_view(before).update(i as int, v@));
    }

    fn bump_seq(&mut self)
        ensures
            final(self)@ == (RepoView { seq: next_seq(old(self)@.seq), ..old(self)@ }),
            final(self).seq == next_seq(old(self)@.seq),
    {
        self.seq = if self.seq == u64::MAX {
            0
        } else {
            self.seq + 1
        };
    }

    /// The only write path. Commands that reference missing entities, or
    /// that would write an illegal tier relation, are refused without
    /// changing anything; accepted commands bump the apply counter.
    pub fn apply(&mut self, cmd: Command) -> (r: Result<CommandReceipt, OrreryError>)
        ensures
            r is Ok <==> refusal(old(self)@, cmd) is None,
            r matches Err(e) ==> Some(e) == refusal(old(self)@, cmd) && final(self)@ == old(self)@,
            r matches Ok(rc) ==> rc.seq == next_seq(old(self)@.seq) && final(self)@ == applied(old(self)@, cmd),
    {
        match cmd {
            Command::UpsertPerson(p) => {
                let i = self.person_index(p.id);
                if i < self.persons.len() {
                    self.persons.set(i, p);
                } else {
                    self.persons.push(p);
                }
            },
            Command::UpsertGroup(g) => {
                let i = self.group_index(g.id);
                if i < self.groups.len() {
                    self.groups.set(i, g);
                } else {
                    self.groups.push(g);
                }
            },
            Command::UpsertEvent(e) => {
                let i = self.event_index(e.id);
                if i < self.events.len() {
                    self.events.set(i, e);
                } else {
                    self.events.push(e);
                }
            },
            Command::UpsertLocation(l) => {
                let i = self.location_index(l.id);
                if i < self.locations.len() {
                    self.locations.set(i, l);
                } else {
                    self.locations.push(l);
                }
            },
            Command::AddAttendance { person, event, priority } => {
                if self.person_index(person) >= self.persons.len() {
                    return Err(OrreryError::NotFound(EntityRef::Person(person)));
                }
                let ei = self.event_index(event);
                if ei >= self.events.len() {
                    return Err(OrreryError::NotFound(EntityRef::Event(event)));
                }
                let window = self.events[ei].window;
                self.attends.push(Attends {
                    person,
                    event,
                    during: window,
                    priority_group: Priority(0x8000_0000),
                    priority_person: priority,
                    priority_coord: None,
                    coord_binding: false,
                    source: AttendanceSource::SelfSelected,
                    pinned: false,
                });
            },
            Command::RemoveAttendance { person, event } => {
                if self.edge_index(person, event) >= self.attends.len() {
                    return Err(OrreryError::NotFound(EntityRef::Person(person)));
                }
                self.remove_edges(person, event);
            },
            Command::SetPriority { person, event, by, binding, value } => {
                let i = self.edge_index(person, event);
                if i >= self.attends.len() {
                    return Err(OrreryError::NotFound(EntityRef::Person(person)));
                }
                let mut edge = self.attends[i];
                match by {
                    Actor::Member(_) => {
                        edge.priority_person = Some(value);
                    },
                    Actor::Coordinator(_) | Actor::System => {
                        edge.priority_coord = Some(value);
                        edge.coord_binding = binding;
                    },
                }
                self.attends.set(i, edge);
            },
            Command::AddMembership { person, group, during, role } => {
                self.member_of.push(MemberOf { person, group, during, role });
            },
            Command::AddSubgroup { child, parent, during } => {
                self.subgroup_of.push(SubgroupOf { child, parent, during });
            },
            Command::AddExpectation { group, event, obligation, default_priority, during, cascades, by } => {
                self.expects.push(Expects {
                    group,
                    event,
                    obligation,
                    default_priority,
                    during,
                    cascades,
                    can_decline: true,
                    set_by: by,
                    set_at: during.start(),
                });
            },
            Command::HoldLocation { location, event, during, overflow_for, capacity_override } => {
                if self.location_index(location) >= self.locations.len() {
                    return Err(OrreryError::NotFound(EntityRef::Location(location)));
                }
                if self.event_index(event) >= self.events.len() {
                    return Err(OrreryError::NotFound(EntityRef::Event(event)));
                }
                self.held.push(Held {
                    location,
                    event,
                    during,
                    posture: Posture::OnSite,
                    overflow_for,
                    capacity_override,
                });
            },
            Command::AddContainment { child, parent } => {
                let ci = self.location_index(child);
                if ci >= self.locations.len() {
                    return Err(OrreryError::NotFound(EntityRef::Location(child)));
                }
                let pi = self.location_index(parent);
                if pi >= self.locations.len() {
                    return Err(OrreryError::NotFound(EntityRef::Location(parent)));
                }
                if !tier::containment_legal(self.locations[ci].tier, self.locations[pi].tier) {
                    return Err(
                        OrreryError::CommandRejected {
                            reason: Rejection::ContainmentNotAscending(self.locations[ci].tier, self.locations[pi].tier),
                        },
                    );
                }
                self.within.push(Within { child, parent });
            },
            Command::AddTraversePair(t) => {
                let ai = self.location_index(t.from);
                if ai >= self.locations.len() {
                    return Err(OrreryError::NotFound(EntityRef::Location(t.from)));
                }
                let bi = self.location_index(t.to);
                if bi >= self.locations.len() {
                    return Err(OrreryError::NotFound(EntityRef::Location(t.to)));
                }
                if !tier::traverse_legal(&self.locations[ai], &self.locations[bi], t.sibling_override) {
                    return Err(
                        OrreryError::CommandRejected {
                            reason: Rejection::TraverseNotSibling(self.locations[ai].tier, self.locations[bi].tier),
                        },
                    );
                }
                let mut reverse = t.clone();
                reverse.from = t.to;
                reverse.to = t.from;
                self.traverse.push(t);
                self.traverse.push(reverse);
            },
            Command::AddAnchor(a) => {
                self.anchors.push(a);
            },
            Command::WaiveViolation { id, by, reason } => {
                let i = self.violation_index(id);
                if i >= self.violations.len() {
                    return Err(OrreryError::NotFound(EntityRef::Violation(id)));
                }
                let mut x = self.violations[i].clone();
                x.waiver_reason = Some(reason);
                x.acknowledged_by = match by {
                    Actor::Member(p) | Actor::Coordinator(p) => Some(p),
                    Actor::System => None,
                };
                self.set_violation(i, x);
            },
            Command::RecordViolation(x) => {
                let i = self.violation_index(x.id);
                if i < self.violations.len() {
                    self.set_violation(i, x);
                } else {
                    let ghost before = self.violations@;
                    self.violations.push(x);
                    assert(violations_view(self.violations@) =~= violations_view(before).push(x@));
                }
            },
            Command::ResolveViolation { id, at } => {
                let i = self.violation_index(id);
                if i >= self.violations.len() {
                    return Err(OrreryError::NotFound(EntityRef::Violation(id)));
                }
                let mut x = self.violations[i].clone();
                x.resolved_at = Some(at);
                self.set_violation(i, x);
            },
            Command::SetDerivedDigest { person, digest, at } => {
                let i = self.person_index(person);
                if i >= self.persons.len() {
                    return Err(OrreryError::NotFound(EntityRef::Person(person)));
                }
                let mut p = self.persons[i].clone();
                p.derived_digest = Some(DigestRecord { digest, at });
                self.persons.set(i, p);
            },
            Command::ReplaceClosure { entries } => {
                self.closure = entries;
            },
        }
        self.bump_seq();
        Ok(CommandReceipt { seq: self.seq })
    }
}


/// The contents after submitting each of `cmds` in turn to `v`: an
/// accepted command is applied, a refused one leaves the contents as they
/// were.
pub open spec fn replay(v: RepoView, cmds: Seq<Command>) -> RepoView
    decreases cmds.len(),
{
    if cmds.len() == 0 {
        v
    } else {
        let u = replay(v, cmds.drop_last());
        if refusal(u, cmds.last()) is None {
            applied(u, cmds.last())
        } else {
            u
        }
    }
}

/// How many of `cmds`, submitted in turn to `v`, are accepted.
pub open spec fn accepted_count(v: RepoView, cmds: Seq<Command>) -> nat
    decreases cmds.len(),
{
    if cmds.len() == 0 {
        0
    } else {
        accepted_count(v, cmds.drop_last()) + if refusal(replay(v, cmds.drop_last()), cmds.last()) is None {
            1nat
        } else {
            0nat
        }
    }
}

/// One call of `apply` with `cmd`, as its contract states it: accepted,
/// the command is applied; refused, nothing changes.
pub open spec fn apply_step(before: RepoView, after: RepoView, cmd: Command) -> bool {
    if refusal(before, cmd) is None {
        after == applied(before, cmd)
    } else {
        after == before
    }
}

/// The apply counter over any run of `apply` calls: the contents after the
/// run are those of `replay`, and the counter has advanced by one per
/// accepted command and not at all for a refused one, wrapping past
/// `u64::MAX`. From a fresh repository (counter 0), the `k`-th accepted
/// command's receipt is therefore `k`.
pub proof fn lemma_apply_counter(states: Seq<RepoView>, cmds: Seq<Command>)
    requires
        states.len() == cmds.len() + 1,
        forall|i: int| 0 <= i < cmds.len() ==> #[trigger] apply_step(states[i], states[i + 1], cmds[i]),
    ensures
        states.last() == replay(states[0], cmds),
        states.last().seq == (states[0].seq + accepted_count(states[0], cmds)) % 0x1_0000_0000_0000_0000,
    decreases cmds.len(),
{
    if cmds.len() > 0 {
        let n = cmds.len() - 1;
        let st = states.drop_last();
        let cs = cmds.drop_last();
        assert forall|i: int| 0 <= i < cs.len() implies #[trigger] apply_step(st[i], st[i + 1], cs[i]) by {
            assert(apply_step(states[i], states[i + 1], cmds[i]));
        }
        lemma_apply_counter(st, cs);
        assert(apply_step(states[n], states[n + 1], cmds[n]));
        assert(st.last() == states[n]);
        let u = replay(states[0], cs);
        let k = accepted_count(states[0], cs);
        assert(u.seq == (states[0].seq + k) % 0x1_0000_0000_0000_0000);
        if refusal(u, cmds.last()) is None {
            assert(applied(u, cmds.last()).seq == next_seq(u.seq));
            assert((states[0].seq + k + 1) % 0x1_0000_0000_0000_0000 == next_seq(u.seq)) by (nonlinear_arith)
                requires
                    u.seq == (states[0].seq + k) % 0x1_0000_0000_0000_0000,
                    next_seq(u.seq) == if u.seq == u64::MAX { 0 } else { u.seq + 1 },
                    states[0].seq >= 0,
                    k >= 0,
            ;
        }
    }
}


/// The traverse rows are closed under reversal, counting repeats: every
/// row is matched by a distinct row from its `to` back to its `from`.
pub open spec fn reversal_closed(v: RepoView) -> bool {
    v.traverse.to_multiset() == v.traverse.map_values(|t: Traverse| reversed(t)).to_multiset()
}

/// Traverse rows stay closed under reversal through every call of `apply`,
/// accepted or refused: a traverse pair is always written in both
/// directions at once, and nothing else writes traverse rows.
pub proof fn lemma_reversal_closed_kept(v: RepoView, w: RepoView, cmd: Command)
    requires
        reversal_closed(v),
        apply_step(v, w, cmd),
    ensures
        reversal_closed(w),
{
    broadcast use vstd::multiset::group_multiset_axioms;
    if refusal(v, cmd) is None {
        if let Command::AddTraversePair(t) = cmd {
            let f = |t: Traverse| reversed(t);
            let s = v.traverse;
            assert(w.traverse == s.push(t).push(reversed(t)));
            assert(s.push(t).push(reversed(t)).map_values(f) =~= s.map_values(f).push(reversed(t)).push(t)) by {
                assert(reversed(reversed(t)) == t);
            }
            vstd::seq_lib::lemma_multiset_commutative(s, seq![t, reversed(t)]);
            vstd::seq_lib::lemma_multiset_commutative(s.map_values(f), seq![reversed(t), t]);
            assert(s.push(t).push(reversed(t)) =~= s + seq![t, reversed(t)]);
            assert(s.map_values(f).push(reversed(t)).push(t) =~= s.map_values(f) + seq![reversed(t), t]);
            assert(seq![t, reversed(t)].to_multiset() =~= seq![reversed(t), t].to_multiset()) by {
                vstd::seq_lib::lemma_multiset_commutative(seq![t], seq![reversed(t)]);
                vstd::seq_lib::lemma_multiset_commutative(seq![reversed(t)], seq![t]);
                assert(seq![t] + seq![reversed(t)] =~= seq![t, reversed(t)]);
                assert(seq![reversed(t)] + seq![t] =~= seq![reversed(t), t]);
            }
        } else {
            assert(w.traverse == v.traverse);
        }
    }
}

} // verus!
