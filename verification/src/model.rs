//! Entities and relations.
//!
//! Every identifier is a newtype over the 128-bit value of a time-ordered
//! UUID, and every relation carries its own validity window (`during`).
//!
//! Priorities are held as [`Priority`], the order-preserving 32-bit key of
//! an `f32` priority: comparing keys compares the priorities (for finite,
//! non-NaN values), which is all the engine ever does with them.

use vstd::prelude::*;

use crate::interval::{Interval, Timestamp};

verus! {

/// The version and variant fields of a version-7 UUID read as a
/// big-endian `u128`: version nibble 7 (bits 76..80) and the RFC 4122
/// variant `10` (bits 62..64).
pub open spec fn is_uuid_v7(x: u128) -> bool {
    (x >> 76u32) & 0xfu128 == 7 && (x >> 62u32) & 0x3u128 == 2
}

/// `uuid::Uuid::now_v7` read as a `u128` with `as_u128`: a version-7 UUID.
/// Its timestamp and random bits depend on the clock and on randomness,
/// so only the version and variant fields are stated.
#[verifier::external_body]
fn fresh_id_value() -> (r: u128)
    ensures
        is_uuid_v7(r),
{
    uuid::Uuid::now_v7().as_u128()
}

#[derive(Clone, Copy, PartialEq, Eq, Structural, PartialOrd, Ord, Hash, Debug)]
pub struct PersonId(pub u128);

#[derive(Clone, Copy, PartialEq, Eq, Structural, PartialOrd, Ord, Hash, Debug)]
pub struct GroupId(pub u128);

#[derive(Clone, Copy, PartialEq, Eq, Structural, PartialOrd, Ord, Hash, Debug)]
pub struct EventId(pub u128);

#[derive(Clone, Copy, PartialEq, Eq, Structural, PartialOrd, Ord, Hash, Debug)]
pub struct LocationId(pub u128);

#[derive(Clone, Copy, PartialEq, Eq, Structural, PartialOrd, Ord, Hash, Debug)]
pub struct ViolationId(pub u128);

impl PersonId {
    /// A fresh time-ordered identifier: a version-7 UUID.
    pub fn new() -> (r: Self)
        ensures
            is_uuid_v7(r.0),
    {
        PersonId(fresh_id_value())
    }
}

impl GroupId {
    /// A fresh time-ordered identifier: a version-7 UUID.
    pub fn new() -> (r: Self)
        ensures
            is_uuid_v7(r.0),
    {
        GroupId(fresh_id_value())
    }
}

impl EventId {
    /// A fresh time-ordered identifier: a version-7 UUID.
    pub fn new() -> (r: Self)
        ensures
            is_uuid_v7(r.0),
    {
        EventId(fresh_id_value())
    }
}

impl LocationId {
    /// A fresh time-ordered identifier: a version-7 UUID.
    pub fn new() -> (r: Self)
        ensures
            is_uuid_v7(r.0),
    {
        LocationId(fresh_id_value())
    }
}

impl ViolationId {
    /// A fresh time-ordered identifier: a version-7 UUID.
    pub fn new() -> (r: Self)
        ensures
            is_uuid_v7(r.0),
    {
        ViolationId(fresh_id_value())
    }
}

/// A typed reference to any entity: violation subjects and errors.
#[derive(Clone, Copy, PartialEq, Eq, Structural, Hash, Debug)]
pub enum EntityRef {
    Person(PersonId),
    Group(GroupId),
    Event(EventId),
    Location(LocationId),
    Violation(ViolationId),
}

/// Order-preserving key of an `f32` priority.
#[derive(Clone, Copy, PartialEq, Eq, Structural, PartialOrd, Ord, Hash, Debug)]
pub struct Priority(pub u32);

/// The stored digest of a person's derived schedule, with the instant it
/// was computed for.
#[derive(Clone, Copy, PartialEq, Eq, Debug)]
pub struct DigestRecord {
    pub digest: [u8; 32],
    pub at: Timestamp,
}

// ---------------------------------------------------------------- entities

#[derive(Debug)]
pub struct Person {
    pub id: PersonId,
    pub name: String,
    pub derived_digest: Option<DigestRecord>,
}

#[derive(Debug)]
pub struct Group {
    pub id: GroupId,
    pub name: String,
    /// Seed for `attends.priority_group` when an expectation doesn't set one.
    pub default_priority: Option<Priority>,
    /// IANA zone name; the interval algebra never reads it.
    pub timezone: Option<String>,
}

#[derive(Debug)]
pub struct Event {
    pub id: EventId,
    pub name: String,
    pub window: Interval,
    pub kind: String,
    pub timezone: Option<String>,
}

/// Containment position. `Floor` and `Region` are optional tiers.
#[derive(Clone, Copy, PartialEq, Eq, Structural, PartialOrd, Ord, Hash, Debug)]
pub enum Tier {
    Room,
    Floor,
    Structure,
    Campus,
    Region,
}

/// Routing role, orthogonal to tier.
#[derive(Clone, Copy, PartialEq, Eq, Structural, Hash, Debug)]
pub enum Portal {
    /// Not a portal.
    Ordinary,
    Pedestrian,
    Vehicle,
    Rail,
}

#[derive(Debug)]
pub struct Location {
    pub id: LocationId,
    pub name: String,
    pub tier: Tier,
    pub portal: Portal,
    pub capacity: Option<u32>,
}

// --------------------------------------------------------------- violations

/// Detector kinds.
#[derive(Clone, Copy, PartialEq, Eq, Structural, Hash, Debug)]
pub enum ViolationKind {
    TimeConflict,
    LocationExclusivity,
    ContainmentExclusivity,
    ImpossibleTravel,
    CapacityExceeded,
    OrphanEvent,
    ExpiredMembershipEffect,
}

#[derive(Clone, Copy, PartialEq, Eq, Structural, PartialOrd, Ord, Hash, Debug)]
pub enum Severity {
    Info,
    Warning,
    Hard,
}

/// A violation record with lifecycle. Subjects are entity references,
/// never coordinates.
#[derive(Debug)]
pub struct Violation {
    pub id: ViolationId,
    pub kind: ViolationKind,
    pub severity: Severity,
    pub subjects: Vec<EntityRef>,
    pub detected_at: Timestamp,
    pub resolved_at: Option<Timestamp>,
    pub acknowledged_by: Option<PersonId>,
    pub waiver_reason: Option<String>,
}

// ---------------------------------------------------------------- relations

/// Who performed a mutation.
#[derive(Clone, Copy, PartialEq, Eq, Structural, Hash, Debug)]
pub enum Actor {
    Member(PersonId),
    Coordinator(PersonId),
    System,
}

/// Where an `attends` edge came from.
#[derive(Clone, Copy, PartialEq, Eq, Structural, Hash, Debug)]
pub enum AttendanceSource {
    SelfSelected,
    Group(GroupId),
    Coordinator(PersonId),
}

#[derive(Clone, Copy, PartialEq, Eq, Structural, Debug)]
pub struct Attends {
    pub person: PersonId,
    pub event: EventId,
    /// Own window: join/leave may differ from the event's span.
    pub during: Interval,
    pub priority_group: Priority,
    pub priority_person: Option<Priority>,
    pub priority_coord: Option<Priority>,
    pub coord_binding: bool,
    pub source: AttendanceSource,
    pub pinned: bool,
}

/// The effective priority of an edge: a binding coordinator value wins,
/// then the person's own value, then a non-binding coordinator value, then
/// the group seed. User input is never destroyed.
pub open spec fn effective_priority_spec(a: Attends) -> Priority {
    if a.coord_binding && a.priority_coord is Some {
        a.priority_coord.unwrap()
    } else if a.priority_person is Some {
        a.priority_person.unwrap()
    } else if a.priority_coord is Some {
        a.priority_coord.unwrap()
    } else {
        a.priority_group
    }
}

impl Attends {
    /// The effective priority, computed in exactly one place.
    pub fn effective_priority(&self) -> (r: Priority)
        ensures
            r == effective_priority_spec(*self),
    {
        if self.coord_binding {
            if let Some(pc) = self.priority_coord {
                return pc;
            }
        }
        match self.priority_person {
            Some(p) => p,
            None => match self.priority_coord {
                Some(c) => c,
                None => self.priority_group,
            },
        }
    }
}

#[derive(Clone, Copy, PartialEq, Eq, Structural, Hash, Debug)]
pub enum Posture {
    OnSite,
    Remote,
    Hybrid,
}

#[derive(Clone, Copy, PartialEq, Eq, Structural, Debug)]
pub struct Held {
    pub location: LocationId,
    pub event: EventId,
    /// Own window, independent of the event's.
    pub during: Interval,
    pub posture: Posture,
    /// The primary location this hold overflows for, if any.
    pub overflow_for: Option<LocationId>,
    pub capacity_override: Option<u32>,
}

#[derive(Clone, Copy, PartialEq, Eq, Structural, Hash, Debug)]
pub enum Role {
    Member,
    Coordinator,
}

#[derive(Clone, Copy, PartialEq, Eq, Structural, Debug)]
pub struct MemberOf {
    pub person: PersonId,
    pub group: GroupId,
    pub during: Interval,
    pub role: Role,
}

#[derive(Clone, Copy, PartialEq, Eq, Structural, Debug)]
pub struct SubgroupOf {
    pub child: GroupId,
    pub parent: GroupId,
    pub during: Interval,
}

#[derive(Clone, Copy, PartialEq, Eq, Structural, Hash, Debug)]
pub enum Obligation {
    Mandatory,
    Expected,
    Recommended,
}

#[derive(Clone, Copy, PartialEq, Eq, Structural, Debug)]
pub struct Expects {
    pub group: GroupId,
    pub event: EventId,
    pub obligation: Obligation,
    pub default_priority: Priority,
    /// Window the expectation applies over, not the event's window.
    pub during: Interval,
    pub cascades: bool,
    pub can_decline: bool,
    pub set_by: Actor,
    pub set_at: Timestamp,
}

/// Travel mode: an attribute, not a relation split.
#[derive(PartialEq, Eq, Debug)]
pub struct Mode(pub String);

#[derive(Clone, Copy, PartialEq, Eq, Structural, Hash, Debug)]
pub enum TravelProvenance {
    Measured,
    Estimated,
}

/// Continuous travel between two locations; stored as two directed rows
/// written by one command.
#[derive(Debug)]
pub struct Traverse {
    pub from: LocationId,
    pub to: LocationId,
    pub mode: Mode,
    pub duration_typical_s: i64,
    pub duration_peak_s: Option<i64>,
    pub peak_window: Option<Interval>,
    /// Distance in metres as the bit pattern of an `f64`; never read.
    pub distance_m: Option<u64>,
    pub provenance: TravelProvenance,
    pub computed_at: Timestamp,
    /// Explicit permission for a cross-tier edge.
    pub sibling_override: bool,
}

/// The answer a travel lookup returns, with provenance.
#[derive(Clone, Copy, PartialEq, Eq, Structural, Debug)]
pub struct TravelCost {
    pub duration_s: i64,
    pub provenance: TravelProvenance,
}

/// Containment edge, tier-ascending only.
#[derive(Clone, Copy, PartialEq, Eq, Structural, Debug)]
pub struct Within {
    pub child: LocationId,
    pub parent: LocationId,
}

/// A person's personal origin. Never leaves the engine.
#[derive(Debug)]
pub struct Anchors {
    pub person: PersonId,
    pub structure: LocationId,
    pub label: String,
    pub during: Interval,
    pub applies_when: Option<String>,
}

/// One materialised entry of the travel closure.
#[derive(PartialEq, Eq, Debug)]
pub struct ClosureEntry {
    pub from: LocationId,
    pub to: LocationId,
    pub mode: Mode,
    pub duration_s: i64,
    pub provenance: TravelProvenance,
    pub computed_at: Timestamp,
}

// ---------------------------------------------------------- value copies

/// Copy of an optional string.
pub fn clone_opt_string(s: &Option<String>) -> (r: Option<String>)
    ensures
        r == *s,
{
    match s {
        Some(x) => Some(x.clone()),
        None => None,
    }
}

impl Clone for Mode {
    fn clone(&self) -> (r: Self)
        ensures
            r == *self,
    {
        Mode(self.0.clone())
    }
}

impl Clone for Person {
    fn clone(&self) -> (r: Self)
        ensures
            r == *self,
    {
        Person { id: self.id, name: self.name.clone(), derived_digest: self.derived_digest }
    }
}

impl Clone for Group {
    fn clone(&self) -> (r: Self)
        ensures
            r == *self,
    {
        Group {
            id: self.id,
            name: self.name.clone(),
            default_priority: self.default_priority,
            timezone: clone_opt_string(&self.timezone),
        }
    }
}

impl Clone for Event {
    fn clone(&self) -> (r: Self)
        ensures
            r == *self,
    {
        Event {
            id: self.id,
            name: self.name.clone(),
            window: self.window,
            kind: self.kind.clone(),
            timezone: clone_opt_string(&self.timezone),
        }
    }
}

impl Clone for Location {
    fn clone(&self) -> (r: Self)
        ensures
            r == *self,
    {
        Location {
            id: self.id,
            name: self.name.clone(),
            tier: self.tier,
            portal: self.portal,
            capacity: self.capacity,
        }
    }
}

impl Clone for Traverse {
    fn clone(&self) -> (r: Self)
        ensures
            r == *self,
    {
        Traverse {
            from: self.from,
            to: self.to,
            mode: self.mode.clone(),
            duration_typical_s: self.duration_typical_s,
            duration_peak_s: self.duration_peak_s,
            peak_window: self.peak_window,
            distance_m: self.distance_m,
            provenance: self.provenance,
            computed_at: self.computed_at,
            sibling_override: self.sibling_override,
        }
    }
}

impl Clone for ClosureEntry {
    fn clone(&self) -> (r: Self)
        ensures
            r == *self,
    {
        ClosureEntry {
            from: self.from,
            to: self.to,
            mode: self.mode.clone(),
            duration_s: self.duration_s,
            provenance: self.provenance,
            computed_at: self.computed_at,
        }
    }
}

impl Clone for Anchors {
    fn clone(&self) -> (r: Self)
        ensures
            r == *self,
    {
        Anchors {
            person: self.person,
            structure: self.structure,
            label: self.label.clone(),
            during: self.during,
            applies_when: clone_opt_string(&self.applies_when),
        }
    }
}

/// Copy of a vector of entity references.
pub fn clone_refs(v: &Vec<EntityRef>) -> (r: Vec<EntityRef>)
    ensures
        r@ == v@,
{
    let mut out: Vec<EntityRef> = Vec::new();
    let mut i: usize = 0;
    while i < v.len()
        invariant
            i <= v.len(),
            out@ == v@.take(i as int),
        decreases v.len() - i,
    {
        out.push(v[i]);
        i += 1;
        assert(out@ =~= v@.take(i as int));
    }
    assert(v@.take(v.len() as int) =~= v@);
    out
}

/// The value of a violation record.
pub struct ViolationView {
    pub id: ViolationId,
    pub kind: ViolationKind,
    pub severity: Severity,
    pub subjects: Seq<EntityRef>,
    pub detected_at: Timestamp,
    pub resolved_at: Option<Timestamp>,
    pub acknowledged_by: Option<PersonId>,
    pub waiver_reason: Option<String>,
}

impl View for Violation {
    type V = ViolationView;

    open spec fn view(&self) -> ViolationView {
        ViolationView {
            id: self.id,
            kind: self.kind,
            severity: self.severity,
            subjects: self.subjects@,
            detected_at: self.detected_at,
            resolved_at: self.resolved_at,
            acknowledged_by: self.acknowledged_by,
            waiver_reason: self.waiver_reason,
        }
    }
}

/// The values of a list of violation records.
pub open spec fn violations_view(s: Seq<Violation>) -> Seq<ViolationView> {
    s.map_values(|v: Violation| v@)
}

impl Clone for Violation {
    fn clone(&self) -> (r: Self)
        ensures
            r@ == self@,
    {
        Violation {
            id: self.id,
            kind: self.kind,
            severity: self.severity,
            subjects: clone_refs(&self.subjects),
            detected_at: self.detected_at,
            resolved_at: self.resolved_at,
            acknowledged_by: self.acknowledged_by,
            waiver_reason: clone_opt_string(&self.waiver_reason),
        }
    }
}

/// Equality of entity-reference lists, element by element.
pub fn refs_eq(a: &Vec<EntityRef>, b: &Vec<EntityRef>) -> (r: bool)
    ensures
        r == (a@ == b@),
{
    if a.len() != b.len() {
        return false;
    }
    let mut i: usize = 0;
    while i < a.len()
        invariant
            i <= a.len(),
            a.len() == b.len(),
            forall|k: int| 0 <= k < i ==> a@[k] == b@[k],
        decreases a.len() - i,
    {
        if a[i] != b[i] {
            return false;
        }
        i += 1;
    }
    assert(a@ =~= b@);
    true
}

} // verus!
