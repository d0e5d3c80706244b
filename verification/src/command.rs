//! The single mutation chokepoint: every write, including entity creation
//! and test seeding, is a [`Command`] applied through the repository.

use vstd::prelude::*;

use crate::interval::{Interval, Timestamp};
use crate::model::{
    Actor, Anchors, ClosureEntry, Event, EventId, Group, GroupId, Location, LocationId, Obligation,
    Person, PersonId, Priority, Role, Traverse, Violation, ViolationId,
};

verus! {

#[derive(Debug)]
#[allow(inconsistent_fields)]
pub enum Command {
    // -- entity upserts (idempotent on id) --
    UpsertPerson(Person),
    UpsertGroup(Group),
    UpsertEvent(Event),
    UpsertLocation(Location),
    // -- relations --
    AddAttendance {
        person: PersonId,
        event: EventId,
        /// Sets `priority_person`.
        priority: Option<Priority>,
    },
    RemoveAttendance { person: PersonId, event: EventId },
    SetPriority {
        person: PersonId,
        event: EventId,
        by: Actor,
        /// `true` = coordinator override, `false` = suggestion.
        binding: bool,
        value: Priority,
    },
    AddMembership { person: PersonId, group: GroupId, during: Interval, role: Role },
    AddSubgroup { child: GroupId, parent: GroupId, during: Interval },
    AddExpectation {
        group: GroupId,
        event: EventId,
        obligation: Obligation,
        default_priority: Priority,
        during: Interval,
        cascades: bool,
        by: Actor,
    },
    HoldLocation {
        location: LocationId,
        event: EventId,
        during: Interval,
        overflow_for: Option<LocationId>,
        /// Capacity constraint per (location, event).
        capacity_override: Option<u32>,
    },
    /// Containment edge; tier-ascending only.
    AddContainment { child: LocationId, parent: LocationId },
    /// Writes both directed rows from this one command so symmetric values
    /// cannot drift.
    AddTraversePair(Traverse),
    /// A person's personal origin.
    AddAnchor(Anchors),
    WaiveViolation { id: ViolationId, by: Actor, reason: String },
    /// Persist a violation record; the engine mints its id and detection
    /// time.
    RecordViolation(Violation),
    /// Close an open violation whose cause is no longer detected.
    ResolveViolation { id: ViolationId, at: Timestamp },
    /// Persist a person's derivation digest.
    SetDerivedDigest { person: PersonId, digest: [u8; 32], at: Timestamp },
    /// Atomically replace the travel closure.
    ReplaceClosure { entries: Vec<ClosureEntry> },
}

/// Stable variant names.
pub open spec fn kind_name(c: &Command) -> &'static str {
    match c {
        Command::UpsertPerson(_) => "upsert_person",
        Command::UpsertGroup(_) => "upsert_group",
        Command::UpsertEvent(_) => "upsert_event",
        Command::UpsertLocation(_) => "upsert_location",
        Command::AddAttendance { .. } => "add_attendance",
        Command::RemoveAttendance { .. } => "remove_attendance",
        Command::SetPriority { .. } => "set_priority",
        Command::AddMembership { .. } => "add_membership",
        Command::AddSubgroup { .. } => "add_subgroup",
        Command::AddExpectation { .. } => "add_expectation",
        Command::HoldLocation { .. } => "hold_location",
        Command::AddContainment { .. } => "add_containment",
        Command::AddTraversePair(_) => "add_traverse_pair",
        Command::AddAnchor(_) => "add_anchor",
        Command::WaiveViolation { .. } => "waive_violation",
        Command::RecordViolation(_) => "record_violation",
        Command::ResolveViolation { .. } => "resolve_violation",
        Command::SetDerivedDigest { .. } => "set_derived_digest",
        Command::ReplaceClosure { .. } => "replace_closure",
    }
}

impl Command {
    /// Stable variant name.
    pub fn kind(&self) -> (r: &'static str)
        ensures
            r == kind_name(self),
    {
        match self {
            Command::UpsertPerson(_) => "upsert_person",
            Command::UpsertGroup(_) => "upsert_group",
            Command::UpsertEvent(_) => "upsert_event",
            Command::UpsertLocation(_) => "upsert_location",
            Command::AddAttendance { .. } => "add_attendance",
            Command::RemoveAttendance { .. } => "remove_attendance",
            Command::SetPriority { .. } => "set_priority",
            Command::AddMembership { .. } => "add_membership",
            Command::AddSubgroup { .. } => "add_subgroup",
            Command::AddExpectation { .. } => "add_expectation",
            Command::HoldLocation { .. } => "hold_location",
            Command::AddContainment { .. } => "add_containment",
            Command::AddTraversePair(_) => "add_traverse_pair",
            Command::AddAnchor(_) => "add_anchor",
            Command::WaiveViolation { .. } => "waive_violation",
            Command::RecordViolation(_) => "record_violation",
            Command::ResolveViolation { .. } => "resolve_violation",
            Command::SetDerivedDigest { .. } => "set_derived_digest",
            Command::ReplaceClosure { .. } => "replace_closure",
        }
    }
}

/// Proof a command was applied: the repository's monotonic apply counter.
#[derive(Clone, Copy, PartialEq, Eq, Structural, Hash, Debug)]
pub struct CommandReceipt {
    pub seq: u64,
}

} // verus!
