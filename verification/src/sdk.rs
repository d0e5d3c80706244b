//! Search and orchestration over the engine's contract: request and
//! response shapes and strategy. Every domain fact and every violation
//! definition stays the engine's.

use vstd::prelude::*;

use crate::error::OrreryError;
use crate::interval::Interval;
use crate::model::{EventId, LocationId, Violation};

pub mod assign;
pub mod batch;
pub mod notify;
pub mod objective;
pub mod search;
pub mod suggest;



verus! {

/// Why an orchestration call failed.
#[derive(Debug)]
pub enum SdkError {
    Engine(OrreryError),
    InvalidRequest { reason: String },
}

/// An event needing a room; its start time is fixed.
#[derive(Clone, Copy, PartialEq, Eq, Structural, Debug)]
pub struct RoomRequest {
    pub event: EventId,
    pub window: Interval,
    pub expected_size: Option<u32>,
}

/// A candidate room.
#[derive(Clone, Copy, PartialEq, Eq, Structural, Debug)]
pub struct RoomOption {
    pub location: LocationId,
    pub capacity: Option<u32>,
}

#[derive(Clone, Copy, PartialEq, Eq, Structural, Debug)]
pub struct Placement {
    pub event: EventId,
    pub location: LocationId,
}

/// A room schedule proposal: placements, the events that could not be
/// placed (surfaced, never dropped), and the engine's violations for the
/// placements, verbatim.
#[derive(Debug)]
pub struct Suggestion {
    pub placements: Vec<Placement>,
    pub unassigned: Vec<EventId>,
    pub violations: Vec<Violation>,
}

} // verus!
