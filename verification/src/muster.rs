//! The application layer: the service wraps the engine and the SDK; it
//! adds view shapes and orchestration, never feasibility logic. Conflicts
//! arrive as engine violation records, provenance arrives from derived
//! expansion, and this layer recomputes neither.

pub mod clock;
pub mod demo;
pub mod service;

pub use clock::hhmm;
pub use demo::{build_demo_world, run_demo, DemoReport, DemoWorld};

pub use service::{EntrySource, EventSummary, MusterService, ScheduleEntry, ScheduleView, SelectionOutcome};
