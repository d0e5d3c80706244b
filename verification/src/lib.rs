//! Orrery: a spatiotemporal feasibility engine. Given people assigned to
//! events at locations over time, it reports the ways that assignment is
//! impossible.

pub mod error;
pub mod interval;
pub mod model;
pub mod tier;
pub mod order;
pub mod derive;
pub mod incremental;
pub mod detect;
pub mod travel;
pub mod command;
pub mod repo;
pub mod engine;
pub mod analytics;
pub mod sdk;
pub mod muster;
pub mod wire;
pub mod agreement;

pub use command::{Command, CommandReceipt};
pub use error::OrreryError;
pub use interval::{AllenRelation, Interval, Timestamp};
