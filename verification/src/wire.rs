//! The shapes the REST surface speaks in, before serialisation: schedule
//! provenance, receipt numbers, the window a request asks about, and the
//! server's settings.

use vstd::prelude::*;

use crate::error::OrreryError;
use crate::interval::{Interval, Timestamp};

verus! {

/// Why an entry is on the schedule and who put it there.
#[derive(Debug)]
pub enum ProvenanceDto {
    SelfSelected,
    Coordinator,
    Group { name: String },
}

/// A command's receipt number.
#[derive(Clone, Copy, PartialEq, Eq, Structural, Debug)]
pub struct SeqDto {
    pub seq: u64,
}

/// The optional window and instant of a request, in microseconds.
#[derive(Clone, Copy, PartialEq, Eq, Structural, Debug)]
pub struct WindowQuery {
    pub start_us: Option<i64>,
    pub end_us: Option<i64>,
    pub at_us: Option<i64>,
}

impl Default for WindowQuery {
    fn default() -> (r: WindowQuery)
        ensures
            r.start_us is None && r.end_us is None && r.at_us is None,
    {
        WindowQuery { start_us: None, end_us: None, at_us: None }
    }
}

impl WindowQuery {
    /// The window and instant a request asks about: its own window when it
    /// gives both ends, refused as an invalid interval unless the end is
    /// after the start, otherwise the default window; its own instant when
    /// it gives one, otherwise the default instant.
    pub fn resolve(&self, default_window: Interval, default_at: Timestamp) -> (r: Result<(Interval, Timestamp), OrreryError>)
        ensures
            (match (self.start_us, self.end_us) {
                (Some(a), Some(b)) => if a < b {
                    r matches Ok(p) && p.0.lo() == a && p.0.hi() == b
                } else {
                    r matches Err(e) && e is InvalidInterval
                },
                _ => r matches Ok(p) && p.0 == default_window,
            }),
            r matches Ok(p) ==> p.1 == (match self.at_us {
                Some(t) => Timestamp(t),
                None => default_at,
            }),
    {
        let window = match (self.start_us, self.end_us) {
            (Some(a), Some(b)) => match Interval::new(Timestamp(a), Timestamp(b)) {
                Ok(i) => i,
                Err(e) => {
                    return Err(e);
                },
            },
            _ => default_window,
        };
        let at = match self.at_us {
            Some(t) => Timestamp(t),
            None => default_at,
        };
        Ok((window, at))
    }
}

/// The server's settings: where it listens and where traces go (`stdout`
/// or `none`).
#[derive(Debug)]
pub struct ServerConfig {
    pub bind: String,
    pub exporter: String,
}

impl Default for ServerConfig {
    fn default() -> (r: ServerConfig)
        ensures
            r.bind@ == "127.0.0.1:8080"@,
            r.exporter@ == "stdout"@,
    {
        ServerConfig { bind: "127.0.0.1:8080".to_owned(), exporter: "stdout".to_owned() }
    }
}

} // verus!
