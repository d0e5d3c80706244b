//! Timestamps and half-open intervals: the one piece of interval machinery
//! every conflict check shares.
//!
//! Time is `i64` microseconds since the Unix epoch, UTC. An interval is the
//! half-open set of instants `[start, end)`; construction rejects inverted
//! intervals, and the zero-length interval is only available through
//! [`Interval::at_point`].

use vstd::prelude::*;

use crate::error::OrreryError;

verus! {

/// Microseconds since the Unix epoch, UTC.
#[derive(Clone, Copy, PartialEq, Eq, Structural, PartialOrd, Ord, Hash, Debug, Default)]
pub struct Timestamp(pub i64);

impl Timestamp {
    pub fn micros(self) -> (r: i64)
        ensures
            r == self.0,
    {
        self.0
    }
}

/// Half-open interval `[start, end)` with `start <= end`.
#[derive(Clone, Copy, PartialEq, Eq, Structural, Hash, Debug)]
pub struct Interval {
    start: Timestamp,
    end: Timestamp,
}

/// Allen's thirteen interval relations, `self R other`.
#[derive(Clone, Copy, PartialEq, Eq, Structural, Hash, Debug)]
pub enum AllenRelation {
    Before,
    Meets,
    Overlaps,
    FinishedBy,
    Contains,
    Starts,
    Equals,
    StartedBy,
    During,
    Finishes,
    OverlappedBy,
    MetBy,
    After,
}

/// The shared overlap predicate on endpoints: both non-empty and each
/// starts before the other ends.
pub open spec fn overlaps_spec(a_lo: int, a_hi: int, b_lo: int, b_hi: int) -> bool {
    a_lo != a_hi && b_lo != b_hi && a_lo < b_hi && b_lo < a_hi
}

/// The Allen relation from `[a_lo, a_hi)` to `[b_lo, b_hi)`: the first of
/// these endpoint tests that holds decides (for positive-length intervals
/// exactly one holds).
pub open spec fn allen_spec(a_lo: int, a_hi: int, b_lo: int, b_hi: int) -> AllenRelation {
    if a_lo == b_lo && a_hi == b_hi {
        AllenRelation::Equals
    } else if a_hi < b_lo {
        AllenRelation::Before
    } else if a_hi == b_lo {
        AllenRelation::Meets
    } else if b_hi < a_lo {
        AllenRelation::After
    } else if b_hi == a_lo {
        AllenRelation::MetBy
    } else if a_lo < b_lo {
        if a_hi < b_hi {
            AllenRelation::Overlaps
        } else if a_hi == b_hi {
            AllenRelation::FinishedBy
        } else {
            AllenRelation::Contains
        }
    } else if a_lo == b_lo {
        if a_hi < b_hi {
            AllenRelation::Starts
        } else {
            AllenRelation::StartedBy
        }
    } else {
        if a_hi < b_hi {
            AllenRelation::During
        } else if a_hi == b_hi {
            AllenRelation::Finishes
        } else {
            AllenRelation::OverlappedBy
        }
    }
}

/// The converse relation: `a R b` iff `b R.converse() a`.
pub open spec fn converse_spec(r: AllenRelation) -> AllenRelation {
    match r {
        AllenRelation::Before => AllenRelation::After,
        AllenRelation::After => AllenRelation::Before,
        AllenRelation::Meets => AllenRelation::MetBy,
        AllenRelation::MetBy => AllenRelation::Meets,
        AllenRelation::Overlaps => AllenRelation::OverlappedBy,
        AllenRelation::OverlappedBy => AllenRelation::Overlaps,
        AllenRelation::FinishedBy => AllenRelation::Finishes,
        AllenRelation::Finishes => AllenRelation::FinishedBy,
        AllenRelation::Contains => AllenRelation::During,
        AllenRelation::During => AllenRelation::Contains,
        AllenRelation::Starts => AllenRelation::StartedBy,
        AllenRelation::StartedBy => AllenRelation::Starts,
        AllenRelation::Equals => AllenRelation::Equals,
    }
}

/// Relations under which two intervals share at least one instant.
pub open spec fn implies_overlap_spec(r: AllenRelation) -> bool {
    !(r is Before || r is After || r is Meets || r is MetBy)
}

impl Interval {
    /// First instant (inclusive), in microseconds.
    pub closed spec fn lo(self) -> int {
        self.start.0 as int
    }

    /// End instant (exclusive), in microseconds.
    pub closed spec fn hi(self) -> int {
        self.end.0 as int
    }

    #[verifier::type_invariant]
    spec fn ordered(self) -> bool {
        self.start.0 <= self.end.0
    }

    /// Whether the instant `t` lies in `[lo, hi)`.
    pub open spec fn contains_spec(self, t: int) -> bool {
        self.lo() <= t < self.hi()
    }

    /// The overlap predicate on the model.
    pub open spec fn overlaps_with(self, other: Interval) -> bool {
        overlaps_spec(self.lo(), self.hi(), other.lo(), other.hi())
    }

    /// A positive-length interval; `end <= start` is rejected at
    /// construction.
    pub fn new(start: Timestamp, end: Timestamp) -> (r: Result<Interval, OrreryError>)
        ensures
            start.0 < end.0 <==> r is Ok,
            r matches Ok(i) ==> i.lo() == start.0 && i.hi() == end.0,
            r matches Err(e) ==> e is InvalidInterval,
    {
        if end.0 <= start.0 {
            return Err(OrreryError::InvalidInterval { reason: "end must be strictly after start (use at_point for zero-length)" });
        }
        Ok(Interval { start, end })
    }

    /// The explicitly permitted zero-length interval `[t, t)`.
    pub fn at_point(t: Timestamp) -> (r: Interval)
        ensures
            r.lo() == t.0 && r.hi() == t.0,
    {
        Interval { start: t, end: t }
    }

    pub fn start(&self) -> (r: Timestamp)
        ensures
            r.0 == self.lo(),
            self.lo() <= self.hi(),
    {
        proof {
            use_type_invariant(self);
        }
        self.start
    }

    pub fn end(&self) -> (r: Timestamp)
        ensures
            r.0 == self.hi(),
            self.lo() <= self.hi(),
    {
        proof {
            use_type_invariant(self);
        }
        self.end
    }

    pub fn is_empty(&self) -> (r: bool)
        ensures
            r == (self.lo() == self.hi()),
    {
        self.start.0 == self.end.0
    }

    /// Duration in microseconds.
    pub fn duration_micros(&self) -> (r: i64)
        requires
            self.hi() - self.lo() <= i64::MAX,
        ensures
            r == self.hi() - self.lo(),
    {
        proof {
            use_type_invariant(self);
        }
        self.end.0 - self.start.0
    }

    /// `a.start < b.end && b.start < a.end`, with empty intervals
    /// overlapping nothing. Intervals that merely meet do not overlap.
    pub fn overlaps(&self, other: &Interval) -> (r: bool)
        ensures
            r == self.overlaps_with(*other),
    {
        !self.is_empty() && !other.is_empty() && self.start.0 < other.end.0 && other.start.0
            < self.end.0
    }

    /// Whether an instant falls inside `[start, end)`.
    pub fn contains_point(&self, t: Timestamp) -> (r: bool)
        ensures
            r == self.contains_spec(t.0 as int),
    {
        self.start.0 <= t.0 && t.0 < self.end.0
    }

    /// Whether `other` lies entirely within `self`.
    pub fn contains_interval(&self, other: &Interval) -> (r: bool)
        ensures
            r == (self.lo() <= other.lo() && other.hi() <= self.hi()),
    {
        self.start.0 <= other.start.0 && other.end.0 <= self.end.0
    }

    /// `[a, b)` meets `[b, c)`.
    pub fn meets(&self, other: &Interval) -> (r: bool)
        ensures
            r == (self.hi() == other.lo()),
    {
        self.end.0 == other.start.0
    }

    /// Union of two intervals that overlap or meet; `None` when a gap
    /// separates them.
    pub fn merge(&self, other: &Interval) -> (r: Option<Interval>)
        ensures
            r is Some <==> (self.overlaps_with(*other) || self.hi() == other.lo() || other.hi()
                == self.lo()),
            r matches Some(m) ==> m.lo() == (if self.lo() <= other.lo() {
                self.lo()
            } else {
                other.lo()
            }) && m.hi() == (if self.hi() >= other.hi() {
                self.hi()
            } else {
                other.hi()
            }),
    {
        proof {
            use_type_invariant(self);
            use_type_invariant(other);
        }
        if self.overlaps(other) || self.meets(other) || other.meets(self) {
            let start = if self.start.0 <= other.start.0 {
                self.start
            } else {
                other.start
            };
            let end = if self.end.0 >= other.end.0 {
                self.end
            } else {
                other.end
            };
            Some(Interval { start, end })
        } else {
            None
        }
    }

    /// The Allen relation from `self` to `other`. Allen's algebra is
    /// defined for positive-length intervals; on empty ones the result is
    /// still the first matching endpoint test of [`allen_spec`].
    pub fn allen(&self, other: &Interval) -> (r: AllenRelation)
        ensures
            r == allen_spec(self.lo(), self.hi(), other.lo(), other.hi()),
    {
        let (a_lo, a_hi, b_lo, b_hi) = (self.start.0, self.end.0, other.start.0, other.end.0);
        if a_lo == b_lo && a_hi == b_hi {
            AllenRelation::Equals
        } else if a_hi < b_lo {
            AllenRelation::Before
        } else if a_hi == b_lo {
            AllenRelation::Meets
        } else if b_hi < a_lo {
            AllenRelation::After
        } else if b_hi == a_lo {
            AllenRelation::MetBy
        } else if a_lo < b_lo {
            if a_hi < b_hi {
                AllenRelation::Overlaps
            } else if a_hi == b_hi {
                AllenRelation::FinishedBy
            } else {
                AllenRelation::Contains
            }
        } else if a_lo == b_lo {
            if a_hi < b_hi {
                AllenRelation::Starts
            } else {
                AllenRelation::StartedBy
            }
        } else {
            if a_hi < b_hi {
                AllenRelation::During
            } else if a_hi == b_hi {
                AllenRelation::Finishes
            } else {
                AllenRelation::OverlappedBy
            }
        }
    }
}

impl AllenRelation {
    /// The converse relation: `a R b` iff `b R.converse() a`.
    pub fn converse(self) -> (r: AllenRelation)
        ensures
            r == converse_spec(self),
    {
        match self {
            AllenRelation::Before => AllenRelation::After,
            AllenRelation::After => AllenRelation::Before,
            AllenRelation::Meets => AllenRelation::MetBy,
            AllenRelation::MetBy => AllenRelation::Meets,
            AllenRelation::Overlaps => AllenRelation::OverlappedBy,
            AllenRelation::OverlappedBy => AllenRelation::Overlaps,
            AllenRelation::FinishedBy => AllenRelation::Finishes,
            AllenRelation::Finishes => AllenRelation::FinishedBy,
            AllenRelation::Contains => AllenRelation::During,
            AllenRelation::During => AllenRelation::Contains,
            AllenRelation::Starts => AllenRelation::StartedBy,
            AllenRelation::StartedBy => AllenRelation::Starts,
            AllenRelation::Equals => AllenRelation::Equals,
        }
    }

    /// Relations under which the two intervals share at least one instant
    /// (half-open: `Meets` and `MetBy` share none).
    pub fn implies_overlap(self) -> (r: bool)
        ensures
            r == implies_overlap_spec(self),
    {
        match self {
            AllenRelation::Before | AllenRelation::After | AllenRelation::Meets
            | AllenRelation::MetBy => false,
            _ => true,
        }
    }
}

/// The ends of an interval are instants: they fit in `i64`.
pub proof fn lemma_ends_fit(i: Interval)
    ensures
        i64::MIN <= i.lo() <= i64::MAX,
        i64::MIN <= i.hi() <= i64::MAX,
{
}

/// Converse law: for positive-length intervals, the relation from `b` to
/// `a` is the converse of the relation from `a` to `b`.
pub proof fn lemma_allen_converse(a: Interval, b: Interval)
    requires
        a.lo() < a.hi(),
        b.lo() < b.hi(),
    ensures
        allen_spec(b.lo(), b.hi(), a.lo(), a.hi()) == converse_spec(
            allen_spec(a.lo(), a.hi(), b.lo(), b.hi()),
        ),
{
}

/// Converse is an involution.
pub proof fn lemma_converse_involutive(r: AllenRelation)
    ensures
        converse_spec(converse_spec(r)) == r,
{
}

/// For positive-length intervals, the Allen relation implies a shared
/// instant exactly when the overlap predicate holds.
pub proof fn lemma_allen_agrees_with_overlap(a: Interval, b: Interval)
    requires
        a.lo() < a.hi(),
        b.lo() < b.hi(),
    ensures
        implies_overlap_spec(allen_spec(a.lo(), a.hi(), b.lo(), b.hi())) == a.overlaps_with(b),
{
}

/// Overlap is symmetric.
pub proof fn lemma_overlap_symmetric(a: Interval, b: Interval)
    ensures
        a.overlaps_with(b) == b.overlaps_with(a),
{
}

/// Overlap means a shared instant: for intervals, overlapping is the same
/// as some instant lying in both.
pub proof fn lemma_overlap_iff_shared_instant(a: Interval, b: Interval)
    requires
        a.lo() <= a.hi(),
        b.lo() <= b.hi(),
    ensures
        a.overlaps_with(b) <==> exists|t: int| a.contains_spec(t) && b.contains_spec(t),
{
    if a.overlaps_with(b) {
        let t = if a.lo() >= b.lo() {
            a.lo()
        } else {
            b.lo()
        };
        assert(a.contains_spec(t) && b.contains_spec(t));
    }
}

} // verus!
