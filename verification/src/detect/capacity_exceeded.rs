//! `capacity_exceeded`: signalled interest above allocated capacity.
//! Partition: event.
//!
//! The count is a ranking signal, not a forecast: `attends` edges with
//! effective priority above a threshold, compared against
//! `held.capacity_override`, else the location's capacity.

use vstd::prelude::*;

use crate::detect::{
    answer1, draft, drafts_view, is_lookup1, DraftView, ViolationDraft, SEVERITY_CAPACITY_EXCEEDED,
};
use crate::model::{
    effective_priority_spec, Attends, EntityRef, EventId, Held, LocationId, Priority, ViolationKind,
};

verus! {

/// Edges of `event` whose effective priority is strictly above `threshold`.
pub open spec fn interested(attends: Seq<Attends>, event: EventId, threshold: Priority) -> Seq<
    Attends,
> {
    attends.filter(
        |a: Attends| a.event == event && effective_priority_spec(a).0 > threshold.0,
    )
}

/// Count of signalled interest for one event, as a `u32` (wrapping at
/// 2^32 as the conversion does).
pub fn signalled_interest(event: EventId, attends: &[Attends], threshold: Priority) -> (r: u32)
    ensures
        r as int == interested(attends@, event, threshold).len() % 0x1_0000_0000,
{
    let mut n: usize = 0;
    let mut i: usize = 0;
    while i < attends.len()
        invariant
            i <= attends@.len(),
            n == interested(attends@.take(i as int), event, threshold).len(),
            n <= i,
        decreases attends@.len() - i,
    {
        let a = attends[i];
        proof {
            assert(attends@.take(i + 1) =~= attends@.take(i as int).push(a));
            attends@.take(i as int).lemma_filter_push(
                a,
                |a: Attends| a.event == event && effective_priority_spec(a).0 > threshold.0,
            );
        }
        if a.event == event && a.effective_priority().0 > threshold.0 {
            n += 1;
        }
        i += 1;
    }
    assert(attends@.take(attends@.len() as int) =~= attends@);
    let m = n as u64;
    assert(m as u32 == m % 0x1_0000_0000) by (bit_vector);
    m as u32
}

/// The capacity that binds a hold: its override, else the location's.
pub open spec fn binding_capacity(h: Held, location_capacity: spec_fn(LocationId) -> Option<u32>) -> Option<u32> {
    match h.capacity_override {
        Some(c) => Some(c),
        None => location_capacity(h.location),
    }
}

/// Holds of `event` whose binding capacity exists and is exceeded.
pub open spec fn over_capacity(
    event: EventId,
    holds: Seq<Held>,
    signalled: u32,
    location_capacity: spec_fn(LocationId) -> Option<u32>,
) -> Seq<Held> {
    holds.filter(
        |h: Held|
            h.event == event && match binding_capacity(h, location_capacity) {
                Some(c) => signalled > c,
                None => false,
            },
    )
}

pub open spec fn capacity_draft(event: EventId, h: Held) -> DraftView {
    DraftView {
        kind: ViolationKind::CapacityExceeded,
        severity: SEVERITY_CAPACITY_EXCEEDED,
        subjects: seq![EntityRef::Event(event), EntityRef::Location(h.location)],
    }
}

/// One draft per over-capacity hold of `event`, in input order.
pub open spec fn capacity_drafts(
    event: EventId,
    holds: Seq<Held>,
    signalled: u32,
    location_capacity: spec_fn(LocationId) -> Option<u32>,
) -> Seq<DraftView> {
    over_capacity(event, holds, signalled, location_capacity).map_values(
        |h: Held| capacity_draft(event, h),
    )
}

/// One draft per over-capacity `held` edge. `location_capacity` resolves a
/// location's base capacity.
pub fn detect<F: Fn(LocationId) -> Option<u32>>(
    event: EventId,
    holds: &[Held],
    signalled: u32,
    location_capacity: &F,
) -> (r: Vec<ViolationDraft>)
    requires
        is_lookup1(*location_capacity),
    ensures
        drafts_view(r@) == capacity_drafts(
            event,
            holds@,
            signalled,
            |l: LocationId| answer1(*location_capacity, l),
        ),
{
    proof {
        assert forall|l: LocationId, c: Option<u32>| location_capacity.ensures((l,), c) implies c == answer1(
            *location_capacity,
            l,
        ) by {
            assert(location_capacity.ensures((l,), answer1(*location_capacity, l)));
        }
    }
    detect_by(event, holds, signalled, location_capacity, Ghost(|l: LocationId| answer1(*location_capacity, l)))
}

/// `detect` with the lookup's answers named by `cap`.
pub(crate) fn detect_by<F: Fn(LocationId) -> Option<u32>>(
    event: EventId,
    holds: &[Held],
    signalled: u32,
    location_capacity: &F,
    Ghost(cap): Ghost<spec_fn(LocationId) -> Option<u32>>,
) -> (r: Vec<ViolationDraft>)
    requires
        forall|l: LocationId| #[trigger] location_capacity.requires((l,)),
        forall|l: LocationId, c: Option<u32>| location_capacity.ensures((l,), c) ==> c == cap(l),
    ensures
        drafts_view(r@) == capacity_drafts(event, holds@, signalled, cap),
{
    let ghost pred = |h: Held|
        h.event == event && match binding_capacity(h, cap) {
            Some(c) => signalled > c,
            None => false,
        };
    let mut out: Vec<ViolationDraft> = Vec::new();
    let mut i: usize = 0;
    while i < holds.len()
        invariant
            i <= holds@.len(),
            forall|l: LocationId| #[trigger] location_capacity.requires((l,)),
            forall|l: LocationId, c: Option<u32>| location_capacity.ensures((l,), c) ==> c == cap(l),
            pred == (|h: Held|
                h.event == event && match binding_capacity(h, cap) {
                    Some(c) => signalled > c,
                    None => false,
                }),
            drafts_view(out@) == holds@.take(i as int).filter(pred).map_values(
                |h: Held| capacity_draft(event, h),
            ),
        decreases holds@.len() - i,
    {
        let h = holds[i];
        proof {
            assert(holds@.take(i + 1) =~= holds@.take(i as int).push(h));
            holds@.take(i as int).lemma_filter_push(h, pred);
        }
        let ghost before = out@;
        if h.event == event {
            let cap_here = match h.capacity_override {
                Some(c) => Some(c),
                None => location_capacity(h.location),
            };
            assert(cap_here == binding_capacity(h, cap));
            if let Some(c) = cap_here {
                if signalled > c {
                    let mut subjects: Vec<EntityRef> = Vec::new();
                    subjects.push(EntityRef::Event(event));
                    subjects.push(EntityRef::Location(h.location));
                    assert(subjects@ =~= seq![EntityRef::Event(event), EntityRef::Location(h.location)]);
                    out.push(draft(ViolationKind::CapacityExceeded, SEVERITY_CAPACITY_EXCEEDED, subjects));
                    assert(pred(h));
                    assert(drafts_view(out@) =~= drafts_view(before).push(capacity_draft(event, h)));
                } else {
                    assert(!pred(h));
                }
            } else {
                assert(!pred(h));
            }
        } else {
            assert(!pred(h));
        }
        let ghost f = |h: Held| capacity_draft(event, h);
        assert(holds@.take(i as int).filter(pred).push(h).map_values(f) =~= holds@.take(
            i as int,
        ).filter(pred).map_values(f).push(f(h)));
        assert(drafts_view(out@) =~= holds@.take(i + 1).filter(pred).map_values(
            |h: Held| capacity_draft(event, h),
        ));
        i += 1;
    }
    assert(holds@.take(holds@.len() as int) =~= holds@);
    out
}

} // verus!
