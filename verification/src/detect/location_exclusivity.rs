//! `location_exclusivity`: two `held` edges into one location, for
//! different events, with overlapping windows. Partition: location.
//!
//! Same predicate and shape as location time conflicts. The legitimate
//! declared overflow (one event held in a primary room and an overflow
//! room) involves two locations and so never pairs on a single one.

use vstd::prelude::*;

use crate::detect::{draft, drafts_view, DraftView, ViolationDraft, SEVERITY_LOCATION_EXCLUSIVITY};
use crate::model::{EntityRef, Held, LocationId, ViolationKind};

verus! {

/// The holds into the location, in input order.
pub open spec fn holds_at(holds: Seq<Held>, location: LocationId) -> Seq<Held> {
    holds.filter(|a: Held| a.location == location)
}

/// Whether two holds collide.
pub open spec fn in_collision(a: Held, b: Held) -> bool {
    a.event != b.event && a.during.overlaps_with(b.during)
}

pub open spec fn exclusivity_draft(location: LocationId, a: Held, b: Held) -> DraftView {
    DraftView {
        kind: ViolationKind::LocationExclusivity,
        severity: SEVERITY_LOCATION_EXCLUSIVITY,
        subjects: seq![EntityRef::Location(location), EntityRef::Event(a.event), EntityRef::Event(b.event)],
    }
}

/// Drafts for the pairs `(i, k)` with `i < k < j`, in order of `k`.
pub open spec fn collisions_from(s: Seq<Held>, location: LocationId, i: int, j: int) -> Seq<
    DraftView,
>
    decreases j - i,
{
    if j <= i + 1 {
        seq![]
    } else {
        collisions_from(s, location, i, j - 1) + if in_collision(s[i], s[j - 1]) {
            seq![exclusivity_draft(location, s[i], s[j - 1])]
        } else {
            seq![]
        }
    }
}

/// Drafts for every pair `(i, k)` with `i < n` and `i < k < s.len()`,
/// ordered by `i` then `k`.
pub open spec fn collisions_upto(s: Seq<Held>, location: LocationId, n: int) -> Seq<DraftView>
    decreases n,
{
    if n <= 0 {
        seq![]
    } else {
        collisions_upto(s, location, n - 1) + collisions_from(s, location, n - 1, s.len() as int)
    }
}

/// All exclusivity violations at `location`: one draft per colliding pair
/// of its holds, reported once, ordered by input index.
pub open spec fn exclusivity_violations(holds: Seq<Held>, location: LocationId) -> Seq<DraftView> {
    let s = holds_at(holds, location);
    collisions_upto(s, location, s.len() as int)
}

/// The holds into the location, in input order.
pub fn own_holds(location: LocationId, holds: &[Held]) -> (r: Vec<Held>)
    ensures
        r@ == holds_at(holds@, location),
{
    let mut out: Vec<Held> = Vec::new();
    let mut i: usize = 0;
    while i < holds.len()
        invariant
            i <= holds@.len(),
            out@ == holds_at(holds@.take(i as int), location),
        decreases holds@.len() - i,
    {
        let a = holds[i];
        proof {
            assert(holds@.take(i + 1) =~= holds@.take(i as int).push(a));
            holds@.take(i as int).lemma_filter_push(a, |x: Held| x.location == location);
        }
        if a.location == location {
            out.push(a);
        }
        i += 1;
    }
    assert(holds@.take(holds@.len() as int) =~= holds@);
    out
}

pub fn detect(location: LocationId, holds: &[Held]) -> (r: Vec<ViolationDraft>)
    ensures
        drafts_view(r@) == exclusivity_violations(holds@, location),
{
    let mine = own_holds(location, holds);
    let n = mine.len();
    let mut out: Vec<ViolationDraft> = Vec::new();
    let mut i: usize = 0;
    while i < n
        invariant
            n == mine@.len(),
            i <= n,
            drafts_view(out@) == collisions_upto(mine@, location, i as int),
        decreases n - i,
    {
        let mut j: usize = i + 1;
        while j < n
            invariant
                n == mine@.len(),
                i < n,
                i + 1 <= j <= n,
                drafts_view(out@) == collisions_upto(mine@, location, i as int) + collisions_from(
                    mine@,
                    location,
                    i as int,
                    j as int,
                ),
            decreases n - j,
        {
            let (a, b) = (mine[i], mine[j]);
            let ghost before = out@;
            if a.event != b.event && a.during.overlaps(&b.during) {
                let mut subjects: Vec<EntityRef> = Vec::new();
                subjects.push(EntityRef::Location(location));
                subjects.push(EntityRef::Event(a.event));
                subjects.push(EntityRef::Event(b.event));
                out.push(draft(ViolationKind::LocationExclusivity, SEVERITY_LOCATION_EXCLUSIVITY, subjects));
                assert(subjects@ =~= seq![
                    EntityRef::Location(location),
                    EntityRef::Event(a.event),
                    EntityRef::Event(b.event),
                ]);
                assert(drafts_view(out@) =~= drafts_view(before).push(
                    exclusivity_draft(location, a, b),
                ));
            }
            j += 1;
            assert(drafts_view(out@) =~= collisions_upto(mine@, location, i as int) + collisions_from(
                mine@,
                location,
                i as int,
                j as int,
            ));
        }
        i += 1;
        assert(drafts_view(out@) =~= collisions_upto(mine@, location, i as int));
    }
    out
}

} // verus!
