//! `containment_exclusivity`: a container and something it (transitively)
//! contains, held for different events in overlapping windows: a building
//! and a room inside it cannot be booked simultaneously for different
//! events. Partition: location (the container).

use vstd::prelude::*;

use crate::detect::{draft, drafts_view, DraftView, ViolationDraft, SEVERITY_CONTAINMENT_EXCLUSIVITY};
use crate::model::{EntityRef, Held, LocationId, ViolationKind, Within};

verus! {

/// The parent recorded for `loc` among the first `n` edges (the last such
/// edge wins).
pub open spec fn parent_among(within: Seq<Within>, loc: LocationId, n: int) -> Option<LocationId>
    decreases n,
{
    if n <= 0 {
        None
    } else if within[n - 1].child == loc {
        Some(within[n - 1].parent)
    } else {
        parent_among(within, loc, n - 1)
    }
}

/// The parent of `loc`: the last `within` edge naming it as child.
pub open spec fn parent_of(within: Seq<Within>, loc: LocationId) -> Option<LocationId> {
    parent_among(within, loc, within.len() as int)
}

/// Follow parents from `loc`, appending to `seen`, until there is no
/// parent or the parent was already seen (a cycle, illegal but not
/// allowed to hang). The chain never holds more entries than there are
/// edges.
pub open spec fn chain_from(within: Seq<Within>, loc: LocationId, seen: Seq<LocationId>) -> Seq<
    LocationId,
>
    decreases within.len() - seen.len(),
{
    if seen.len() >= within.len() {
        seen
    } else {
        match parent_of(within, loc) {
            None => seen,
            Some(p) => if seen.contains(p) {
                seen
            } else {
                chain_from(within, p, seen.push(p))
            },
        }
    }
}

/// Strict ancestors of `loc`, nearest first.
pub open spec fn ancestors(within: Seq<Within>, loc: LocationId) -> Seq<LocationId> {
    chain_from(within, loc, seq![])
}

/// Whether `container`, held at an ancestor of `content`, collides with it.
pub open spec fn collides(container: Held, content: Held) -> bool {
    container.event != content.event && container.during.overlaps_with(content.during)
}

pub open spec fn containment_draft(container: Held, content: Held) -> DraftView {
    DraftView {
        kind: ViolationKind::ContainmentExclusivity,
        severity: SEVERITY_CONTAINMENT_EXCLUSIVITY,
        subjects: seq![
            EntityRef::Location(container.location),
            EntityRef::Location(content.location),
            EntityRef::Event(container.event),
            EntityRef::Event(content.event),
        ],
    }
}

/// Drafts for the holds at `anc` that collide with `content`, in input
/// order.
pub open spec fn at_ancestor(holds: Seq<Held>, content: Held, anc: LocationId) -> Seq<DraftView> {
    holds.filter(|c: Held| c.location == anc && collides(c, content)).map_values(
        |c: Held| containment_draft(c, content),
    )
}

/// Drafts over the first `k` ancestors, nearest first.
pub open spec fn over_ancestors(holds: Seq<Held>, content: Held, anc: Seq<LocationId>, k: int) -> Seq<
    DraftView,
>
    decreases k,
{
    if k <= 0 {
        seq![]
    } else {
        over_ancestors(holds, content, anc, k - 1) + at_ancestor(holds, content, anc[k - 1])
    }
}

/// Drafts for the first `i` holds taken as contents, in input order.
pub open spec fn over_contents(holds: Seq<Held>, within: Seq<Within>, i: int) -> Seq<DraftView>
    decreases i,
{
    if i <= 0 {
        seq![]
    } else {
        let anc = ancestors(within, holds[i - 1].location);
        over_contents(holds, within, i - 1) + over_ancestors(holds, holds[i - 1], anc, anc.len() as int)
    }
}

/// Every containment-exclusivity violation among `holds`.
pub open spec fn containment_violations(holds: Seq<Held>, within: Seq<Within>) -> Seq<DraftView> {
    over_contents(holds, within, holds.len() as int)
}

fn parent(within: &[Within], loc: LocationId) -> (r: Option<LocationId>)
    ensures
        r == parent_of(within@, loc),
{
    let mut n = within.len();
    while n > 0
        invariant
            n <= within@.len(),
            parent_of(within@, loc) == parent_among(within@, loc, n as int),
        decreases n,
    {
        if within[n - 1].child == loc {
            return Some(within[n - 1].parent);
        }
        n -= 1;
    }
    None
}

fn contains_loc(v: &Vec<LocationId>, x: LocationId) -> (r: bool)
    ensures
        r == v@.contains(x),
{
    let mut i: usize = 0;
    while i < v.len()
        invariant
            i <= v@.len(),
            forall|k: int| 0 <= k < i ==> v@[k] != x,
        decreases v@.len() - i,
    {
        if v[i] == x {
            return true;
        }
        i += 1;
    }
    false
}

/// Strict ancestors of `loc`, nearest first.
pub fn ancestors_of(within: &[Within], loc: LocationId) -> (r: Vec<LocationId>)
    ensures
        r@ == ancestors(within@, loc),
{
    let mut out: Vec<LocationId> = Vec::new();
    let mut cur = loc;
    while out.len() < within.len()
        invariant
            chain_from(within@, cur, out@) == ancestors(within@, loc),
        decreases within@.len() - out@.len(),
    {
        match parent(within, cur) {
            None => {
                return out;
            },
            Some(p) => {
                if contains_loc(&out, p) {
                    return out;
                }
                out.push(p);
                cur = p;
            },
        }
    }
    out
}

/// Drafts for the holds at `anc` colliding with `content`, appended to
/// `out`.
fn scan_ancestor(holds: &[Held], content: Held, anc: LocationId, out: &mut Vec<ViolationDraft>)
    ensures
        drafts_view(final(out)@) == drafts_view(old(out)@) + at_ancestor(holds@, content, anc),
{
    let ghost start = drafts_view(out@);
    let ghost pred = |c: Held| c.location == anc && collides(c, content);
    let ghost f = |c: Held| containment_draft(c, content);
    let mut j: usize = 0;
    while j < holds.len()
        invariant
            j <= holds@.len(),
            pred == (|c: Held| c.location == anc && collides(c, content)),
            f == (|c: Held| containment_draft(c, content)),
            drafts_view(out@) == start + holds@.take(j as int).filter(pred).map_values(f),
        decreases holds@.len() - j,
    {
        let c = holds[j];
        proof {
            assert(holds@.take(j + 1) =~= holds@.take(j as int).push(c));
            holds@.take(j as int).lemma_filter_push(c, pred);
            assert(holds@.take(j as int).filter(pred).push(c).map_values(f) =~= holds@.take(
                j as int,
            ).filter(pred).map_values(f).push(f(c)));
        }
        let ghost before = out@;
        if c.location == anc && c.event != content.event && c.during.overlaps(&content.during) {
            let mut subjects: Vec<EntityRef> = Vec::new();
            subjects.push(EntityRef::Location(c.location));
            subjects.push(EntityRef::Location(content.location));
            subjects.push(EntityRef::Event(c.event));
            subjects.push(EntityRef::Event(content.event));
            assert(subjects@ =~= seq![
                EntityRef::Location(c.location),
                EntityRef::Location(content.location),
                EntityRef::Event(c.event),
                EntityRef::Event(content.event),
            ]);
            out.push(
                draft(ViolationKind::ContainmentExclusivity, SEVERITY_CONTAINMENT_EXCLUSIVITY, subjects),
            );
            assert(drafts_view(out@) =~= drafts_view(before).push(f(c)));
        }
        j += 1;
    }
    assert(holds@.take(holds@.len() as int) =~= holds@);
}

/// Pure over the holds and the containment edge set; the ancestor chains
/// are computed from `within`.
pub fn detect(holds: &[Held], within: &[Within]) -> (r: Vec<ViolationDraft>)
    ensures
        drafts_view(r@) == containment_violations(holds@, within@),
{
    let mut out: Vec<ViolationDraft> = Vec::new();
    let mut i: usize = 0;
    while i < holds.len()
        invariant
            i <= holds@.len(),
            drafts_view(out@) == over_contents(holds@, within@, i as int),
        decreases holds@.len() - i,
    {
        let content = holds[i];
        let anc = ancestors_of(within, content.location);
        let ghost base = drafts_view(out@);
        let mut k: usize = 0;
        while k < anc.len()
            invariant
                k <= anc@.len(),
                drafts_view(out@) == base + over_ancestors(holds@, content, anc@, k as int),
            decreases anc@.len() - k,
        {
            scan_ancestor(holds, content, anc[k], &mut out);
            k += 1;
            assert(drafts_view(out@) =~= base + over_ancestors(holds@, content, anc@, k as int));
        }
        i += 1;
        assert(drafts_view(out@) =~= over_contents(holds@, within@, i as int));
    }
    out
}

} // verus!
