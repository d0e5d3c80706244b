//! `impossible_travel`: consecutive events where the gap is shorter than
//! the travel cost between their locations. Partition: person.
//!
//! Consecutive pairs, not all ordered pairs: if A to C is infeasible but B
//! occurs between them and A to B to C is feasible, that is not a
//! violation. Overlapping events are time conflicts, not travel. An
//! unknown route is not an accusation: no draft is emitted for it.

use vstd::prelude::*;

use crate::detect::{answer2, draft, drafts_view, is_lookup2, DraftView, ViolationDraft};
use crate::interval::Interval;
use crate::model::{
    EntityRef, EventId, LocationId, PersonId, Severity, TravelCost, TravelProvenance, ViolationKind,
};
use crate::order::{keyed_by, payloads, sort_keyed, stable_sort_by, ts_key, ts_key_spec};

verus! {

/// An event with a resolved location; the caller joins attends, event and
/// held.
#[derive(Clone, Copy, PartialEq, Eq, Structural, Debug)]
pub struct Placed {
    pub event: EventId,
    pub location: LocationId,
    pub window: Interval,
}

/// Sort key of a placed event: window start, then window end.
pub open spec fn window_key(p: Placed) -> Seq<u128> {
    seq![ts_key_spec(p.window.lo() as i64), ts_key_spec(p.window.hi() as i64)]
}

/// The placed events in stable order of (start, end).
pub open spec fn by_window(placed: Seq<Placed>) -> Seq<Placed> {
    stable_sort_by(placed, |p: Placed| window_key(p))
}

/// Severity of an infeasible leg: conservative on estimates.
pub open spec fn travel_severity(p: TravelProvenance) -> Severity {
    match p {
        TravelProvenance::Measured => Severity::Hard,
        TravelProvenance::Estimated => Severity::Warning,
    }
}

/// The draft for the leg `a -> b` given the travel answer, if the leg is
/// a violation: disjoint windows, different locations, a known route, and
/// a gap shorter than the route.
pub open spec fn leg_draft(person: PersonId, a: Placed, b: Placed, cost: Option<TravelCost>) -> Option<DraftView> {
    if b.window.lo() < a.window.hi() || a.location == b.location {
        None
    } else {
        match cost {
            None => None,
            Some(c) => if b.window.lo() - a.window.hi() < c.duration_s * 1_000_000 {
                Some(DraftView {
                    kind: ViolationKind::ImpossibleTravel,
                    severity: travel_severity(c.provenance),
                    subjects: seq![EntityRef::Person(person), EntityRef::Event(a.event), EntityRef::Event(b.event)],
                })
            } else {
                None
            },
        }
    }
}

/// Drafts for the legs `s[k] -> s[k + 1]` with `k + 1 < n`, in order.
pub open spec fn legs_upto(person: PersonId, s: Seq<Placed>, travel: spec_fn(LocationId, LocationId) -> Option<TravelCost>, n: int) -> Seq<DraftView>
    decreases n,
{
    if n <= 1 {
        seq![]
    } else {
        legs_upto(person, s, travel, n - 1) + match leg_draft(person, s[n - 2], s[n - 1], travel(s[n - 2].location, s[n - 1].location)) {
            Some(d) => seq![d],
            None => seq![],
        }
    }
}

/// Every impossible-travel violation among the placed events of `person`.
pub open spec fn travel_violations(person: PersonId, placed: Seq<Placed>, travel: spec_fn(LocationId, LocationId) -> Option<TravelCost>) -> Seq<DraftView> {
    let s = by_window(placed);
    legs_upto(person, s, travel, s.len() as int)
}

/// The placed events in stable order of (start, end).
pub fn sort_by_window(placed: &[Placed]) -> (r: Vec<Placed>)
    ensures
        r@ == by_window(placed@),
{
    let ghost key = |p: Placed| window_key(p);
    let mut keyed: Vec<(Vec<u128>, Placed)> = Vec::new();
    let mut i: usize = 0;
    while i < placed.len()
        invariant
            i <= placed@.len(),
            key == (|p: Placed| window_key(p)),
            keyed_by(keyed@, key),
            payloads(keyed@) == placed@.take(i as int),
        decreases placed@.len() - i,
    {
        let p = placed[i];
        let mut k: Vec<u128> = Vec::new();
        k.push(ts_key(p.window.start().0));
        k.push(ts_key(p.window.end().0));
        assert(k@ =~= window_key(p));
        let ghost before = keyed@;
        keyed.push((k, p));
        assert(keyed@ == before.push((k, p)));
        assert(payloads(keyed@) =~= payloads(before).push(p));
        assert(placed@.take(i + 1) =~= placed@.take(i as int).push(p));
        i += 1;
    }
    assert(placed@.take(placed@.len() as int) =~= placed@);
    let sorted = sort_keyed(keyed, Ghost(key));
    let mut out: Vec<Placed> = Vec::new();
    let mut j: usize = 0;
    while j < sorted.len()
        invariant
            j <= sorted@.len(),
            out@ == payloads(sorted@).take(j as int),
        decreases sorted@.len() - j,
    {
        out.push(sorted[j].1);
        assert(out@ =~= payloads(sorted@).take(j + 1));
        j += 1;
    }
    assert(payloads(sorted@).take(sorted@.len() as int) =~= payloads(sorted@));
    out
}

/// One draft per impossible leg between consecutive placed events of
/// `person`, in window order. `travel` answers a route's cost.
pub fn detect<F: Fn(LocationId, LocationId) -> Option<TravelCost>>(
    person: PersonId,
    placed: &[Placed],
    travel: &F,
) -> (r: Vec<ViolationDraft>)
    requires
        is_lookup2(*travel),
    ensures
        drafts_view(r@) == travel_violations(person, placed@, |a: LocationId, b: LocationId| answer2(*travel, a, b)),
{
    proof {
        assert forall|a: LocationId, b: LocationId, c: Option<TravelCost>| travel.ensures((a, b), c) implies c
            == answer2(*travel, a, b) by {
            assert(travel.ensures((a, b), answer2(*travel, a, b)));
        }
    }
    detect_by(person, placed, travel, Ghost(|a: LocationId, b: LocationId| answer2(*travel, a, b)))
}

/// `detect` with the lookup's answers named by `tf`.
pub(crate) fn detect_by<F: Fn(LocationId, LocationId) -> Option<TravelCost>>(
    person: PersonId,
    placed: &[Placed],
    travel: &F,
    Ghost(tf): Ghost<spec_fn(LocationId, LocationId) -> Option<TravelCost>>,
) -> (r: Vec<ViolationDraft>)
    requires
        forall|a: LocationId, b: LocationId| #[trigger] travel.requires((a, b)),
        forall|a: LocationId, b: LocationId, c: Option<TravelCost>| travel.ensures((a, b), c) ==> c == tf(a, b),
    ensures
        drafts_view(r@) == travel_violations(person, placed@, tf),
{
    let sorted = sort_by_window(placed);
    let n = sorted.len();
    let mut out: Vec<ViolationDraft> = Vec::new();
    let mut k: usize = 1;
    while k < n
        invariant
            n == sorted@.len(),
            1 <= k,
            k <= n || k == 1,
            sorted@ == by_window(placed@),
            forall|a: LocationId, b: LocationId| #[trigger] travel.requires((a, b)),
            forall|a: LocationId, b: LocationId, c: Option<TravelCost>| travel.ensures((a, b), c) ==> c == tf(a, b),
            drafts_view(out@) == legs_upto(person, sorted@, tf, k as int),
        decreases n - k,
    {
        let a = sorted[k - 1];
        let b = sorted[k];
        let ghost before = out@;
        if !(b.window.start().0 < a.window.end().0) && a.location != b.location {
            let cost = travel(a.location, b.location);
            if let Some(c) = cost {
                let gap: i128 = b.window.start().0 as i128 - a.window.end().0 as i128;
                let need: i128 = c.duration_s as i128 * 1_000_000i128;
                if gap < need {
                    let severity = match c.provenance {
                        TravelProvenance::Measured => Severity::Hard,
                        TravelProvenance::Estimated => Severity::Warning,
                    };
                    let mut subjects: Vec<EntityRef> = Vec::new();
                    subjects.push(EntityRef::Person(person));
                    subjects.push(EntityRef::Event(a.event));
                    subjects.push(EntityRef::Event(b.event));
                    assert(subjects@ =~= seq![EntityRef::Person(person), EntityRef::Event(a.event), EntityRef::Event(b.event)]);
                    out.push(draft(ViolationKind::ImpossibleTravel, severity, subjects));
                    assert(drafts_view(out@) =~= drafts_view(before).push(leg_draft(person, a, b, Some(c)).unwrap()));
                }
            }
        }
        k += 1;
        assert(drafts_view(out@) =~= legs_upto(person, sorted@, tf, k as int));
    }
    if n == 0 {
        assert(legs_upto(person, sorted@, tf, k as int) =~= legs_upto(person, sorted@, tf, 0));
    } else {
        assert(k == n);
    }
    assert(drafts_view(out@) == legs_upto(person, sorted@, tf, n as int));
    out
}

/// A leg reported impossible: consecutive events `s[k]`, `s[k + 1]` whose
/// windows do not overlap (the first ends no later than the second
/// starts), at different locations, with a known route longer than the gap
/// between them; the draft names the person and both events, and is hard
/// on a measured route and a warning on an estimated one.
pub open spec fn impossible_leg(person: PersonId, s: Seq<Placed>, travel: spec_fn(LocationId, LocationId) -> Option<TravelCost>, k: int, d: DraftView) -> bool {
    &&& 0 <= k && k + 1 < s.len()
    &&& s[k].window.hi() <= s[k + 1].window.lo()
    &&& s[k].location != s[k + 1].location
    &&& travel(s[k].location, s[k + 1].location) matches Some(c) && s[k + 1].window.lo() - s[k].window.hi() < c.duration_s * 1_000_000
        && d.severity == (if c.provenance == TravelProvenance::Measured {
        Severity::Hard
    } else {
        Severity::Warning
    })
    &&& d.kind == ViolationKind::ImpossibleTravel
    &&& d.subjects == seq![EntityRef::Person(person), EntityRef::Event(s[k].event), EntityRef::Event(s[k + 1].event)]
}

/// `d` is the draft of an impossible leg between two of the first `n`
/// events of `s`.
pub open spec fn impossible_leg_upto(person: PersonId, s: Seq<Placed>, travel: spec_fn(LocationId, LocationId) -> Option<TravelCost>, n: int, d: DraftView) -> bool {
    exists|k: int| k + 1 < n && #[trigger] impossible_leg(person, s, travel, k, d)
}

/// The legs drafted among the first `n` events are exactly the impossible
/// ones, in order.
proof fn lemma_legs_are_impossible(person: PersonId, s: Seq<Placed>, travel: spec_fn(LocationId, LocationId) -> Option<TravelCost>, n: int)
    requires
        0 <= n <= s.len(),
    ensures
        forall|i: int|
            0 <= i < legs_upto(person, s, travel, n).len() ==> impossible_leg_upto(person, s, travel, n, #[trigger] legs_upto(person, s, travel, n)[i]),
        forall|k: int, d: DraftView| k + 1 < n && #[trigger] impossible_leg(person, s, travel, k, d) ==> exists|i: int|
            0 <= i < legs_upto(person, s, travel, n).len() && legs_upto(person, s, travel, n)[i].subjects == d.subjects,
    decreases n,
{
    if n > 1 {
        lemma_legs_are_impossible(person, s, travel, n - 1);
        let prev = legs_upto(person, s, travel, n - 1);
        let cur = legs_upto(person, s, travel, n);
        let a = s[n - 2];
        let b = s[n - 1];
        let ld = leg_draft(person, a, b, travel(a.location, b.location));
        assert forall|i: int| 0 <= i < cur.len() implies impossible_leg_upto(person, s, travel, n, #[trigger] cur[i]) by {
            if i < prev.len() {
                assert(cur[i] == prev[i]);
                assert(impossible_leg_upto(person, s, travel, n - 1, prev[i]));
                let k = choose|k: int| k + 1 < n - 1 && #[trigger] impossible_leg(person, s, travel, k, prev[i]);
                assert(impossible_leg(person, s, travel, k, cur[i]));
            } else {
                assert(cur[i] == ld.unwrap());
                assert(impossible_leg(person, s, travel, n - 2, cur[i]));
            }
        }
        assert forall|k: int, d: DraftView| k + 1 < n && #[trigger] impossible_leg(person, s, travel, k, d) implies exists|i: int|
            0 <= i < cur.len() && cur[i].subjects == d.subjects by {
            if k + 1 < n - 1 {
                let i = choose|i: int| 0 <= i < prev.len() && prev[i].subjects == d.subjects;
                assert(cur[i] == prev[i]);
            } else {
                assert(k == n - 2);
                assert(ld is Some);
                assert(cur[prev.len() as int] == ld.unwrap());
            }
        }
    } else {
        assert(legs_upto(person, s, travel, n).len() == 0);
    }
}

/// Impossible travel is reported exactly for the impossible legs: taking
/// the person's placed events in window order, every draft is for two
/// consecutive events whose windows do not overlap (overlaps are time
/// conflicts, never travel), at different locations, with a known route
/// longer than the gap; and every such leg has a draft.
pub proof fn lemma_travel_drafts_are_impossible_legs(person: PersonId, placed: Seq<Placed>, travel: spec_fn(LocationId, LocationId) -> Option<TravelCost>)
    ensures
        forall|i: int|
            0 <= i < travel_violations(person, placed, travel).len() ==> impossible_leg_upto(
                person,
                by_window(placed),
                travel,
                by_window(placed).len() as int,
                #[trigger] travel_violations(person, placed, travel)[i],
            ),
        forall|k: int, d: DraftView| #[trigger] impossible_leg(person, by_window(placed), travel, k, d) ==> exists|i: int|
            0 <= i < travel_violations(person, placed, travel).len() && travel_violations(person, placed, travel)[i].subjects == d.subjects,
{
    let s = by_window(placed);
    lemma_legs_are_impossible(person, s, travel, s.len() as int);
    let out = travel_violations(person, placed, travel);
    assert(out == legs_upto(person, s, travel, s.len() as int));
    assert forall|k: int, d: DraftView| #[trigger] impossible_leg(person, by_window(placed), travel, k, d) implies exists|i: int|
        0 <= i < travel_violations(person, placed, travel).len() && travel_violations(person, placed, travel)[i].subjects == d.subjects by {
        assert(impossible_leg(person, s, travel, k, d));
        assert(k + 1 < s.len());
        let i = choose|i: int| 0 <= i < legs_upto(person, s, travel, s.len() as int).len() && legs_upto(person, s, travel, s.len() as int)[i].subjects == d.subjects;
        assert(out[i] == legs_upto(person, s, travel, s.len() as int)[i]);
    }
}

} // verus!
