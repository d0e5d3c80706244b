//! The integer parts of the objective terms: which placements moved from a
//! reference, which time-ordered event pairs share interested attendees
//! and with what priorities, and what travel costs between candidate
//! rooms. Weighting and summing them is floating-point and stays with the
//! caller.

use vstd::prelude::*;

use crate::model::{effective_priority_spec, Attends, EventId, LocationId, PersonId, Priority, Violation};
use crate::order::stable_sort_by;
use crate::repo::find_where;
use crate::repo::memory::{travel_spec, MemoryRepo, RepoView};
use crate::sdk::assign::{order_requests, request_order};
use crate::sdk::{Placement, RoomOption, RoomRequest};

verus! {

/// Everything an objective term may look at. Violations come from the
/// engine, verbatim.
pub struct EvalCtx<'a> {
    pub placements: &'a [Placement],
    pub requests: &'a [RoomRequest],
    pub rooms: &'a [RoomOption],
    pub violations: &'a [Violation],
}

/// The reference places `p`'s event in another room.
pub open spec fn moved_from(reference: Seq<Placement>) -> spec_fn(Placement) -> bool {
    |p: Placement| exists|k: int| 0 <= k < reference.len() && #[trigger] reference[k].event == p.event && reference[k].location != p.location
}

/// How many placements sit in another room than the reference gives
/// their event (events absent from the reference count for nothing).
pub fn moved_count(placements: &[Placement], reference: &[Placement]) -> (r: usize)
    ensures
        r == placements@.filter(moved_from(reference@)).len(),
{
    let ghost pred = moved_from(reference@);
    let mut count: usize = 0;
    let mut i: usize = 0;
    while i < placements.len()
        invariant
            i <= placements@.len(),
            pred == moved_from(reference@),
            count == placements@.take(i as int).filter(pred).len(),
            count <= i,
        decreases placements@.len() - i,
    {
        let p = placements[i];
        let mut moved = false;
        let mut k: usize = 0;
        while k < reference.len()
            invariant
                k <= reference@.len(),
                moved == exists|j: int| 0 <= j < k && #[trigger] reference@[j].event == p.event && reference@[j].location != p.location,
            decreases reference@.len() - k,
        {
            if reference[k].event == p.event && reference[k].location != p.location {
                moved = true;
            }
            k += 1;
        }
        proof {
            assert(placements@.take(i + 1) =~= placements@.take(i as int).push(p));
            placements@.take(i as int).lemma_filter_push(p, pred);
            assert(moved == pred(p));
        }
        if moved {
            count += 1;
        }
        i += 1;
    }
    assert(placements@.take(placements@.len() as int) =~= placements@);
    count
}

/// The edges of one person.
pub open spec fn attends_of(person: PersonId) -> spec_fn(Attends) -> bool {
    |a: Attends| a.person == person
}

/// The edges to one event.
pub open spec fn attends_to(event: EventId) -> spec_fn(Attends) -> bool {
    |a: Attends| a.event == event
}

/// The smaller of two priorities.
pub open spec fn min_priority(a: Priority, b: Priority) -> Priority {
    if a.0 <= b.0 {
        a
    } else {
        b
    }
}

/// A priority above zero (`+0.0` has key `0x8000_0000`).
pub open spec fn above_zero(p: Priority) -> bool {
    p.0 > 0x8000_0000u32
}

/// Shared-interest terms over the first `n` edges of `aa`: for each whose
/// person also has an edge in `bb` (the first), the smaller of the two
/// effective priorities, where it is above zero.
pub open spec fn shared_terms(aa: Seq<Attends>, bb: Seq<Attends>, n: int) -> Seq<Priority>
    decreases n,
{
    if n <= 0 {
        seq![]
    } else {
        let rest = shared_terms(aa, bb, n - 1);
        match find_where(bb, attends_of(aa[n - 1].person)) {
            Some(y) => {
                let w = min_priority(effective_priority_spec(aa[n - 1]), effective_priority_spec(y));
                if above_zero(w) {
                    rest.push(w)
                } else {
                    rest
                }
            },
            None => rest,
        }
    }
}

/// The interest terms of travelling from request `a` to request `b`:
/// none when they overlap (nobody travels between them).
pub open spec fn pair_terms(v: RepoView, a: RoomRequest, b: RoomRequest) -> Seq<(EventId, EventId, Priority)> {
    if b.window.lo() < a.window.hi() {
        seq![]
    } else {
        let aa = v.attends.filter(attends_to(a.event));
        let bb = v.attends.filter(attends_to(b.event));
        shared_terms(aa, bb, aa.len() as int).map_values(|w: Priority| (a.event, b.event, w))
    }
}

/// Terms from request `ord[i]` to each later request before index `j`.
pub open spec fn terms_from(v: RepoView, ord: Seq<RoomRequest>, i: int, j: int) -> Seq<(EventId, EventId, Priority)>
    decreases j - i,
{
    if j <= i + 1 {
        seq![]
    } else {
        terms_from(v, ord, i, j - 1) + pair_terms(v, ord[i], ord[j - 1])
    }
}

/// Terms from each of the first `n` requests.
pub open spec fn terms_upto(v: RepoView, ord: Seq<RoomRequest>, n: int) -> Seq<(EventId, EventId, Priority)>
    decreases n,
{
    if n <= 0 {
        seq![]
    } else {
        terms_upto(v, ord, n - 1) + terms_from(v, ord, n - 1, ord.len() as int)
    }
}

/// Every shared-interest term between time-ordered requests.
pub open spec fn shared_interest_spec(v: RepoView, requests: Seq<RoomRequest>) -> Seq<(EventId, EventId, Priority)> {
    let ord = stable_sort_by(requests, request_order());
    terms_upto(v, ord, ord.len() as int)
}

/// The shared-interest terms of `aa` against `bb`.
fn shared_terms_of(aa: &Vec<Attends>, bb: &Vec<Attends>) -> (r: Vec<Priority>)
    ensures
        r@ == shared_terms(aa@, bb@, aa@.len() as int),
{
    let mut out: Vec<Priority> = Vec::new();
    let mut i: usize = 0;
    while i < aa.len()
        invariant
            i <= aa@.len(),
            out@ == shared_terms(aa@, bb@, i as int),
        decreases aa@.len() - i,
    {
        let x = aa[i];
        let mut k: usize = 0;
        while k < bb.len() && bb[k].person != x.person
            invariant
                k <= bb@.len(),
                forall|j: int| 0 <= j < k ==> !attends_of(x.person)(#[trigger] bb@[j]),
            decreases bb@.len() - k,
        {
            k += 1;
        }
        proof {
            crate::repo::lemma_first_where_is(bb@, attends_of(x.person), k as int);
        }
        if k < bb.len() {
            let px = x.effective_priority();
            let py = bb[k].effective_priority();
            let w = if px.0 <= py.0 {
                px
            } else {
                py
            };
            if w.0 > 0x8000_0000u32 {
                out.push(w);
            }
        }
        i += 1;
    }
    out
}

/// The shared-interest terms between time-ordered requests: for each
/// request and each later one that starts at or after its end, one term
/// per person attending both, the smaller of their two effective
/// priorities, where that is above zero.
pub fn shared_interest(repo: &MemoryRepo, requests: &[RoomRequest]) -> (r: Vec<(EventId, EventId, Priority)>)
    ensures
        r@ == shared_interest_spec(repo@, requests@),
{
    let ord = order_requests(requests);
    let ghost v = repo@;
    let mut out: Vec<(EventId, EventId, Priority)> = Vec::new();
    let mut i: usize = 0;
    while i < ord.len()
        invariant
            i <= ord@.len(),
            v == repo@,
            out@ == terms_upto(v, ord@, i as int),
        decreases ord@.len() - i,
    {
        let a = ord[i];
        let ghost base = out@;
        let mut j: usize = i + 1;
        while j < ord.len()
            invariant
                i < ord@.len(),
                i + 1 <= j <= ord@.len(),
                a == ord@[i as int],
                v == repo@,
                out@ == base + terms_from(v, ord@, i as int, j as int),
            decreases ord@.len() - j,
        {
            let b = ord[j];
            let ghost before = out@;
            if !(b.window.start().0 < a.window.end().0) {
                let aa = repo.attends_for_event(a.event);
                let bb = repo.attends_for_event(b.event);
                proof {
                    assert(aa@ == v.attends.filter(attends_to(a.event))) by {
                        assert((|x: Attends| x.event == a.event) =~= attends_to(a.event));
                    }
                    assert(bb@ == v.attends.filter(attends_to(b.event))) by {
                        assert((|x: Attends| x.event == b.event) =~= attends_to(b.event));
                    }
                }
                let ws = shared_terms_of(&aa, &bb);
                let mut k: usize = 0;
                while k < ws.len()
                    invariant
                        k <= ws@.len(),
                        out@ == before + ws@.take(k as int).map_values(|w: Priority| (a.event, b.event, w)),
                    decreases ws@.len() - k,
                {
                    out.push((a.event, b.event, ws[k]));
                    assert(ws@.take(k + 1).map_values(|w: Priority| (a.event, b.event, w)) =~= ws@.take(k as int).map_values(
                        |w: Priority| (a.event, b.event, w),
                    ).push((a.event, b.event, ws@[k as int])));
                    k += 1;
                }
                assert(ws@.take(ws@.len() as int) =~= ws@);
                assert(out@ =~= base + terms_from(v, ord@, i as int, j + 1));
            } else {
                assert(out@ =~= base + terms_from(v, ord@, i as int, j + 1));
            }
            j += 1;
        }
        assert(out@ =~= terms_upto(v, ord@, i + 1));
        i += 1;
    }
    out
}

/// Known travel from room `x` to each of the first `k` rooms other than
/// itself: the best-mode cost in seconds.
pub open spec fn travel_row(v: RepoView, rooms: Seq<RoomOption>, x: RoomOption, k: int) -> Seq<(LocationId, LocationId, i64)>
    decreases k,
{
    if k <= 0 {
        seq![]
    } else {
        let rest = travel_row(v, rooms, x, k - 1);
        let y = rooms[k - 1];
        if x.location != y.location {
            match travel_spec(v, x.location, y.location, None) {
                Some(c) => rest.push((x.location, y.location, c.duration_s)),
                None => rest,
            }
        } else {
            rest
        }
    }
}

/// Known travel between the first `n` rooms and every other room.
pub open spec fn travel_rows(v: RepoView, rooms: Seq<RoomOption>, n: int) -> Seq<(LocationId, LocationId, i64)>
    decreases n,
{
    if n <= 0 {
        seq![]
    } else {
        travel_rows(v, rooms, n - 1) + travel_row(v, rooms, rooms[n - 1], rooms.len() as int)
    }
}

/// The best-mode travel cost between every ordered pair of distinct
/// candidate rooms with a known route.
pub fn travel_pairs(repo: &MemoryRepo, rooms: &[RoomOption]) -> (r: Vec<(LocationId, LocationId, i64)>)
    ensures
        r@ == travel_rows(repo@, rooms@, rooms@.len() as int),
{
    let mut out: Vec<(LocationId, LocationId, i64)> = Vec::new();
    let mut i: usize = 0;
    while i < rooms.len()
        invariant
            i <= rooms@.len(),
            out@ == travel_rows(repo@, rooms@, i as int),
        decreases rooms@.len() - i,
    {
        let x = rooms[i];
        let ghost base = out@;
        let mut k: usize = 0;
        while k < rooms.len()
            invariant
                i < rooms@.len(),
                k <= rooms@.len(),
                x == rooms@[i as int],
                out@ == base + travel_row(repo@, rooms@, x, k as int),
            decreases rooms@.len() - k,
        {
            let y = rooms[k];
            if x.location != y.location {
                if let Some(c) = repo.travel_best(x.location, y.location) {
                    out.push((x.location, y.location, c.duration_s));
                }
            }
            k += 1;
        }
        i += 1;
    }
    out
}

} // verus!
