//! Room schedule suggestion: greedy seed, then evaluation of the proposal
//! through the engine (the objective breakdown is composed over it by the
//! caller).

use vstd::prelude::*;

use crate::engine::{as_record, proposal_drafts, Assignment, Engine};
use crate::interval::{Interval, Timestamp};
use crate::model::{Attends, EventId, Held, Posture};
use crate::sdk::assign::{self, greedy_spec, placement_of};
use crate::sdk::{Placement, RoomOption, RoomRequest, SdkError, Suggestion};

verus! {

/// The first request for `event`.
pub open spec fn request_for(requests: Seq<RoomRequest>, event: EventId) -> Option<RoomRequest>
    decreases requests.len(),
{
    if requests.len() == 0 {
        None
    } else if requests[0].event == event {
        Some(requests[0])
    } else {
        request_for(requests.drop_first(), event)
    }
}

/// The hold a placement proposes: on site, over its request's window.
pub open spec fn proposed_hold_of(requests: Seq<RoomRequest>, p: Placement) -> Held {
    Held {
        location: p.location,
        event: p.event,
        during: request_for(requests, p.event).unwrap().window,
        posture: Posture::OnSite,
        overflow_for: None,
        capacity_override: None,
    }
}

/// The holds a set of placements proposes.
pub open spec fn proposed_holds(requests: Seq<RoomRequest>, rooms: Seq<RoomOption>) -> Seq<Held> {
    greedy_spec(requests, rooms).placed.map_values(|p: (crate::sdk::RoomRequest, usize)| placement_of(rooms, p)).map_values(
        |p: Placement| proposed_hold_of(requests, p),
    )
}

/// The request behind an event, found.
fn find_request(requests: &[RoomRequest], event: EventId) -> (r: Option<RoomRequest>)
    ensures
        r == request_for(requests@, event),
{
    let mut i: usize = 0;
    assert(requests@.skip(0) =~= requests@);
    while i < requests.len()
        invariant
            i <= requests@.len(),
            request_for(requests@, event) == request_for(requests@.skip(i as int), event),
        decreases requests@.len() - i,
    {
        assert(requests@.skip(i as int)[0] == requests@[i as int]);
        if requests[i].event == event {
            return Some(requests[i]);
        }
        assert(requests@.skip(i as int).drop_first() =~= requests@.skip(i + 1));
        i += 1;
    }
    None
}

/// Placed requests name events that have a request.
proof fn lemma_placed_have_requests(requests: Seq<RoomRequest>, rooms: Seq<RoomOption>, k: int)
    requires
        0 <= k < greedy_spec(requests, rooms).placed.len(),
    ensures
        request_for(requests, greedy_spec(requests, rooms).placed[k].0.event) is Some,
{
    let order = crate::order::stable_sort_by(requests, |r: RoomRequest| assign::request_key(r));
    crate::order::lemma_stable_sort(requests, |r: RoomRequest| assign::request_key(r));
    lemma_placed_from_order(rooms, order, order.len() as int, k);
    let q = greedy_spec(requests, rooms).placed[k].0;
    vstd::seq_lib::to_multiset_contains(order, q);
    vstd::seq_lib::to_multiset_contains(requests, q);
    lemma_request_for_some(requests, q);
}

proof fn lemma_placed_from_order(rooms: Seq<RoomOption>, order: Seq<RoomRequest>, n: int, k: int)
    requires
        0 <= n <= order.len(),
        0 <= k < assign::greedy_upto(rooms, order, n).placed.len(),
    ensures
        order.contains(assign::greedy_upto(rooms, order, n).placed[k].0),
    decreases n,
{
    let s = assign::greedy_upto(rooms, order, n - 1);
    if k < s.placed.len() {
        lemma_placed_from_order(rooms, order, n - 1, k);
    } else {
        assert(order[n - 1] == assign::greedy_upto(rooms, order, n).placed[k].0);
    }
}

proof fn lemma_request_for_some(requests: Seq<RoomRequest>, q: RoomRequest)
    requires
        requests.contains(q),
    ensures
        request_for(requests, q.event) is Some,
    decreases requests.len(),
{
    if requests[0].event != q.event {
        let j = choose|j: int| 0 <= j < requests.len() && requests[j] == q;
        assert(requests.drop_first()[j - 1] == q);
        lemma_request_for_some(requests.drop_first(), q);
    }
}

/// Greedy seed, then the engine's evaluation of the proposed holds: the
/// violations come from the engine, verbatim.
pub fn suggest_room_schedule(engine: &Engine, requests: &[RoomRequest], rooms: &[RoomOption], at: Timestamp, window: Interval) -> (r: Result<Suggestion, SdkError>)
    ensures
        r matches Ok(s) && {
            let g = greedy_spec(requests@, rooms@);
            let drafts = proposal_drafts(engine@, Seq::<Attends>::empty(), proposed_holds(requests@, rooms@), window);
            &&& s.placements@ == g.placed.map_values(|p: (RoomRequest, usize)| placement_of(rooms@, p))
            &&& s.unassigned@ == g.unassigned
            &&& s.violations@.len() == drafts.len()
            &&& forall|k: int| 0 <= k < s.violations@.len() ==> (#[trigger] s.violations@[k])@ == as_record(drafts[k], s.violations@[k].id, at)
        },
{
    let (placements, unassigned) = assign::greedy(requests, rooms);
    let ghost hf = |p: Placement| proposed_hold_of(requests@, p);
    let mut held: Vec<Held> = Vec::new();
    let mut i: usize = 0;
    while i < placements.len()
        invariant
            i <= placements@.len(),
            placements@ == greedy_spec(requests@, rooms@).placed.map_values(|p: (RoomRequest, usize)| placement_of(rooms@, p)),
            hf == (|p: Placement| proposed_hold_of(requests@, p)),
            held@ == placements@.take(i as int).map_values(hf),
        decreases placements@.len() - i,
    {
        let p = placements[i];
        proof {
            lemma_placed_have_requests(requests@, rooms@, i as int);
        }
        let req = find_request(requests, p.event);
        let q = match req {
            Some(q) => q,
            None => {
                return Err(SdkError::InvalidRequest { reason: String::new() });
            },
        };
        held.push(
            Held {
                location: p.location,
                event: p.event,
                during: q.window,
                posture: Posture::OnSite,
                overflow_for: None,
                capacity_override: None,
            },
        );
        assert(held@ =~= placements@.take(i + 1).map_values(hf));
        i += 1;
    }
    assert(placements@.take(placements@.len() as int) =~= placements@);
    let overlay = Assignment { attends: Vec::new(), held, at, window };
    let violations = engine.is_feasible(&overlay);
    Ok(Suggestion { placements, unassigned, violations })
}

} // verus!
