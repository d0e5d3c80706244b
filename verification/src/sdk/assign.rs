//! Greedy room assignment.
//!
//! Fixed start times make this interval graph colouring: greedy by left
//! endpoint. Room choice among the free rooms is a quality knob, not a
//! correctness one: any free room keeps every room free of overlaps, so
//! the best capacity fit is taken (smallest adequate room, ties to the
//! smaller location identifier; deterministic).

use vstd::prelude::*;

use crate::model::EventId;
use crate::order::{keyed_by, payloads, sorted_payloads, stable_sort_by, ts_key, ts_key_spec};
use crate::sdk::{Placement, RoomOption, RoomRequest};

verus! {

/// Requests are taken by window start, then end, then event.
pub open spec fn request_key(r: RoomRequest) -> Seq<u128> {
    seq![ts_key_spec(r.window.lo() as i64), ts_key_spec(r.window.hi() as i64), r.event.0]
}

/// Fit of a room for a request: adequate rooms by capacity first, then
/// rooms of unknown adequacy (capacity-less ones last among them), then
/// rooms too small; ties to the smaller location identifier.
pub open spec fn fit_key(room: RoomOption, need: Option<u32>) -> Seq<u128> {
    match (room.capacity, need) {
        (Some(cap), Some(n)) => if cap >= n {
            seq![0u128, cap as u128, room.location.0]
        } else {
            seq![2u128, cap as u128, room.location.0]
        },
        (Some(cap), None) => seq![1u128, cap as u128, room.location.0],
        (None, _) => seq![1u128, u32::MAX as u128, room.location.0],
    }
}

/// Rooms free for a request starting at `start`, by index.
pub open spec fn free_rooms(frontier: Seq<int>, start: int) -> Seq<usize> {
    Seq::new(frontier.len(), |i: int| i as usize).filter(|i: usize| frontier[i as int] <= start)
}

/// The room a request gets: the best fit among the free rooms.
pub open spec fn chosen_room(rooms: Seq<RoomOption>, frontier: Seq<int>, r: RoomRequest) -> Option<usize> {
    let free = stable_sort_by(free_rooms(frontier, r.window.lo()), |i: usize| fit_key(rooms[i as int], r.expected_size));
    if free.len() == 0 {
        None
    } else {
        Some(free[0])
    }
}

/// The state of the greedy pass: each room's occupied-until frontier, the
/// placed requests with their room index, and the unplaced events.
pub struct GreedyState {
    pub frontier: Seq<int>,
    pub placed: Seq<(RoomRequest, usize)>,
    pub unassigned: Seq<EventId>,
}

/// The greedy pass over the first `n` requests of `order`.
pub open spec fn greedy_upto(rooms: Seq<RoomOption>, order: Seq<RoomRequest>, n: int) -> GreedyState
    decreases n,
{
    if n <= 0 {
        GreedyState { frontier: Seq::new(rooms.len(), |i: int| i64::MIN as int), placed: seq![], unassigned: seq![] }
    } else {
        let s = greedy_upto(rooms, order, n - 1);
        let r = order[n - 1];
        match chosen_room(rooms, s.frontier, r) {
            Some(i) => GreedyState {
                frontier: s.frontier.update(i as int, r.window.hi()),
                placed: s.placed.push((r, i)),
                unassigned: s.unassigned,
            },
            None => GreedyState { unassigned: s.unassigned.push(r.event), ..s },
        }
    }
}

/// The greedy pass over all requests, in request order.
pub open spec fn greedy_spec(requests: Seq<RoomRequest>, rooms: Seq<RoomOption>) -> GreedyState {
    let order = stable_sort_by(requests, |r: RoomRequest| request_key(r));
    greedy_upto(rooms, order, order.len() as int)
}

/// The placement a placed request makes.
pub open spec fn placement_of(rooms: Seq<RoomOption>, p: (RoomRequest, usize)) -> Placement {
    Placement { event: p.0.event, location: rooms[p.1 as int].location }
}

/// The request order as a function.
pub open spec fn request_order() -> spec_fn(RoomRequest) -> Seq<u128> {
    |r: RoomRequest| request_key(r)
}

/// The requests in the order greedy takes them.
pub fn order_requests(requests: &[RoomRequest]) -> (r: Vec<RoomRequest>)
    ensures
        r@ == stable_sort_by(requests@, request_order()),
{
    let ghost key = request_order();
    let mut keyed: Vec<(Vec<u128>, RoomRequest)> = Vec::new();
    let mut i: usize = 0;
    while i < requests.len()
        invariant
            i <= requests@.len(),
            key == request_order(),
            keyed_by(keyed@, key),
            payloads(keyed@) == requests@.take(i as int),
        decreases requests@.len() - i,
    {
        let q = requests[i];
        let mut k: Vec<u128> = Vec::new();
        k.push(ts_key(q.window.start().0));
        k.push(ts_key(q.window.end().0));
        k.push(q.event.0);
        assert(k@ =~= request_key(q));
        let ghost before = keyed@;
        keyed.push((k, q));
        assert(payloads(keyed@) =~= payloads(before).push(q));
        assert(requests@.take(i + 1) =~= requests@.take(i as int).push(q));
        i += 1;
    }
    assert(requests@.take(requests@.len() as int) =~= requests@);
    sorted_payloads(keyed, Ghost(key))
}

/// Assign rooms to fixed-start events. Returns the placements plus the
/// events that could not be placed (never silently dropped).
pub fn greedy(requests: &[RoomRequest], rooms: &[RoomOption]) -> (r: (Vec<Placement>, Vec<EventId>))
    ensures
        r.0@ == greedy_spec(requests@, rooms@).placed.map_values(|p: (RoomRequest, usize)| placement_of(rooms@, p)),
        r.1@ == greedy_spec(requests@, rooms@).unassigned,
{
    let order = order_requests(requests);
    proof {
        assert((|r: RoomRequest| request_key(r)) =~= request_order());
    }
    let mut frontier: Vec<i64> = Vec::new();
    let mut j: usize = 0;
    while j < rooms.len()
        invariant
            j <= rooms@.len(),
            frontier@.len() == j,
            forall|k: int| 0 <= k < j ==> frontier@[k] == i64::MIN,
        decreases rooms@.len() - j,
    {
        frontier.push(i64::MIN);
        j += 1;
    }
    let ghost pf = |p: (RoomRequest, usize)| placement_of(rooms@, p);
    let mut placements: Vec<Placement> = Vec::new();
    let mut unassigned: Vec<EventId> = Vec::new();
    let ghost mut placed: Seq<(RoomRequest, usize)> = seq![];
    let mut n: usize = 0;
    assert(frontier@.map_values(|x: i64| x as int) =~= greedy_upto(rooms@, order@, 0).frontier);
    while n < order.len()
        invariant
            n <= order@.len(),
            frontier@.len() == rooms@.len(),
            pf == (|p: (RoomRequest, usize)| placement_of(rooms@, p)),
            frontier@.map_values(|x: i64| x as int) == greedy_upto(rooms@, order@, n as int).frontier,
            placed == greedy_upto(rooms@, order@, n as int).placed,
            unassigned@ == greedy_upto(rooms@, order@, n as int).unassigned,
            placements@ == placed.map_values(pf),
        decreases order@.len() - n,
    {
        let q = order[n];
        let start = q.window.start();
        let ghost fr = frontier@.map_values(|x: i64| x as int);
        let ghost fpred = |i: usize| fr[i as int] <= q.window.lo();
        let ghost fkey = |i: usize| fit_key(rooms@[i as int], q.expected_size);
        let mut fkeyed: Vec<(Vec<u128>, usize)> = Vec::new();
        let mut i: usize = 0;
        let ghost idx = Seq::new(fr.len(), |i: int| i as usize);
        while i < frontier.len()
            invariant
                i <= frontier@.len(),
                frontier@.len() == rooms@.len(),
                fr == frontier@.map_values(|x: i64| x as int),
                idx == Seq::new(fr.len(), |i: int| i as usize),
                start.0 == q.window.lo(),
                fpred == (|i: usize| fr[i as int] <= q.window.lo()),
                fkey == (|i: usize| fit_key(rooms@[i as int], q.expected_size)),
                keyed_by(fkeyed@, fkey),
                payloads(fkeyed@) == idx.take(i as int).filter(fpred),
            decreases frontier@.len() - i,
        {
            proof {
                assert(idx.take(i + 1) =~= idx.take(i as int).push(i));
                idx.take(i as int).lemma_filter_push(i, fpred);
            }
            if frontier[i] <= start.0 {
                let room = rooms[i];
                let mut k: Vec<u128> = Vec::new();
                match (room.capacity, q.expected_size) {
                    (Some(cap), Some(need)) => {
                        if cap >= need {
                            k.push(0u128);
                        } else {
                            k.push(2u128);
                        }
                        k.push(cap as u128);
                    },
                    (Some(cap), None) => {
                        k.push(1u128);
                        k.push(cap as u128);
                    },
                    (None, _) => {
                        k.push(1u128);
                        k.push(u32::MAX as u128);
                    },
                }
                k.push(room.location.0);
                assert(k@ =~= fit_key(rooms@[i as int], q.expected_size));
                let ghost before = fkeyed@;
                fkeyed.push((k, i));
                assert(payloads(fkeyed@) =~= payloads(before).push(i));
            }
            i += 1;
        }
        assert(idx.take(frontier@.len() as int) =~= idx);
        let free = sorted_payloads(fkeyed, Ghost(fkey));
        assert(free@ == stable_sort_by(free_rooms(fr, q.window.lo()), fkey));
        if free.len() > 0 {
            let r = free[0];
            proof {
                crate::order::lemma_stable_sort(free_rooms(fr, q.window.lo()), fkey);
                vstd::seq_lib::to_multiset_contains(free@, r);
                vstd::seq_lib::to_multiset_contains(free_rooms(fr, q.window.lo()), r);
                assert(free@[0] == r);
                assert(free@.contains(r));
                idx.lemma_filter_contains_rev(fpred, r);
                let t = choose|t: int| 0 <= t < idx.len() && idx[t] == r;
            }
            let ghost before = placements@;
            placements.push(Placement { event: q.event, location: rooms[r].location });
            frontier.set(r, q.window.end().0);
            proof {
                placed = placed.push((q, r));
                assert(placements@ =~= before.push(pf((q, r))));
                assert(placed.map_values(pf) =~= before.push(pf((q, r))));
                assert(frontier@.map_values(|x: i64| x as int) =~= fr.update(r as int, q.window.hi()));
            }
        } else {
            unassigned.push(q.event);
        }
        n += 1;
    }
    (placements, unassigned)
}

/// Every interval of `requests` is well formed.
pub open spec fn windows_ordered(requests: Seq<RoomRequest>) -> bool {
    forall|k: int| 0 <= k < requests.len() ==> (#[trigger] requests[k]).window.lo() <= requests[k].window.hi()
}

/// Facts the greedy pass keeps: each placed request ended no later than
/// its room's frontier, each room index is a room, and within one room
/// every placed request ends no later than the next one placed there
/// starts.
pub open spec fn greedy_inv(rooms: Seq<RoomOption>, s: GreedyState) -> bool {
    &&& s.frontier.len() == rooms.len()
    &&& forall|a: int| 0 <= a < s.placed.len() ==> (#[trigger] s.placed[a]).1 < rooms.len()
    &&& forall|a: int| 0 <= a < s.placed.len() ==> (#[trigger] s.placed[a]).0.window.hi() <= s.frontier[s.placed[a].1 as int]
    &&& forall|a: int, b: int| 0 <= a < b < s.placed.len() && #[trigger] s.placed[a].1 == #[trigger] s.placed[b].1
        ==> s.placed[a].0.window.hi() <= s.placed[b].0.window.lo()
}

proof fn lemma_greedy_inv(rooms: Seq<RoomOption>, order: Seq<RoomRequest>, n: int)
    requires
        0 <= n <= order.len(),
        windows_ordered(order),
    ensures
        greedy_inv(rooms, greedy_upto(rooms, order, n)),
        greedy_upto(rooms, order, n).placed.len() + greedy_upto(rooms, order, n).unassigned.len() == n,
    decreases n,
{
    if n > 0 {
        lemma_greedy_inv(rooms, order, n - 1);
        let s = greedy_upto(rooms, order, n - 1);
        let r = order[n - 1];
        assert(r.window.lo() <= r.window.hi());
        match chosen_room(rooms, s.frontier, r) {
            Some(i) => {
                lemma_chosen_room_free(rooms, s.frontier, r);
                let s2 = greedy_upto(rooms, order, n);
                assert forall|a: int, b: int| 0 <= a < b < s2.placed.len() && #[trigger] s2.placed[a].1 == #[trigger] s2.placed[b].1
                    implies s2.placed[a].0.window.hi() <= s2.placed[b].0.window.lo() by {
                    if b == s2.placed.len() - 1 {
                        assert(s2.placed[a] == s.placed[a]);
                        assert(s.placed[a].0.window.hi() <= s.frontier[s.placed[a].1 as int]);
                    } else {
                        assert(s2.placed[a] == s.placed[a] && s2.placed[b] == s.placed[b]);
                    }
                }
                assert forall|a: int| 0 <= a < s2.placed.len() implies (#[trigger] s2.placed[a]).0.window.hi()
                    <= s2.frontier[s2.placed[a].1 as int] by {
                    if a < s2.placed.len() - 1 {
                        assert(s2.placed[a] == s.placed[a]);
                        if s.placed[a].1 == i {
                            assert(s.placed[a].0.window.hi() <= s.frontier[i as int]);
                        }
                    }
                }
                assert forall|a: int| 0 <= a < s2.placed.len() implies (#[trigger] s2.placed[a]).1 < rooms.len() by {
                    if a < s2.placed.len() - 1 {
                        assert(s2.placed[a] == s.placed[a]);
                    }
                }
            },
            None => {},
        }
    }
}

/// Greedy never double-books a room: two requests placed in the same room
/// have windows that do not overlap (the earlier one ends no later than
/// the later one starts).
pub proof fn lemma_greedy_no_double_booking(requests: Seq<RoomRequest>, rooms: Seq<RoomOption>)
    requires
        windows_ordered(requests),
    ensures
        forall|a: int, b: int|
            0 <= a < b < greedy_spec(requests, rooms).placed.len() && #[trigger] greedy_spec(requests, rooms).placed[a].1
                == #[trigger] greedy_spec(requests, rooms).placed[b].1 ==> !greedy_spec(requests, rooms).placed[a].0.window.overlaps_with(
                greedy_spec(requests, rooms).placed[b].0.window,
            ),
{
    let order = stable_sort_by(requests, |r: RoomRequest| request_key(r));
    crate::order::lemma_stable_sort(requests, |r: RoomRequest| request_key(r));
    assert(windows_ordered(order)) by {
        assert forall|k: int| 0 <= k < order.len() implies (#[trigger] order[k]).window.lo() <= order[k].window.hi() by {
            assert(order.contains(order[k]));
            vstd::seq_lib::to_multiset_contains(order, order[k]);
            vstd::seq_lib::to_multiset_contains(requests, order[k]);
            let j = choose|j: int| 0 <= j < requests.len() && requests[j] == order[k];
        }
    }
    lemma_greedy_inv(rooms, order, order.len() as int);
}

/// Every request is accounted for: the placements and the unplaced events
/// together are as many as the requests.
pub proof fn lemma_greedy_accounts_for_every_request(requests: Seq<RoomRequest>, rooms: Seq<RoomOption>)
    requires
        windows_ordered(requests),
    ensures
        greedy_spec(requests, rooms).placed.len() + greedy_spec(requests, rooms).unassigned.len() == requests.len(),
{
    let order = stable_sort_by(requests, |r: RoomRequest| request_key(r));
    crate::order::lemma_stable_sort(requests, |r: RoomRequest| request_key(r));
    assert(windows_ordered(order)) by {
        assert forall|k: int| 0 <= k < order.len() implies (#[trigger] order[k]).window.lo() <= order[k].window.hi() by {
            assert(order.contains(order[k]));
            vstd::seq_lib::to_multiset_contains(order, order[k]);
            vstd::seq_lib::to_multiset_contains(requests, order[k]);
            let j = choose|j: int| 0 <= j < requests.len() && requests[j] == order[k];
        }
    }
    lemma_greedy_inv(rooms, order, order.len() as int);
}

/// Every room is either unused or occupied until the end of a request
/// placed in it, and every placed request is one of the first `n`.
pub open spec fn frontier_explained(rooms: Seq<RoomOption>, order: Seq<RoomRequest>, n: int, s: GreedyState) -> bool {
    &&& forall|r: int|
        0 <= r < rooms.len() ==> #[trigger] s.frontier[r] == i64::MIN as int || exists|a: int|
            0 <= a < s.placed.len() && s.placed[a].1 == r && #[trigger] s.placed[a].0.window.hi() == s.frontier[r]
    &&& forall|a: int| 0 <= a < s.placed.len() ==> exists|j: int| 0 <= j < n && #[trigger] order[j] == (#[trigger] s.placed[a]).0
}

/// The room greedy picks is a free room.
proof fn lemma_chosen_room_free(rooms: Seq<RoomOption>, frontier: Seq<int>, q: RoomRequest)
    requires
        frontier.len() == rooms.len(),
        chosen_room(rooms, frontier, q) is Some,
    ensures
        chosen_room(rooms, frontier, q).unwrap() < rooms.len(),
        frontier[chosen_room(rooms, frontier, q).unwrap() as int] <= q.window.lo(),
{
    let i = chosen_room(rooms, frontier, q).unwrap();
    let fkey = |i: usize| fit_key(rooms[i as int], q.expected_size);
    let fr = free_rooms(frontier, q.window.lo());
    let free = stable_sort_by(fr, fkey);
    crate::order::lemma_stable_sort(fr, fkey);
    assert(free[0] == i);
    assert(free.contains(i));
    vstd::seq_lib::to_multiset_contains(free, i);
    vstd::seq_lib::to_multiset_contains(fr, i);
    let idx = Seq::new(frontier.len(), |k: int| k as usize);
    idx.lemma_filter_contains_rev(|k: usize| frontier[k as int] <= q.window.lo(), i);
    let t = choose|t: int| 0 <= t < idx.len() && idx[t] == i;
    let t2 = choose|t2: int| 0 <= t2 < fr.len() && fr[t2] == i;
    idx.lemma_filter_pred(|k: usize| frontier[k as int] <= q.window.lo(), t2);
}

proof fn lemma_frontier_explained(rooms: Seq<RoomOption>, order: Seq<RoomRequest>, n: int)
    requires
        0 <= n <= order.len(),
        windows_ordered(order),
    ensures
        frontier_explained(rooms, order, n, greedy_upto(rooms, order, n)),
    decreases n,
{
    if n > 0 {
        lemma_frontier_explained(rooms, order, n - 1);
        lemma_greedy_inv(rooms, order, n - 1);
        let s = greedy_upto(rooms, order, n - 1);
        let s2 = greedy_upto(rooms, order, n);
        let q = order[n - 1];
        match chosen_room(rooms, s.frontier, q) {
            Some(i) => {
                lemma_chosen_room_free(rooms, s.frontier, q);
                assert forall|r: int| 0 <= r < rooms.len() implies #[trigger] s2.frontier[r] == i64::MIN as int || exists|a: int|
                    0 <= a < s2.placed.len() && s2.placed[a].1 == r && #[trigger] s2.placed[a].0.window.hi() == s2.frontier[r] by {
                    if r == i {
                        let a = s2.placed.len() - 1;
                        assert(s2.placed[a].1 == r && s2.placed[a].0.window.hi() == s2.frontier[r]);
                    } else if s.frontier[r] != i64::MIN as int {
                        let a = choose|a: int| 0 <= a < s.placed.len() && s.placed[a].1 == r && #[trigger] s.placed[a].0.window.hi() == s.frontier[r];
                        assert(s2.placed[a] == s.placed[a]);
                    }
                }
                assert forall|a: int| 0 <= a < s2.placed.len() implies exists|j: int| 0 <= j < n && #[trigger] order[j] == (
                #[trigger] s2.placed[a]).0 by {
                    if a < s.placed.len() {
                        assert(s2.placed[a] == s.placed[a]);
                        let j = choose|j: int| 0 <= j < n - 1 && #[trigger] order[j] == (#[trigger] s.placed[a]).0;
                        assert(order[j] == s2.placed[a].0);
                    } else {
                        assert(order[n - 1] == s2.placed[a].0);
                    }
                }
            },
            None => {
                assert forall|a: int| 0 <= a < s2.placed.len() implies exists|j: int| 0 <= j < n && #[trigger] order[j] == (
                #[trigger] s2.placed[a]).0 by {
                    let j = choose|j: int| 0 <= j < n - 1 && #[trigger] order[j] == (#[trigger] s.placed[a]).0;
                }
            },
        }
    }
}

/// The request order puts earlier starts first.
proof fn lemma_order_starts(order: Seq<RoomRequest>, j: int, k: int)
    requires
        crate::order::sorted_by(order, request_order()),
        0 <= j < k < order.len(),
    ensures
        order[j].window.lo() <= order[k].window.lo(),
{
    let a = request_key(order[j]);
    let b = request_key(order[k]);
    assert(crate::order::key_le(a, b));
    crate::interval::lemma_ends_fit(order[j].window);
    crate::interval::lemma_ends_fit(order[k].window);
    if order[j].window.lo() > order[k].window.lo() {
        assert(a[0] > b[0]);
        assert(crate::order::key_lt(b, a));
    }
}

/// Room `r` holds a placed request running at instant `t`.
pub open spec fn room_busy_at(placed: Seq<(RoomRequest, usize)>, r: int, t: int) -> bool {
    exists|a: int| 0 <= a < placed.len() && #[trigger] placed[a].1 == r && placed[a].0.window.lo() <= t < placed[a].0.window.hi()
}

/// Greedy leaves a request unplaced only when no room is free at its
/// start: every room holds a request placed before it that started no
/// later and is still running then.
pub proof fn lemma_greedy_unplaced_only_when_full(requests: Seq<RoomRequest>, rooms: Seq<RoomOption>, k: int)
    requires
        windows_ordered(requests),
        0 <= k < requests.len(),
        rooms.len() <= usize::MAX,
        chosen_room(
            rooms,
            greedy_upto(rooms, stable_sort_by(requests, request_order()), k).frontier,
            stable_sort_by(requests, request_order())[k],
        ) is None,
    ensures
        forall|r: int|
            0 <= r < rooms.len() ==> #[trigger] room_busy_at(
                greedy_spec(requests, rooms).placed,
                r,
                stable_sort_by(requests, request_order())[k].window.lo(),
            ),
{
    let key = request_order();
    assert((|r: RoomRequest| request_key(r)) =~= key);
    let order = stable_sort_by(requests, key);
    crate::order::lemma_stable_sort(requests, key);
    assert(windows_ordered(order)) by {
        assert forall|t: int| 0 <= t < order.len() implies (#[trigger] order[t]).window.lo() <= order[t].window.hi() by {
            assert(order.contains(order[t]));
            vstd::seq_lib::to_multiset_contains(order, order[t]);
            vstd::seq_lib::to_multiset_contains(requests, order[t]);
            let j = choose|j: int| 0 <= j < requests.len() && requests[j] == order[t];
        }
    }
    let q = order[k];
    let s = greedy_upto(rooms, order, k);
    lemma_frontier_explained(rooms, order, k);
    lemma_greedy_inv(rooms, order, k);
    lemma_greedy_prefix(rooms, order, k, order.len() as int);
    let fin = greedy_spec(requests, rooms);
    crate::interval::lemma_ends_fit(q.window);
    assert forall|r: int| 0 <= r < rooms.len() implies #[trigger] room_busy_at(fin.placed, r, q.window.lo()) by {
        let idx = Seq::new(s.frontier.len(), |i: int| i as usize);
        let fpred = |i: usize| s.frontier[i as int] <= q.window.lo();
        if s.frontier[r] <= q.window.lo() {
            idx.lemma_filter_contains(fpred, r);
            let fr = free_rooms(s.frontier, q.window.lo());
            let fkey = |i: usize| fit_key(rooms[i as int], q.expected_size);
            crate::order::lemma_stable_sort(fr, fkey);
            assert(fr.len() > 0);
        }
        assert(s.frontier[r] != i64::MIN as int);
        let a = choose|a: int| 0 <= a < s.placed.len() && s.placed[a].1 == r && #[trigger] s.placed[a].0.window.hi() == s.frontier[r];
        let j = choose|j: int| 0 <= j < k && #[trigger] order[j] == (#[trigger] s.placed[a]).0;
        lemma_order_starts(order, j, k);
        assert(fin.placed[a] == s.placed[a]);
        assert(fin.placed[a].1 == r);
    }
}

/// Later steps only append to what earlier steps placed.
proof fn lemma_greedy_prefix(rooms: Seq<RoomOption>, order: Seq<RoomRequest>, k: int, n: int)
    requires
        0 <= k <= n <= order.len(),
    ensures
        greedy_upto(rooms, order, k).placed.len() <= greedy_upto(rooms, order, n).placed.len(),
        forall|a: int| 0 <= a < greedy_upto(rooms, order, k).placed.len() ==> #[trigger] greedy_upto(rooms, order, n).placed[a]
            == greedy_upto(rooms, order, k).placed[a],
    decreases n - k,
{
    if k < n {
        lemma_greedy_prefix(rooms, order, k, n - 1);
    }
}

/// A room known to seat `need`: it has a capacity and the request a size,
/// and the capacity is at least the size.
pub open spec fn adequate(room: RoomOption, need: Option<u32>) -> bool {
    room.capacity matches Some(c) && need matches Some(n) && c >= n
}

/// Room `a` fits at least as tightly as room `b`: a smaller capacity, or
/// the same and a location identifier no greater.
pub open spec fn fits_tighter(a: RoomOption, b: RoomOption) -> bool {
    a.capacity.unwrap() < b.capacity.unwrap() || (a.capacity.unwrap() == b.capacity.unwrap() && a.location.0 <= b.location.0)
}

/// The best fit among the free rooms: when free room `j` is adequate, the
/// room chosen is adequate and fits at least as tightly.
proof fn lemma_chosen_best_fit(rooms: Seq<RoomOption>, frontier: Seq<int>, q: RoomRequest, j: int)
    requires
        frontier.len() == rooms.len(),
        0 <= j < rooms.len(),
        j <= usize::MAX,
        frontier[j] <= q.window.lo(),
        adequate(rooms[j], q.expected_size),
    ensures
        chosen_room(rooms, frontier, q) is Some,
        adequate(rooms[chosen_room(rooms, frontier, q).unwrap() as int], q.expected_size),
        fits_tighter(rooms[chosen_room(rooms, frontier, q).unwrap() as int], rooms[j]),
{
    let fkey = |i: usize| fit_key(rooms[i as int], q.expected_size);
    let fpred = |i: usize| frontier[i as int] <= q.window.lo();
    let idx = Seq::new(frontier.len(), |k: int| k as usize);
    let fr = free_rooms(frontier, q.window.lo());
    assert(idx[j] == j as usize);
    idx.lemma_filter_contains(fpred, j);
    assert(fr.contains(j as usize));
    let free = stable_sort_by(fr, fkey);
    crate::order::lemma_stable_sort(fr, fkey);
    vstd::seq_lib::to_multiset_contains(fr, j as usize);
    vstd::seq_lib::to_multiset_contains(free, j as usize);
    let p = choose|p: int| 0 <= p < free.len() && free[p] == j as usize;
    let i = free[0];
    lemma_chosen_room_free(rooms, frontier, q);
    let ki = fit_key(rooms[i as int], q.expected_size);
    let kj = fit_key(rooms[j], q.expected_size);
    if p > 0 {
        assert(crate::order::key_le(fkey(free[0]), fkey(free[p])));
    } else {
        crate::order::lemma_key_lt_irreflexive(kj);
    }
    assert(crate::order::key_le(ki, kj));
    let cj = rooms[j].capacity.unwrap();
    assert(kj == seq![0u128, cj as u128, rooms[j].location.0]);
    reveal_with_fuel(crate::order::key_lt, 4);
    assert(ki.drop_first().drop_first() =~= seq![ki[2]]);
    assert(kj.drop_first().drop_first() =~= seq![kj[2]]);
    assert(ki.drop_first() =~= seq![ki[1], ki[2]]);
    assert(kj.drop_first() =~= seq![kj[1], kj[2]]);
}

/// A room known to be too small for `need`: both are known and the
/// capacity is below the size.
pub open spec fn too_small(room: RoomOption, need: Option<u32>) -> bool {
    room.capacity matches Some(c) && need matches Some(n) && c < n
}

/// A room too small is the last resort among the free rooms: when free
/// room `j` is not known too small, neither is the room chosen.
proof fn lemma_chosen_small_last(rooms: Seq<RoomOption>, frontier: Seq<int>, q: RoomRequest, j: int)
    requires
        frontier.len() == rooms.len(),
        0 <= j < rooms.len(),
        j <= usize::MAX,
        frontier[j] <= q.window.lo(),
        !too_small(rooms[j], q.expected_size),
    ensures
        chosen_room(rooms, frontier, q) is Some,
        !too_small(rooms[chosen_room(rooms, frontier, q).unwrap() as int], q.expected_size),
{
    let fkey = |i: usize| fit_key(rooms[i as int], q.expected_size);
    let fpred = |i: usize| frontier[i as int] <= q.window.lo();
    let idx = Seq::new(frontier.len(), |k: int| k as usize);
    let fr = free_rooms(frontier, q.window.lo());
    assert(idx[j] == j as usize);
    idx.lemma_filter_contains(fpred, j);
    let free = stable_sort_by(fr, fkey);
    crate::order::lemma_stable_sort(fr, fkey);
    vstd::seq_lib::to_multiset_contains(fr, j as usize);
    vstd::seq_lib::to_multiset_contains(free, j as usize);
    let p = choose|p: int| 0 <= p < free.len() && free[p] == j as usize;
    let i = free[0];
    let ki = fit_key(rooms[i as int], q.expected_size);
    let kj = fit_key(rooms[j], q.expected_size);
    if p > 0 {
        assert(crate::order::key_le(fkey(free[0]), fkey(free[p])));
    } else {
        crate::order::lemma_key_lt_irreflexive(kj);
    }
    assert(crate::order::key_le(ki, kj));
    reveal_with_fuel(crate::order::key_lt, 2);
}

/// Which step of the pass placed the `k`-th placement: the state before it
/// had `k` placements, and the request of that step got the chosen room.
proof fn lemma_placed_at_step(rooms: Seq<RoomOption>, order: Seq<RoomRequest>, m: int, k: int)
    requires
        0 <= m <= order.len(),
        0 <= k < greedy_upto(rooms, order, m).placed.len(),
    ensures
        exists|n: int|
            1 <= n <= m && #[trigger] greedy_upto(rooms, order, n - 1).placed.len() == k && order[n - 1]
                == greedy_upto(rooms, order, m).placed[k].0 && chosen_room(
                rooms,
                greedy_upto(rooms, order, n - 1).frontier,
                order[n - 1],
            ) == Some(greedy_upto(rooms, order, m).placed[k].1),
    decreases m,
{
    let s = greedy_upto(rooms, order, m - 1);
    if k < s.placed.len() {
        lemma_placed_at_step(rooms, order, m - 1, k);
        let n = choose|n: int|
            1 <= n <= m - 1 && #[trigger] greedy_upto(rooms, order, n - 1).placed.len() == k && order[n - 1]
                == greedy_upto(rooms, order, m - 1).placed[k].0 && chosen_room(
                rooms,
                greedy_upto(rooms, order, n - 1).frontier,
                order[n - 1],
            ) == Some(greedy_upto(rooms, order, m - 1).placed[k].1);
        lemma_greedy_prefix(rooms, order, m - 1, m);
        assert(greedy_upto(rooms, order, m).placed[k] == s.placed[k]);
    } else {
        assert(greedy_upto(rooms, order, m - 1).placed.len() == k);
    }
}

/// Best capacity fit: greedy gives each placed request the tightest
/// adequate room free at its start. For every room `j` that seats the
/// request and is free when it starts (every request placed in `j` before
/// it has ended by then), the request's own room also seats it, and has a
/// smaller capacity than `j`, or the same capacity and a location
/// identifier no greater. A room too small is taken only when no adequate
/// room is free.
pub proof fn lemma_greedy_best_fit(requests: Seq<RoomRequest>, rooms: Seq<RoomOption>, k: int, j: int)
    requires
        windows_ordered(requests),
        rooms.len() <= usize::MAX,
        0 <= k < greedy_spec(requests, rooms).placed.len(),
        0 <= j < rooms.len(),
        adequate(rooms[j], greedy_spec(requests, rooms).placed[k].0.expected_size),
        forall|a: int|
            0 <= a < k && #[trigger] greedy_spec(requests, rooms).placed[a].1 == j ==> greedy_spec(requests, rooms).placed[a].0.window.hi()
                <= greedy_spec(requests, rooms).placed[k].0.window.lo(),
    ensures
        adequate(rooms[greedy_spec(requests, rooms).placed[k].1 as int], greedy_spec(requests, rooms).placed[k].0.expected_size),
        fits_tighter(rooms[greedy_spec(requests, rooms).placed[k].1 as int], rooms[j]),
{
    let key = request_order();
    assert((|r: RoomRequest| request_key(r)) =~= key);
    let order = stable_sort_by(requests, key);
    crate::order::lemma_stable_sort(requests, key);
    assert(windows_ordered(order)) by {
        assert forall|t: int| 0 <= t < order.len() implies (#[trigger] order[t]).window.lo() <= order[t].window.hi() by {
            assert(order.contains(order[t]));
            vstd::seq_lib::to_multiset_contains(order, order[t]);
            vstd::seq_lib::to_multiset_contains(requests, order[t]);
            let j = choose|j: int| 0 <= j < requests.len() && requests[j] == order[t];
        }
    }
    let g = greedy_spec(requests, rooms);
    assert(g == greedy_upto(rooms, order, order.len() as int));
    lemma_placed_at_step(rooms, order, order.len() as int, k);
    let n = choose|n: int|
        1 <= n <= order.len() && #[trigger] greedy_upto(rooms, order, n - 1).placed.len() == k && order[n - 1] == g.placed[k].0
            && chosen_room(rooms, greedy_upto(rooms, order, n - 1).frontier, order[n - 1]) == Some(g.placed[k].1);
    let s = greedy_upto(rooms, order, n - 1);
    let q = order[n - 1];
    lemma_frontier_explained(rooms, order, n - 1);
    lemma_greedy_inv(rooms, order, n - 1);
    lemma_greedy_prefix(rooms, order, n - 1, order.len() as int);
    crate::interval::lemma_ends_fit(q.window);
    assert(s.frontier[j] <= q.window.lo()) by {
        if s.frontier[j] != i64::MIN as int {
            let a = choose|a: int| 0 <= a < s.placed.len() && s.placed[a].1 == j && #[trigger] s.placed[a].0.window.hi() == s.frontier[j];
            assert(g.placed[a] == s.placed[a]);
        }
    }
    lemma_chosen_best_fit(rooms, s.frontier, q, j);
}

/// A room too small is a last resort: when some room that is not known
/// to be too small for a placed request is free at its start (every
/// request placed there before it has ended by then), the request's own
/// room is not known to be too small either.
pub proof fn lemma_greedy_small_room_last(requests: Seq<RoomRequest>, rooms: Seq<RoomOption>, k: int, j: int)
    requires
        windows_ordered(requests),
        rooms.len() <= usize::MAX,
        0 <= k < greedy_spec(requests, rooms).placed.len(),
        0 <= j < rooms.len(),
        !too_small(rooms[j], greedy_spec(requests, rooms).placed[k].0.expected_size),
        forall|a: int|
            0 <= a < k && #[trigger] greedy_spec(requests, rooms).placed[a].1 == j ==> greedy_spec(requests, rooms).placed[a].0.window.hi()
                <= greedy_spec(requests, rooms).placed[k].0.window.lo(),
    ensures
        !too_small(rooms[greedy_spec(requests, rooms).placed[k].1 as int], greedy_spec(requests, rooms).placed[k].0.expected_size),
{
    let key = request_order();
    assert((|r: RoomRequest| request_key(r)) =~= key);
    let order = stable_sort_by(requests, key);
    crate::order::lemma_stable_sort(requests, key);
    assert(windows_ordered(order)) by {
        assert forall|t: int| 0 <= t < order.len() implies (#[trigger] order[t]).window.lo() <= order[t].window.hi() by {
            assert(order.contains(order[t]));
            vstd::seq_lib::to_multiset_contains(order, order[t]);
            vstd::seq_lib::to_multiset_contains(requests, order[t]);
            let j = choose|j: int| 0 <= j < requests.len() && requests[j] == order[t];
        }
    }
    let g = greedy_spec(requests, rooms);
    assert(g == greedy_upto(rooms, order, order.len() as int));
    lemma_placed_at_step(rooms, order, order.len() as int, k);
    let n = choose|n: int|
        1 <= n <= order.len() && #[trigger] greedy_upto(rooms, order, n - 1).placed.len() == k && order[n - 1] == g.placed[k].0
            && chosen_room(rooms, greedy_upto(rooms, order, n - 1).frontier, order[n - 1]) == Some(g.placed[k].1);
    let s = greedy_upto(rooms, order, n - 1);
    let q = order[n - 1];
    lemma_frontier_explained(rooms, order, n - 1);
    lemma_greedy_inv(rooms, order, n - 1);
    lemma_greedy_prefix(rooms, order, n - 1, order.len() as int);
    crate::interval::lemma_ends_fit(q.window);
    assert(s.frontier[j] <= q.window.lo()) by {
        if s.frontier[j] != i64::MIN as int {
            let a = choose|a: int| 0 <= a < s.placed.len() && s.placed[a].1 == j && #[trigger] s.placed[a].0.window.hi() == s.frontier[j];
            assert(g.placed[a] == s.placed[a]);
        }
    }
    lemma_chosen_small_last(rooms, s.frontier, q, j);
}

} // verus!
