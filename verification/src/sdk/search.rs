//! Local search over room placements: relocate and swap moves over a seed
//! assignment, first-improvement hill-climbing with a caller-supplied
//! random seed and evaluation budget. The search is a state machine: each
//! step either asks the caller to price one candidate or stops; the caller
//! prices candidates with its objective and answers whether the last one
//! beat the best so far. The best assignment only ever changes to a
//! candidate reported better, so the result is the best seen, seed
//! included, and stopping early still leaves the best so far. Candidate
//! moves may create violations: the objective prices them.

use rand::rngs::StdRng;
use rand::seq::SliceRandom;
use rand::SeedableRng;
use vstd::prelude::*;

use crate::model::LocationId;
use crate::sdk::{Placement, RoomOption};

verus! {

#[derive(Clone, Copy, PartialEq, Eq, Structural, Debug)]
pub enum Move {
    /// Move one event to a different room.
    Relocate { placement_idx: usize, room_idx: usize },
    /// Exchange the rooms of two placements.
    Swap { a: usize, b: usize },
}

#[derive(Clone, Copy, PartialEq, Eq, Structural, Debug)]
pub struct SearchBudget {
    /// Maximum number of candidate evaluations (objective calls).
    pub max_evals: u32,
}

impl Default for SearchBudget {
    fn default() -> (r: SearchBudget)
        ensures
            r.max_evals == 200,
    {
        SearchBudget { max_evals: 200 }
    }
}

/// Relocations of placement `pi` to each of the first `r` rooms that is
/// not already its room.
pub open spec fn relocations(best: Seq<Placement>, rooms: Seq<RoomOption>, pi: int, r: int) -> Seq<Move>
    decreases r,
{
    if r <= 0 {
        seq![]
    } else {
        let rest = relocations(best, rooms, pi, r - 1);
        if rooms[r - 1].location != best[pi].location {
            rest.push(Move::Relocate { placement_idx: pi as usize, room_idx: (r - 1) as usize })
        } else {
            rest
        }
    }
}

/// Swaps of placement `pi` with each later placement up to index `j`
/// (exclusive) that sits in a different room.
pub open spec fn swaps(best: Seq<Placement>, pi: int, j: int) -> Seq<Move>
    decreases j - pi,
{
    if j <= pi + 1 {
        seq![]
    } else {
        let rest = swaps(best, pi, j - 1);
        if best[pi].location != best[j - 1].location {
            rest.push(Move::Swap { a: pi as usize, b: (j - 1) as usize })
        } else {
            rest
        }
    }
}

/// Every move from `best` for its first `n` placements: for each, its
/// relocations in room order, then its swaps with later placements.
pub open spec fn moves_upto(best: Seq<Placement>, rooms: Seq<RoomOption>, n: int) -> Seq<Move>
    decreases n,
{
    if n <= 0 {
        seq![]
    } else {
        moves_upto(best, rooms, n - 1) + relocations(best, rooms, n - 1, rooms.len() as int) + swaps(
            best,
            n - 1,
            best.len() as int,
        )
    }
}

/// The candidate moves from `best`.
pub fn candidate_moves(best: &[Placement], rooms: &[RoomOption]) -> (r: Vec<Move>)
    ensures
        r@ == moves_upto(best@, rooms@, best@.len() as int),
{
    let mut moves: Vec<Move> = Vec::new();
    let mut pi: usize = 0;
    while pi < best.len()
        invariant
            pi <= best@.len(),
            moves@ == moves_upto(best@, rooms@, pi as int),
        decreases best@.len() - pi,
    {
        let ghost base = moves@;
        let mut ri: usize = 0;
        while ri < rooms.len()
            invariant
                pi < best@.len(),
                ri <= rooms@.len(),
                moves@ == base + relocations(best@, rooms@, pi as int, ri as int),
            decreases rooms@.len() - ri,
        {
            if rooms[ri].location != best[pi].location {
                moves.push(Move::Relocate { placement_idx: pi, room_idx: ri });
            }
            ri += 1;
        }
        let ghost mid = moves@;
        let mut pj: usize = pi + 1;
        while pj < best.len()
            invariant
                pi < best@.len(),
                pi + 1 <= pj <= best@.len(),
                moves@ == mid + swaps(best@, pi as int, pj as int),
            decreases best@.len() - pj,
        {
            if best[pi].location != best[pj].location {
                moves.push(Move::Swap { a: pi, b: pj });
            }
            pj += 1;
        }
        pi += 1;
    }
    moves
}

/// A move fits `best` and `rooms` when its indices are in range.
pub open spec fn move_fits(m: Move, n: int, rooms: int) -> bool {
    match m {
        Move::Relocate { placement_idx, room_idx } => placement_idx < n && room_idx < rooms,
        Move::Swap { a, b } => a < n && b < n,
    }
}

/// The placements after a move.
pub open spec fn moved(best: Seq<Placement>, rooms: Seq<RoomOption>, m: Move) -> Seq<Placement> {
    match m {
        Move::Relocate { placement_idx, room_idx } => best.update(
            placement_idx as int,
            Placement { location: rooms[room_idx as int].location, ..best[placement_idx as int] },
        ),
        Move::Swap { a, b } => best.update(a as int, Placement { location: best[b as int].location, ..best[a as int] }).update(
            b as int,
            Placement { location: best[a as int].location, ..best[b as int] },
        ),
    }
}

/// Apply a move to a copy of `best`.
pub fn apply_move(best: &[Placement], rooms: &[RoomOption], m: Move) -> (r: Vec<Placement>)
    requires
        move_fits(m, best@.len() as int, rooms@.len() as int),
    ensures
        r@ == moved(best@, rooms@, m),
{
    let mut cand: Vec<Placement> = Vec::new();
    let mut i: usize = 0;
    while i < best.len()
        invariant
            i <= best@.len(),
            cand@ == best@.take(i as int),
        decreases best@.len() - i,
    {
        cand.push(best[i]);
        assert(best@.take(i + 1) =~= best@.take(i as int).push(best@[i as int]));
        i += 1;
    }
    assert(best@.take(best@.len() as int) =~= best@);
    match m {
        Move::Relocate { placement_idx, room_idx } => {
            let p = cand[placement_idx];
            cand.set(placement_idx, Placement { location: rooms[room_idx].location, ..p });
        },
        Move::Swap { a, b } => {
            let pa = cand[a];
            let pb = cand[b];
            cand.set(a, Placement { location: pb.location, ..pa });
            cand.set(b, Placement { location: pa.location, ..pb });
        },
    }
    cand
}

/// Every candidate move fits the placements it was generated from.
pub proof fn lemma_candidate_moves_fit(best: Seq<Placement>, rooms: Seq<RoomOption>, n: int, k: int)
    requires
        0 <= n <= best.len(),
        0 <= k < moves_upto(best, rooms, n).len(),
    ensures
        move_fits(moves_upto(best, rooms, n)[k], best.len() as int, rooms.len() as int),
    decreases n,
{
    let prev = moves_upto(best, rooms, n - 1);
    let rel = relocations(best, rooms, n - 1, rooms.len() as int);
    if k < prev.len() {
        lemma_candidate_moves_fit(best, rooms, n - 1, k);
    } else if k < prev.len() + rel.len() {
        lemma_relocations_fit(best, rooms, n - 1, rooms.len() as int, k - prev.len());
    } else {
        lemma_swaps_fit(best, n - 1, best.len() as int, k - prev.len() - rel.len());
    }
}

proof fn lemma_relocations_fit(best: Seq<Placement>, rooms: Seq<RoomOption>, pi: int, r: int, k: int)
    requires
        0 <= pi < best.len(),
        0 <= r <= rooms.len(),
        0 <= k < relocations(best, rooms, pi, r).len(),
    ensures
        move_fits(relocations(best, rooms, pi, r)[k], best.len() as int, rooms.len() as int),
    decreases r,
{
    if k < relocations(best, rooms, pi, r - 1).len() {
        lemma_relocations_fit(best, rooms, pi, r - 1, k);
    }
}

proof fn lemma_swaps_fit(best: Seq<Placement>, pi: int, j: int, k: int)
    requires
        0 <= pi < best.len(),
        j <= best.len(),
        0 <= k < swaps(best, pi, j).len(),
    ensures
        move_fits(swaps(best, pi, j)[k], best.len() as int, 0),
    decreases j - pi,
{
    if k < swaps(best, pi, j - 1).len() {
        lemma_swaps_fit(best, pi, j - 1, k);
    }
}


/// The generator that orders each pass's moves.
#[verifier::external_type_specification]
#[verifier::external_body]
pub struct ExStdRng(StdRng);

/// `StdRng::seed_from_u64`: a generator seeded from `seed`. Its state is
/// opaque here; nothing is stated of it.
#[verifier::external_body]
fn seeded_rng(seed: u64) -> StdRng {
    StdRng::seed_from_u64(seed)
}

/// `SliceRandom::shuffle`: reorders the moves at random (a sequence of
/// swaps), keeping exactly the same moves. Which order comes out depends
/// on the generator's state and is not stated.
#[verifier::external_body]
fn shuffle_moves(moves: &mut Vec<Move>, rng: &mut StdRng)
    ensures
        final(moves)@.to_multiset() == old(moves)@.to_multiset(),
{
    moves.shuffle(rng);
}

/// Some seed placement sits at `l`.
pub open spec fn seed_location(seed: Seq<Placement>, l: LocationId) -> bool {
    exists|j: int| 0 <= j < seed.len() && #[trigger] seed[j].location == l
}

/// Some room is `l`.
pub open spec fn room_location(rooms: Seq<RoomOption>, l: LocationId) -> bool {
    exists|r: int| 0 <= r < rooms.len() && #[trigger] rooms[r].location == l
}

/// `p` keeps the seed's events in the seed's order, each at a location of
/// the seed or at one of the rooms.
pub open spec fn keeps_seed(seed: Seq<Placement>, rooms: Seq<RoomOption>, p: Seq<Placement>) -> bool {
    &&& p.len() == seed.len()
    &&& forall|i: int| 0 <= i < p.len() ==> (#[trigger] p[i]).event == seed[i].event
    &&& forall|i: int| 0 <= i < p.len() ==> seed_location(seed, (#[trigger] p[i]).location) || room_location(rooms, p[i].location)
}

/// The evaluation ceiling of a budget: its maximum, but at least the one
/// evaluation of the seed.
pub open spec fn eval_cap(budget: SearchBudget) -> int {
    if budget.max_evals >= 1 {
        budget.max_evals as int
    } else {
        1
    }
}

/// A fitting move keeps the seed's events and places them at seed or room
/// locations.
proof fn lemma_moved_keeps_seed(seed: Seq<Placement>, rooms: Seq<RoomOption>, best: Seq<Placement>, m: Move)
    requires
        keeps_seed(seed, rooms, best),
        move_fits(m, best.len() as int, rooms.len() as int),
    ensures
        keeps_seed(seed, rooms, moved(best, rooms, m)),
{
    let c = moved(best, rooms, m);
    assert forall|i: int| 0 <= i < c.len() implies seed_location(seed, (#[trigger] c[i]).location) || room_location(
        rooms,
        c[i].location,
    ) by {
        match m {
            Move::Relocate { placement_idx, room_idx } => {
                if i == placement_idx {
                    assert(rooms[room_idx as int].location == c[i].location);
                } else {
                    assert(c[i] == best[i]);
                }
            },
            Move::Swap { a, b } => {
                if i == b {
                    assert(c[i].location == best[a as int].location);
                    assert(seed_location(seed, best[a as int].location) || room_location(rooms, best[a as int].location));
                } else if i == a {
                    assert(c[i].location == best[b as int].location);
                    assert(seed_location(seed, best[b as int].location) || room_location(rooms, best[b as int].location));
                } else {
                    assert(c[i] == best[i]);
                }
            },
        }
    }
    assert forall|i: int| 0 <= i < c.len() implies (#[trigger] c[i]).event == seed[i].event by {
        assert(c[i].event == best[i].event);
    }
}

/// Every move of a reordering of the candidate moves fits.
proof fn lemma_pass_move_fits(best: Seq<Placement>, rooms: Seq<RoomOption>, pass: Seq<Move>, k: int)
    requires
        pass.to_multiset() == moves_upto(best, rooms, best.len() as int).to_multiset(),
        0 <= k < pass.len(),
    ensures
        move_fits(pass[k], best.len() as int, rooms.len() as int),
{
    let all = moves_upto(best, rooms, best.len() as int);
    vstd::seq_lib::to_multiset_contains(pass, pass[k]);
    assert(pass.contains(pass[k]));
    assert(all.to_multiset().count(pass[k]) > 0);
    vstd::seq_lib::to_multiset_contains(all, pass[k]);
    let j = choose|j: int| 0 <= j < all.len() && all[j] == pass[k];
    lemma_candidate_moves_fit(best, rooms, best.len() as int, j);
}

/// The state of a search: the best assignment so far, the evaluations
/// spent (the seed's included), the current pass's moves in the order
/// drawn and how far it has got, and the candidate awaiting its price.
pub struct SearchState {
    seed: Ghost<Seq<Placement>>,
    rooms: Vec<RoomOption>,
    budget: SearchBudget,
    rng: StdRng,
    best: Vec<Placement>,
    evals: u32,
    moves: Vec<Move>,
    next: usize,
    pending: Option<Vec<Placement>>,
}

/// What the caller does next.
#[derive(Debug)]
pub enum SearchAction {
    /// Price this candidate, then answer whether it beat the best so far.
    Evaluate(Vec<Placement>),
    /// The search is over: the best so far is the result.
    Done,
}

impl SearchState {
    pub closed spec fn seed(&self) -> Seq<Placement> {
        self.seed@
    }

    pub closed spec fn rooms_view(&self) -> Seq<RoomOption> {
        self.rooms@
    }

    pub closed spec fn budget_view(&self) -> SearchBudget {
        self.budget
    }

    pub closed spec fn best_view(&self) -> Seq<Placement> {
        self.best@
    }

    pub closed spec fn evals_view(&self) -> int {
        self.evals as int
    }

    /// The current pass's moves, in the order they are tried.
    pub closed spec fn pass(&self) -> Seq<Move> {
        self.moves@
    }

    /// How many of the pass's moves have been tried.
    pub closed spec fn tried(&self) -> int {
        self.next as int
    }

    /// The candidate awaiting its price.
    pub closed spec fn pending_view(&self) -> Option<Seq<Placement>> {
        match self.pending {
            Some(c) => Some(c@),
            None => None,
        }
    }

    /// The search's invariant: the best keeps the seed's events at seed or
    /// room locations; the pass is a reordering of the best's candidate
    /// moves; the awaited candidate is the last move tried, applied to the
    /// best; the evaluations stay within the budget's ceiling.
    pub closed spec fn wf(&self) -> bool {
        &&& keeps_seed(self.seed@, self.rooms@, self.best@)
        &&& self.moves@.to_multiset() == moves_upto(self.best@, self.rooms@, self.best@.len() as int).to_multiset()
        &&& self.next <= self.moves@.len()
        &&& (self.pending matches Some(c) ==> 0 < self.next && c@ == moved(
            self.best@,
            self.rooms@,
            self.moves@[self.next - 1],
        ))
        &&& 1 <= self.evals <= eval_cap(self.budget)
    }

    /// Start a search from `seed` over `rooms` within `budget`, the moves
    /// of each pass ordered by a generator seeded from `rng_seed`. The
    /// seed's own evaluation counts as the first.
    pub fn new(seed: &[Placement], rooms: &[RoomOption], budget: SearchBudget, rng_seed: u64) -> (r: SearchState)
        ensures
            r.wf(),
            r.seed() == seed@,
            r.rooms_view() == rooms@,
            r.budget_view() == budget,
            r.best_view() == seed@,
            r.evals_view() == 1,
            r.tried() == 0,
            r.pending_view() is None,
    {
        let mut best: Vec<Placement> = Vec::new();
        let mut i: usize = 0;
        while i < seed.len()
            invariant
                i <= seed@.len(),
                best@ == seed@.take(i as int),
            decreases seed@.len() - i,
        {
            best.push(seed[i]);
            assert(seed@.take(i + 1) =~= seed@.take(i as int).push(seed@[i as int]));
            i += 1;
        }
        assert(seed@.take(seed@.len() as int) =~= seed@);
        let mut room_list: Vec<RoomOption> = Vec::new();
        let mut k: usize = 0;
        while k < rooms.len()
            invariant
                k <= rooms@.len(),
                room_list@ == rooms@.take(k as int),
            decreases rooms@.len() - k,
        {
            room_list.push(rooms[k]);
            assert(rooms@.take(k + 1) =~= rooms@.take(k as int).push(rooms@[k as int]));
            k += 1;
        }
        assert(rooms@.take(rooms@.len() as int) =~= rooms@);
        let mut rng = seeded_rng(rng_seed);
        let mut moves = candidate_moves(best.as_slice(), room_list.as_slice());
        shuffle_moves(&mut moves, &mut rng);
        assert forall|i: int| 0 <= i < best@.len() implies seed_location(seed@, (#[trigger] best@[i]).location) || room_location(
            rooms@,
            best@[i].location,
        ) by {
            assert(seed@[i].location == best@[i].location);
        }
        SearchState {
            seed: Ghost(seed@),
            rooms: room_list,
            budget,
            rng,
            best,
            evals: 1,
            moves,
            next: 0,
            pending: None,
        }
    }

    /// The best assignment so far.
    pub fn best(&self) -> (r: &[Placement])
        ensures
            r@ == self.best_view(),
    {
        self.best.as_slice()
    }

    /// The evaluations spent so far, the seed's included.
    pub fn evals(&self) -> (r: u32)
        ensures
            r == self.evals_view(),
    {
        self.evals
    }
}

/// The best assignment after a step answered `last_better`: the awaited
/// candidate when it was reported better, otherwise the best before.
pub open spec fn best_after(state: SearchState, last_better: Option<bool>) -> Seq<Placement> {
    if state.pending_view() is Some && last_better == Some(true) {
        state.pending_view().unwrap()
    } else {
        state.best_view()
    }
}

/// Monotone and anytime: along any run of steps from a fresh search, the
/// best is the seed until a candidate is reported better, and from then
/// on the last candidate reported better. Wherever the run stops, its best
/// is the best seen, the seed included.
pub proof fn lemma_best_is_best_seen(states: Seq<SearchState>, answers: Seq<Option<bool>>)
    requires
        states.len() == answers.len() + 1,
        states[0].best_view() == states[0].seed(),
        forall|i: int| 0 <= i < answers.len() ==> #[trigger] states[i + 1].best_view() == best_after(states[i], answers[i]),
    ensures
        states.last().best_view() == states[0].seed() || exists|i: int|
            0 <= i < answers.len() && answers[i] == Some(true) && #[trigger] states[i].pending_view() == Some(states.last().best_view()),
    decreases answers.len(),
{
    if answers.len() > 0 {
        let n = answers.len() - 1;
        let st = states.drop_last();
        let an = answers.drop_last();
        assert forall|i: int| 0 <= i < an.len() implies #[trigger] st[i + 1].best_view() == best_after(st[i], an[i]) by {
            assert(states[i + 1].best_view() == best_after(states[i], answers[i]));
        }
        lemma_best_is_best_seen(st, an);
        assert(states[n + 1].best_view() == best_after(states[n], answers[n]));
        assert(states.last() == states[n + 1]);
        assert(st.last() == states[n]);
        if states[n].pending_view() is Some && answers[n] == Some(true) {
            assert(states[n].pending_view() == Some(states.last().best_view()));
        } else if st.last().best_view() != states[0].seed() {
            let i = choose|i: int| 0 <= i < an.len() && an[i] == Some(true) && #[trigger] st[i].pending_view() == Some(st.last().best_view());
            assert(st[i] == states[i]);
            assert(answers[i] == Some(true));
        }
    }
}

/// One step of the search. `last_better` answers the previous step's
/// `Evaluate`: whether that candidate priced strictly better than the best
/// so far. A better candidate becomes the best and a new pass starts over
/// its candidate moves, drawn in a new random order; otherwise the pass
/// goes on. The next move of the pass is then offered for pricing, unless
/// the budget is spent or the pass has no move left, and then the search
/// is done.
pub fn search_step(state: SearchState, last_better: Option<bool>) -> (r: (SearchState, SearchAction))
    requires
        state.wf(),
    ensures
        r.0.wf(),
        r.0.seed() == state.seed(),
        r.0.rooms_view() == state.rooms_view(),
        r.0.budget_view() == state.budget_view(),
        ({
            let stepped = state.pending_view() is Some && last_better == Some(true);
            let start = if stepped { 0 } else { state.tried() };
            &&& r.0.best_view() == best_after(state, last_better)
            &&& !stepped ==> r.0.pass() == state.pass()
            &&& r.1 matches SearchAction::Evaluate(c) ==> {
                &&& state.evals_view() < state.budget_view().max_evals
                &&& start < r.0.pass().len()
                &&& r.0.tried() == start + 1
                &&& r.0.evals_view() == state.evals_view() + 1
                &&& c@ == moved(r.0.best_view(), r.0.rooms_view(), r.0.pass()[start])
                &&& r.0.pending_view() == Some(c@)
            }
            &&& r.1 is Done ==> {
                &&& state.evals_view() >= state.budget_view().max_evals || start == r.0.pass().len()
                &&& r.0.tried() == start
                &&& r.0.evals_view() == state.evals_view()
                &&& r.0.pending_view() is None
            }
        }),
{
    let mut st = state;
    let pending = st.pending.take();
    match pending {
        Some(c) => {
            if last_better == Some(true) {
                let ghost old_best = st.best@;
                proof {
                    lemma_pass_move_fits(old_best, st.rooms@, st.moves@, st.next - 1);
                    lemma_moved_keeps_seed(st.seed@, st.rooms@, old_best, st.moves@[st.next - 1]);
                }
                st.best = c;
                let mut moves = candidate_moves(st.best.as_slice(), st.rooms.as_slice());
                shuffle_moves(&mut moves, &mut st.rng);
                st.moves = moves;
                st.next = 0;
            }
        },
        None => {},
    }
    if st.next < st.moves.len() && st.evals < st.budget.max_evals {
        let m = st.moves[st.next];
        proof {
            lemma_pass_move_fits(st.best@, st.rooms@, st.moves@, st.next as int);
        }
        let cand = apply_move(st.best.as_slice(), st.rooms.as_slice(), m);
        let copy = apply_move(st.best.as_slice(), st.rooms.as_slice(), m);
        st.next = st.next + 1;
        st.evals = st.evals + 1;
        st.pending = Some(copy);
        (st, SearchAction::Evaluate(cand))
    } else {
        (st, SearchAction::Done)
    }
}
} // verus!
