//! The engine: command routing (with the `Prevent` call site), the
//! mirrored derivation inputs, digest refresh and preview, batch sweeps,
//! and the feasibility oracle.
//!
//! The engine reads no clock: every evaluation instant is caller-supplied,
//! which keeps everything here deterministic and replayable.

use vstd::prelude::*;

pub use crate::derive::{effective_schedule, expand};

use crate::command::{kind_name, Command, CommandReceipt};
use crate::detect::location_exclusivity::{self, exclusivity_violations};
use crate::detect::time_conflict::{self, time_conflicts};
use crate::detect::capacity_exceeded::{self, capacity_drafts, interested};
use crate::detect::containment_exclusivity::{self, containment_violations};
use crate::detect::impossible_travel::{self, travel_violations};
use crate::detect::orphan_event::{self, housed};
use crate::detect::{drafts_view, DraftView, Policy, PolicyMap, ViolationDraft, SEVERITY_ORPHAN_EVENT};
use crate::model::{clone_refs, refs_eq, Event, Location, Violation, ViolationId, ViolationView};
use crate::repo::memory::{has_violation, event_id_key, location_is, location_keys, location_list, location_ids, violation_is};
use crate::error::{OrreryError, Rejection};
use crate::incremental::{self, mirror_spec, world_view, World};
use crate::interval::Interval;
use crate::model::{
    AttendanceSource, Attends, EntityRef, Held, Posture, Priority, ViolationKind,
};
use crate::interval::Timestamp;
use crate::incremental::{derived_ids_spec, ExpectKey};
use crate::model::{Anchors, DigestRecord, Expects, LocationId, MemberOf, Person, PersonId, SubgroupOf, TravelCost};
use crate::repo::memory::{person_ids, person_is, person_keys, person_list};
use crate::repo::{find_where, first_where};
use crate::order::{keyed_by, payloads, sorted_payloads, stable_sort_by, ts_key, ts_key_spec};
use crate::repo::memory::{
    applied, event_window, next_seq, refusal, selected_edge, travel_spec, MemoryRepo, RepoView,
};
use crate::travel::{closure_spec, row_of, traverse_abs_total, verdict_for_gap, ClosureReport, ClosureScope, ClosureRow, Feasibility, Placed};
use crate::model::ClosureEntry;

verus! {

/// The engine over an in-memory repository.
pub struct Engine {
    repo: MemoryRepo,
    policies: PolicyMap,
    world: World,
}

impl View for Engine {
    type V = RepoView;

    closed spec fn view(&self) -> RepoView {
        self.repo@
    }
}

/// The hold a `HoldLocation` command writes.
pub open spec fn proposed_hold(cmd: Command) -> Held {
    match cmd {
        Command::HoldLocation { location, event, during, overflow_for, capacity_override } => Held {
            location,
            event,
            during,
            posture: Posture::OnSite,
            overflow_for,
            capacity_override,
        },
        _ => arbitrary(),
    }
}

/// Why the `Prevent` call site refuses `cmd` on `v` under `policies`: the
/// same detector the sweep uses, run against the prospective post-write
/// state of the person (attendance) or location (hold) the command
/// touches.
pub open spec fn prevent_refusal(v: RepoView, policies: PolicyMap, cmd: Command) -> Option<OrreryError> {
    match cmd {
        Command::AddAttendance { person, event, .. } => if policies.policy_of(ViolationKind::TimeConflict)
            == Policy::Prevent {
            match event_window(v, event) {
                None => Some(OrreryError::NotFound(EntityRef::Event(event))),
                Some(w) => {
                    let attends = v.attends.filter(|a: Attends| a.person == person && a.during.overlaps_with(w)).push(
                        selected_edge(person, event, w, None),
                    );
                    let n = time_conflicts(attends, person).len();
                    if n > 0 {
                        Some(OrreryError::CommandRejected { reason: Rejection::PreventedTimeConflicts(n as usize) })
                    } else {
                        None
                    }
                },
            }
        } else {
            None
        },
        Command::HoldLocation { location, during, .. } => if policies.policy_of(
            ViolationKind::LocationExclusivity,
        ) == Policy::Prevent {
            let holds = v.held.filter(|h: Held| h.location == location && h.during.overlaps_with(during)).push(
                proposed_hold(cmd),
            );
            let n = exclusivity_violations(holds, location).len();
            if n > 0 {
                Some(OrreryError::CommandRejected { reason: Rejection::PreventedLocationExclusivity(n as usize) })
            } else {
                None
            }
        } else {
            None
        },
        _ => None,
    }
}

/// Why the engine refuses `cmd`: the `Prevent` call site first, then the
/// repository's own checks.
pub open spec fn engine_refusal(v: RepoView, policies: PolicyMap, cmd: Command) -> Option<OrreryError> {
    match prevent_refusal(v, policies, cmd) {
        Some(e) => Some(e),
        None => refusal(v, cmd),
    }
}

impl Engine {
    /// The mirrored derivation inputs agree with the repository.
    pub closed spec fn wf(&self) -> bool {
        world_view(&self.world) == mirror_spec(self.repo@)
    }

    /// The policy map in force.
    pub closed spec fn policy_map(&self) -> PolicyMap {
        self.policies
    }

    pub fn new(repo: MemoryRepo) -> (r: Result<Engine, OrreryError>)
        ensures
            r matches Ok(e) && e.wf() && e@ == repo@ && forall|k: ViolationKind| e.policy_map().policy_of(k)
                == Policy::Detect,
    {
        Engine::with_policies(repo, PolicyMap::new())
    }

    pub fn with_policies(repo: MemoryRepo, policies: PolicyMap) -> (r: Result<Engine, OrreryError>)
        ensures
            r matches Ok(e) && e.wf() && e@ == repo@ && e.policy_map() == policies,
    {
        let (m, s, x) = incremental::mirror_from(&repo);
        let world = World::new(m, s, x);
        Ok(Engine { repo, policies, world })
    }

    pub fn repo(&self) -> (r: &MemoryRepo)
        ensures
            r@ == self@,
    {
        &self.repo
    }

    /// The policy map, for configuration.
    pub fn policies_mut(&mut self) -> (r: &mut PolicyMap)
        ensures
            *r == old(self).policy_map(),
            final(self).policy_map() == *final(r),
            final(self)@ == old(self)@,
            final(self).wf() == old(self).wf(),
    {
        &mut self.policies
    }

    /// The `Prevent` call site.
    fn prevent_gate(&self, cmd: &Command) -> (r: Result<(), OrreryError>)
        ensures
            r is Ok <==> prevent_refusal(self@, self.policies, *cmd) is None,
            r matches Err(e) ==> Some(e) == prevent_refusal(self@, self.policies, *cmd),
    {
        match cmd {
            Command::AddAttendance { person, event, .. } => {
                if self.policies.policy(ViolationKind::TimeConflict) == Policy::Prevent {
                    let window = match self.repo.event(*event) {
                        Some(e) => e.window,
                        None => {
                            return Err(OrreryError::NotFound(EntityRef::Event(*event)));
                        },
                    };
                    let mut attends = self.repo.attends_for(*person, window);
                    attends.push(
                        Attends {
                            person: *person,
                            event: *event,
                            during: window,
                            priority_group: Priority(0x8000_0000),
                            priority_person: None,
                            priority_coord: None,
                            coord_binding: false,
                            source: AttendanceSource::SelfSelected,
                            pinned: false,
                        },
                    );
                    let drafts = time_conflict::detect(*person, attends.as_slice());
                    if drafts.len() > 0 {
                        return Err(OrreryError::CommandRejected { reason: Rejection::PreventedTimeConflicts(drafts.len()) });
                    }
                }
                Ok(())
            },
            Command::HoldLocation { location, event, during, overflow_for, capacity_override } => {
                if self.policies.policy(ViolationKind::LocationExclusivity) == Policy::Prevent {
                    let mut holds = self.repo.held_for(*location, *during);
                    holds.push(
                        Held {
                            location: *location,
                            event: *event,
                            during: *during,
                            posture: Posture::OnSite,
                            overflow_for: *overflow_for,
                            capacity_override: *capacity_override,
                        },
                    );
                    let drafts = location_exclusivity::detect(*location, holds.as_slice());
                    if drafts.len() > 0 {
                        return Err(
                            OrreryError::CommandRejected { reason: Rejection::PreventedLocationExclusivity(drafts.len()) },
                        );
                    }
                }
                Ok(())
            },
            _ => Ok(()),
        }
    }

    /// The single mutation path: the `Prevent` call site, then the
    /// repository write, then the mirror refresh.
    pub fn apply(&mut self, cmd: Command) -> (r: Result<CommandReceipt, OrreryError>)
        requires
            old(self).wf(),
        ensures
            final(self).wf(),
            final(self).policy_map() == old(self).policy_map(),
            r is Ok <==> engine_refusal(old(self)@, old(self).policy_map(), cmd) is None,
            r matches Err(e) ==> Some(e) == engine_refusal(old(self)@, old(self).policy_map(), cmd) && final(self)@ == old(self)@,
            r matches Ok(rc) ==> rc.seq == next_seq(old(self)@.seq) && final(self)@ == applied(old(self)@, cmd),
    {
        let g = self.prevent_gate(&cmd);
        if let Err(e) = g {
            return Err(e);
        }
        let kind = cmd.kind();
        let ghost v0 = self.repo@;
        let receipt = match self.repo.apply(cmd) {
            Ok(rc) => rc,
            Err(e) => {
                return Err(e);
            },
        };
        incremental::refresh_after(&mut self.world, &self.repo, kind);
        proof {
            lemma_mirror_after(v0, cmd);
        }
        Ok(receipt)
    }
}

/// Applying a command changes the mirrored inputs only through the three
/// fact classes the derivation reads.
proof fn lemma_mirror_after(v: RepoView, cmd: Command)
    ensures
        kind_name(&cmd)@ != "add_membership"@ ==> applied(v, cmd).member_of == v.member_of,
        kind_name(&cmd)@ != "add_subgroup"@ ==> applied(v, cmd).subgroup_of == v.subgroup_of,
        kind_name(&cmd)@ != "add_expectation"@ ==> applied(v, cmd).expects == v.expects,
{
}

/// Sort key of an event's holds: primary holds first, then by location.
pub open spec fn hold_key(h: Held) -> Seq<u128> {
    seq![if h.overflow_for is Some { 1u128 } else { 0u128 }, h.location.0]
}

/// Where an edge's event is placed: its primary hold (first non-overflow,
/// ties to the smaller location), if it is held at all.
pub open spec fn placement(v: RepoView, a: Attends) -> Option<Placed> {
    let hs = stable_sort_by(v.held.filter(|h: Held| h.event == a.event), |h: Held| hold_key(h));
    if hs.len() == 0 {
        None
    } else {
        Some(Placed { event: a.event, location: hs[0].location, window: a.during })
    }
}

/// The placements of the first `n` edges, skipping unheld events.
pub open spec fn placed_upto(v: RepoView, s: Seq<Attends>, n: int) -> Seq<Placed>
    decreases n,
{
    if n <= 0 {
        seq![]
    } else {
        let rest = placed_upto(v, s, n - 1);
        match placement(v, s[n - 1]) {
            Some(p) => rest.push(p),
            None => rest,
        }
    }
}

/// A person's attendance in `window` plus their overlay edges.
pub open spec fn attendance_with(v: RepoView, person: PersonId, window: Interval, overlay: Seq<Attends>) -> Seq<Attends> {
    v.attends.filter(|a: Attends| a.person == person && a.during.overlaps_with(window)) + overlay.filter(
        |a: Attends| a.person == person,
    )
}

/// A person's attendance (with overlay) joined to placed events: the
/// edge's own window at the event's primary hold.
pub open spec fn placed_spec(v: RepoView, person: PersonId, window: Interval, overlay: Seq<Attends>) -> Seq<Placed> {
    let s = attendance_with(v, person, window, overlay);
    placed_upto(v, s, s.len() as int)
}

/// Sort key of a placed event when picking the first: start, then event.
pub open spec fn start_key(p: Placed) -> Seq<u128> {
    seq![ts_key_spec(p.window.lo() as i64), p.event.0]
}

/// The first placed event in `window` starting at or after `depart`.
pub open spec fn first_placed(v: RepoView, person: PersonId, window: Interval, depart: Timestamp) -> Option<Placed> {
    let c = stable_sort_by(
        placed_spec(v, person, window, seq![]).filter(|p: Placed| p.window.lo() >= depart.0),
        |p: Placed| start_key(p),
    );
    if c.len() == 0 {
        None
    } else {
        Some(c[0])
    }
}

/// The verdict one anchor gives for reaching `first` with `gap_s` seconds.
pub open spec fn anchor_verdict(v: RepoView, a: Anchors, first: Placed, gap_s: int) -> Feasibility {
    if a.structure == first.location {
        Feasibility::Feasible { slack_s: gap_s as i64 }
    } else {
        verdict_for_gap(gap_s, travel_spec(v, a.structure, first.location, None))
    }
}

/// The better of two verdicts: any feasible beats the rest (the larger
/// slack among feasibles), then the smaller deficit, then unknown.
pub open spec fn better_verdict(best: Feasibility, next: Feasibility) -> Feasibility {
    match (best, next) {
        (Feasibility::Feasible { slack_s: a }, Feasibility::Feasible { slack_s: b }) => Feasibility::Feasible {
            slack_s: if a >= b { a } else { b },
        },
        (Feasibility::Feasible { .. }, _) => best,
        (_, Feasibility::Feasible { .. }) => next,
        (Feasibility::Infeasible { deficit_s: a, .. }, Feasibility::Infeasible { deficit_s: b, .. }) => if b < a {
            next
        } else {
            best
        },
        (Feasibility::Infeasible { .. }, Feasibility::Unknown) => best,
        (Feasibility::Unknown, _) => next,
    }
}

/// The best verdict over the first `n` anchors.
pub open spec fn best_upto(v: RepoView, anchors: Seq<Anchors>, first: Placed, gap_s: int, n: int) -> Feasibility
    decreases n,
{
    if n <= 0 {
        Feasibility::Unknown
    } else {
        better_verdict(best_upto(v, anchors, first, gap_s, n - 1), anchor_verdict(v, anchors[n - 1], first, gap_s))
    }
}

/// The best verdict over anchors favours slack: when some anchor among
/// the first `n` is feasible, the result is feasible with a slack no
/// smaller than any feasible anchor's and equal to one of them; when none
/// is feasible but some is infeasible, the result is infeasible with a
/// deficit no larger than any infeasible anchor's.
proof fn lemma_best_upto_favours_slack(v: RepoView, anchors: Seq<Anchors>, first: Placed, gap_s: int, n: int)
    requires
        0 <= n <= anchors.len(),
    ensures
        ({
            let r = best_upto(v, anchors, first, gap_s, n);
            &&& forall|k: int| 0 <= k < n ==> (#[trigger] anchor_verdict(v, anchors[k], first, gap_s) matches Feasibility::Feasible {
                slack_s,
            } ==> (r matches Feasibility::Feasible { slack_s: t } && t >= slack_s))
            &&& (r matches Feasibility::Feasible { slack_s: t } ==> exists|k: int|
                0 <= k < n && #[trigger] anchor_verdict(v, anchors[k], first, gap_s) == Feasibility::Feasible { slack_s: t })
            &&& (forall|k: int| 0 <= k < n ==> !(#[trigger] anchor_verdict(v, anchors[k], first, gap_s) is Feasible)) ==> forall|k: int|
                0 <= k < n ==> (#[trigger] anchor_verdict(v, anchors[k], first, gap_s) matches Feasibility::Infeasible {
                deficit_s,
                ..
            } ==> (r matches Feasibility::Infeasible { deficit_s: d, .. } && d <= deficit_s))
        }),
    decreases n,
{
    if n > 0 {
        lemma_best_upto_favours_slack(v, anchors, first, gap_s, n - 1);
        let r0 = best_upto(v, anchors, first, gap_s, n - 1);
        let x = anchor_verdict(v, anchors[n - 1], first, gap_s);
        let r = best_upto(v, anchors, first, gap_s, n);
        assert(r == better_verdict(r0, x));
        if r0 is Feasible && !(x is Feasible) {
            assert(r == r0);
        }
        match r {
            Feasibility::Feasible { slack_s: t } => {
                if x == r {
                    assert(anchor_verdict(v, anchors[n - 1], first, gap_s) == Feasibility::Feasible { slack_s: t });
                } else {
                    assert(r0 == r);
                    let k = choose|k: int|
                        0 <= k < n - 1 && #[trigger] anchor_verdict(v, anchors[k], first, gap_s) == Feasibility::Feasible { slack_s: t };
                    assert(anchor_verdict(v, anchors[k], first, gap_s) == Feasibility::Feasible { slack_s: t });
                }
            },
            _ => {},
        }
        if forall|k: int| 0 <= k < n ==> !(#[trigger] anchor_verdict(v, anchors[k], first, gap_s) is Feasible) {
            assert forall|k: int| 0 <= k < n - 1 implies !(#[trigger] anchor_verdict(v, anchors[k], first, gap_s) is Feasible) by {
                assert(anchor_verdict(v, anchors[k], first, gap_s) == anchor_verdict(v, anchors[k], first, gap_s));
            }
            assert(!(anchor_verdict(v, anchors[n - 1], first, gap_s) is Feasible));
        }
    }
}

/// The first-event verdict takes the best anchor: whenever the member has
/// a first placed event and an anchor valid at the departure gives a
/// feasible verdict, the result is feasible with at least that slack (the
/// largest slack over the feasible anchors); when no valid anchor is
/// feasible, an infeasible result has a deficit no larger than any
/// infeasible anchor's.
pub proof fn lemma_first_event_takes_best_anchor(v: RepoView, person: PersonId, window: Interval, depart: Timestamp, a: Anchors)
    requires
        v.anchors.contains(a),
        a.person == person,
        a.during.contains_spec(depart.0 as int),
        first_placed(v, person, window, depart) is Some,
    ensures
        ({
            let first = first_placed(v, person, window, depart).unwrap();
            let gap_s = (first.window.lo() - depart.0) / 1_000_000;
            let r = first_event_verdict(v, person, window, depart);
            &&& (anchor_verdict(v, a, first, gap_s) matches Feasibility::Feasible { slack_s } ==> (r matches Feasibility::Feasible {
                slack_s: t,
            } && t >= slack_s))
            &&& !(r is Feasible) ==> (anchor_verdict(v, a, first, gap_s) matches Feasibility::Infeasible { deficit_s, .. } ==> (r matches Feasibility::Infeasible {
                deficit_s: d,
                ..
            } && d <= deficit_s))
        }),
{
    let first = first_placed(v, person, window, depart).unwrap();
    let gap_s = (first.window.lo() - depart.0) / 1_000_000;
    let pred = |x: Anchors| x.person == person && x.during.contains_spec(depart.0 as int);
    let anchors = v.anchors.filter(pred);
    let k0 = choose|k: int| 0 <= k < v.anchors.len() && v.anchors[k] == a;
    v.anchors.lemma_filter_contains(pred, k0);
    assert(anchors.contains(a));
    let k = choose|k: int| 0 <= k < anchors.len() && anchors[k] == a;
    lemma_best_upto_favours_slack(v, anchors, first, gap_s, anchors.len() as int);
    let r = first_event_verdict(v, person, window, depart);
    assert(r == best_upto(v, anchors, first, gap_s, anchors.len() as int));
    assert(anchor_verdict(v, anchors[k], first, gap_s) == anchor_verdict(v, a, first, gap_s));
    if !(r is Feasible) {
        assert forall|j: int| 0 <= j < anchors.len() implies !(#[trigger] anchor_verdict(v, anchors[j], first, gap_s) is Feasible) by {
            if anchor_verdict(v, anchors[j], first, gap_s) is Feasible {
                assert(r is Feasible);
            }
        }
    }
}

/// Can `person` reach their first placed event in `window` from one of
/// their anchors valid at `depart`, departing no earlier than `depart`?
pub open spec fn first_event_verdict(v: RepoView, person: PersonId, window: Interval, depart: Timestamp) -> Feasibility {
    match first_placed(v, person, window, depart) {
        None => Feasibility::Unknown,
        Some(first) => {
            let gap_s = (first.window.lo() - depart.0) / 1_000_000;
            let anchors = v.anchors.filter(|a: Anchors| a.person == person && a.during.contains_spec(depart.0 as int));
            best_upto(v, anchors, first, gap_s, anchors.len() as int)
        },
    }
}

impl Engine {
    /// The primary hold's location of an event, if it is held.
    fn primary_location(&self, event: crate::model::EventId) -> (r: Option<LocationId>)
        ensures
            r == (match placement(self@, Attends { event, ..arbitrary() }) {
                Some(p) => Some(p.location),
                None => None,
            }),
    {
        let holds = self.repo.held_for_event(event);
        let ghost key = |h: Held| hold_key(h);
        let mut keyed: Vec<(Vec<u128>, Held)> = Vec::new();
        let mut i: usize = 0;
        while i < holds.len()
            invariant
                i <= holds@.len(),
                key == (|h: Held| hold_key(h)),
                keyed_by(keyed@, key),
                payloads(keyed@) == holds@.take(i as int),
            decreases holds@.len() - i,
        {
            let h = holds[i];
            let mut k: Vec<u128> = Vec::new();
            k.push(if h.overflow_for.is_some() { 1u128 } else { 0u128 });
            k.push(h.location.0);
            assert(k@ =~= hold_key(h));
            let ghost before = keyed@;
            keyed.push((k, h));
            assert(payloads(keyed@) =~= payloads(before).push(h));
            assert(holds@.take(i + 1) =~= holds@.take(i as int).push(h));
            i += 1;
        }
        assert(holds@.take(holds@.len() as int) =~= holds@);
        let sorted = sorted_payloads(keyed, Ghost(key));
        if sorted.len() == 0 {
            None
        } else {
            Some(sorted[0].location)
        }
    }

    /// Join a person's attendance (plus overlay edges) to placed events.
    fn placed_for(&self, person: PersonId, window: Interval, overlay: &[Attends]) -> (r: Vec<Placed>)
        ensures
            r@ == placed_spec(self@, person, window, overlay@),
    {
        let mut attends = self.repo.attends_for(person, window);
        let ghost stored = attends@;
        let ghost opred = |a: Attends| a.person == person;
        let mut i: usize = 0;
        while i < overlay.len()
            invariant
                i <= overlay@.len(),
                opred == (|a: Attends| a.person == person),
                attends@ == stored + overlay@.take(i as int).filter(opred),
            decreases overlay@.len() - i,
        {
            let a = overlay[i];
            proof {
                assert(overlay@.take(i + 1) =~= overlay@.take(i as int).push(a));
                overlay@.take(i as int).lemma_filter_push(a, opred);
            }
            if a.person == person {
                attends.push(a);
            }
            assert(attends@ =~= stored + overlay@.take(i + 1).filter(opred));
            i += 1;
        }
        assert(overlay@.take(overlay@.len() as int) =~= overlay@);
        let ghost all = attends@;
        assert(all == attendance_with(self@, person, window, overlay@));
        let mut out: Vec<Placed> = Vec::new();
        let mut j: usize = 0;
        while j < attends.len()
            invariant
                j <= all.len(),
                attends@ == all,
                out@ == placed_upto(self@, all, j as int),
            decreases all.len() - j,
        {
            let a = attends[j];
            let loc = self.primary_location(a.event);
            assert(placement(self@, a) == (match loc {
                Some(l) => Some(Placed { event: a.event, location: l, window: a.during }),
                None => None,
            }));
            if let Some(l) = loc {
                out.push(Placed { event: a.event, location: l, window: a.during });
            }
            j += 1;
        }
        out
    }

    /// Can `person` reach their first placed event in `window` from one of
    /// their anchors, departing no earlier than `depart_not_before`? A
    /// verdict only: durations and provenance, never an anchor or a
    /// location. `Feasible` if any anchor makes it, else the least-bad
    /// known route's `Infeasible`, else `Unknown`.
    pub fn first_event_feasibility(&self, person: PersonId, window: Interval, depart_not_before: Timestamp) -> (r: Result<Feasibility, OrreryError>)
        ensures
            r == Ok::<Feasibility, OrreryError>(first_event_verdict(self@, person, window, depart_not_before)),
    {
        let placed = self.placed_for(person, window, &[]);
        let ghost empty: Seq<Attends> = seq![];
        assert(placed@ == placed_spec(self@, person, window, empty));
        let ghost pred = |p: Placed| p.window.lo() >= depart_not_before.0;
        let ghost key = |p: Placed| start_key(p);
        let mut keyed: Vec<(Vec<u128>, Placed)> = Vec::new();
        let mut i: usize = 0;
        while i < placed.len()
            invariant
                i <= placed@.len(),
                pred == (|p: Placed| p.window.lo() >= depart_not_before.0),
                key == (|p: Placed| start_key(p)),
                keyed_by(keyed@, key),
                payloads(keyed@) == placed@.take(i as int).filter(pred),
            decreases placed@.len() - i,
        {
            let p = placed[i];
            proof {
                assert(placed@.take(i + 1) =~= placed@.take(i as int).push(p));
                placed@.take(i as int).lemma_filter_push(p, pred);
            }
            if p.window.start().0 >= depart_not_before.0 {
                let mut k: Vec<u128> = Vec::new();
                k.push(ts_key(p.window.start().0));
                k.push(p.event.0);
                assert(k@ =~= start_key(p));
                let ghost before = keyed@;
                keyed.push((k, p));
                assert(payloads(keyed@) =~= payloads(before).push(p));
            }
            i += 1;
        }
        assert(placed@.take(placed@.len() as int) =~= placed@);
        let candidates = sorted_payloads(keyed, Ghost(key));
        if candidates.len() == 0 {
            return Ok(Feasibility::Unknown);
        }
        let first = candidates[0];
        proof {
            let filtered = placed@.filter(pred);
            crate::order::lemma_stable_sort(filtered, key);
            assert(candidates@[0] == first);
            assert(candidates@.contains(first));
            vstd::seq_lib::to_multiset_contains(candidates@, first);
            vstd::seq_lib::to_multiset_contains(filtered, first);
            assert(filtered.contains(first));
            assert(pred(first));
        }
        let diff: i128 = first.window.start().0 as i128 - depart_not_before.0 as i128;
        assert(0 <= diff <= 0x1_0000_0000_0000_0000);
        let q: i128 = diff / 1_000_000i128;
        assert(q <= diff);
        let gap_s: i64 = q as i64;
        let ghost g = (first.window.lo() - depart_not_before.0) / 1_000_000;
        assert(gap_s == g);
        let anchors = self.repo.anchors_for(person, depart_not_before);
        let mut best = Feasibility::Unknown;
        let mut k: usize = 0;
        while k < anchors.len()
            invariant
                k <= anchors@.len(),
                best == best_upto(self@, anchors@, first, g, k as int),
                gap_s == g,
                0 <= g,
            decreases anchors@.len() - k,
        {
            let anchor = &anchors[k];
            let verdict = if anchor.structure == first.location {
                Feasibility::Feasible { slack_s: gap_s }
            } else {
                match self.repo.travel_best(anchor.structure, first.location) {
                    None => Feasibility::Unknown,
                    Some(cost) => {
                        if gap_s >= cost.duration_s {
                            Feasibility::Feasible { slack_s: #[verifier::truncate] ((gap_s as i128 - cost.duration_s as i128) as i64) }
                        } else {
                            Feasibility::Infeasible {
                                deficit_s: #[verifier::truncate] ((cost.duration_s as i128 - gap_s as i128) as i64),
                                provenance: cost.provenance,
                            }
                        }
                    },
                }
            };
            assert(verdict == anchor_verdict(self@, anchors@[k as int], first, g));
            best = match (best, verdict) {
                (Feasibility::Feasible { slack_s: a }, Feasibility::Feasible { slack_s: b }) => Feasibility::Feasible {
                    slack_s: if a >= b { a } else { b },
                },
                (Feasibility::Feasible { .. }, _) => best,
                (_, Feasibility::Feasible { .. }) => verdict,
                (Feasibility::Infeasible { deficit_s: a, .. }, Feasibility::Infeasible { deficit_s: b, .. }) => {
                    if b < a {
                        verdict
                    } else {
                        best
                    }
                },
                (Feasibility::Infeasible { .. }, Feasibility::Unknown) => best,
                (Feasibility::Unknown, _) => verdict,
            };
            k += 1;
        }
        Ok(best)
    }
}

/// The stored digest record of a person, if any.
pub open spec fn stored_record(v: RepoView, pid: PersonId) -> Option<DigestRecord> {
    match find_where(v.persons, person_is(pid)) {
        Some(p) => p.derived_digest,
        None => None,
    }
}

/// The stored digest of a person, if any.
pub open spec fn stored_digest(v: RepoView, pid: PersonId) -> Option<Seq<u8>> {
    match stored_record(v, pid) {
        Some(d) => Some(d.digest@),
        None => None,
    }
}

/// The digest of a person's derived-edge identity set over mirrored facts.
pub open spec fn fresh_digest(w: (Seq<MemberOf>, Seq<SubgroupOf>, Seq<ExpectKey>), pid: PersonId, at: Timestamp) -> Seq<u8> {
    crate::derive::digest_spec(derived_ids_spec(w, pid, at.0 as int))
}

/// The bytes of an optional digest.
pub open spec fn opt_bytes(d: Option<[u8; 32]>) -> Option<Seq<u8>> {
    match d {
        Some(a) => Some(a@),
        None => None,
    }
}

/// Every person with their stored digest, ascending by person.
pub open spec fn stored_pairs(v: RepoView) -> Seq<(PersonId, Option<Seq<u8>>)> {
    person_list(v).map_values(|pid: PersonId| (pid, stored_digest(v, pid)))
}

/// The persons among `pairs` whose fresh digest over `w` differs from the
/// stored one.
pub open spec fn changes_over(w: (Seq<MemberOf>, Seq<SubgroupOf>, Seq<ExpectKey>), pairs: Seq<(PersonId, Option<Seq<u8>>)>, at: Timestamp) -> Seq<PersonId> {
    pairs.filter(|e: (PersonId, Option<Seq<u8>>)| e.1 != Some(fresh_digest(w, e.0, at))).map_values(
        |e: (PersonId, Option<Seq<u8>>)| e.0,
    )
}

/// The change set of a digest refresh on `v` evaluated over the world `w`.
pub open spec fn changes_spec(w: (Seq<MemberOf>, Seq<SubgroupOf>, Seq<ExpectKey>), v: RepoView, at: Timestamp) -> Seq<PersonId> {
    changes_over(w, stored_pairs(v), at)
}

/// Byte equality of two digests.
pub fn digest_eq(a: &[u8; 32], b: &[u8; 32]) -> (r: bool)
    ensures
        r == (a@ == b@),
{
    let mut i: usize = 0;
    while i < 32
        invariant
            i <= 32,
            a@.len() == 32,
            b@.len() == 32,
            forall|k: int| 0 <= k < i ==> a@[k] == b@[k],
        decreases 32 - i,
    {
        if a[i] != b[i] {
            return false;
        }
        i += 1;
    }
    assert(a@ =~= b@);
    true
}

/// A stored person identifier names a stored person.
proof fn lemma_listed_person(v: RepoView, pid: PersonId)
    requires
        person_list(v).contains(pid),
        crate::order::strictly_increasing(person_keys(person_list(v))),
        person_keys(person_list(v)).to_set() == person_ids(v),
    ensures
        first_where(v.persons, person_is(pid)) < v.persons.len(),
{
    let l = person_list(v);
    let k = choose|k: int| 0 <= k < l.len() && l[k] == pid;
    let ids = v.persons.map_values(|p: Person| p.id.0);
    assert(person_keys(l)[k] == pid.0);
    assert(person_keys(l).to_set().contains(pid.0));
    assert(ids.to_set().contains(pid.0));
    let j = choose|j: int| 0 <= j < ids.len() && ids[j] == pid.0;
    assert(v.persons[j].id == pid);
    crate::repo::lemma_first_where(v.persons, person_is(pid));
    assert(person_is(pid)(v.persons[j]));
}

impl Engine {
    /// The digest of a person's derived-edge identity set at `at`.
    pub fn digest(&self, person: PersonId, at: Timestamp) -> (r: [u8; 32])
        requires
            self.wf(),
        ensures
            r@ == fresh_digest(mirror_spec(self@), person, at),
    {
        incremental::digest(&self.world, person, at.0)
    }

    /// The stored digest of a person, as stored.
    fn stored_of(&self, pid: PersonId) -> (r: Option<[u8; 32]>)
        ensures
            opt_bytes(r) == stored_digest(self@, pid),
            r matches Some(a) ==> stored_record(self@, pid) matches Some(d) && d.digest == a,
            r is None ==> stored_record(self@, pid) is None,
    {
        match self.repo.person(pid) {
            Some(p) => match p.derived_digest {
                Some(d) => Some(d.digest),
                None => None,
            },
            None => None,
        }
    }

    /// Persons whose fresh digest over `world` differs from their stored
    /// record.
    fn digest_changes(world: &World, stored: &Vec<(PersonId, Option<[u8; 32]>)>, at: Timestamp) -> (r: Vec<PersonId>)
        ensures
            r@ == changes_over(world_view(world), stored@.map_values(|e: (PersonId, Option<[u8; 32]>)| (e.0, opt_bytes(e.1))), at),
    {
        let ghost pairs = stored@.map_values(|e: (PersonId, Option<[u8; 32]>)| (e.0, opt_bytes(e.1)));
        let ghost w = world_view(world);
        let ghost pred = |e: (PersonId, Option<Seq<u8>>)| e.1 != Some(fresh_digest(w, e.0, at));
        let ghost f = |e: (PersonId, Option<Seq<u8>>)| e.0;
        let mut out: Vec<PersonId> = Vec::new();
        let mut i: usize = 0;
        while i < stored.len()
            invariant
                i <= stored@.len(),
                pairs == stored@.map_values(|e: (PersonId, Option<[u8; 32]>)| (e.0, opt_bytes(e.1))),
                w == world_view(world),
                pred == (|e: (PersonId, Option<Seq<u8>>)| e.1 != Some(fresh_digest(w, e.0, at))),
                f == (|e: (PersonId, Option<Seq<u8>>)| e.0),
                out@ == pairs.take(i as int).filter(pred).map_values(f),
            decreases stored@.len() - i,
        {
            let (pid, s) = stored[i];
            let fresh = incremental::digest(world, pid, at.0);
            let same = match s {
                Some(a) => digest_eq(&a, &fresh),
                None => false,
            };
            proof {
                assert(pairs[i as int] == (pid, opt_bytes(s)));
                assert(pairs.take(i + 1) =~= pairs.take(i as int).push(pairs[i as int]));
                pairs.take(i as int).lemma_filter_push(pairs[i as int], pred);
                assert(same == !pred(pairs[i as int]));
            }
            if !same {
                out.push(pid);
            }
            assert(out@ =~= pairs.take(i + 1).filter(pred).map_values(f));
            i += 1;
        }
        assert(pairs.take(pairs.len() as int) =~= pairs);
        out
    }

    /// Every person with their stored digest, ascending by person.
    fn stored_digests(&self) -> (r: Vec<(PersonId, Option<[u8; 32]>)>)
        ensures
            r@.map_values(|e: (PersonId, Option<[u8; 32]>)| (e.0, opt_bytes(e.1))) == stored_pairs(self@),
    {
        let pids = self.repo.persons();
        let mut out: Vec<(PersonId, Option<[u8; 32]>)> = Vec::new();
        let mut i: usize = 0;
        while i < pids.len()
            invariant
                i <= pids@.len(),
                pids@ == person_list(self@),
                out@.map_values(|e: (PersonId, Option<[u8; 32]>)| (e.0, opt_bytes(e.1))) == stored_pairs(self@).take(i as int),
            decreases pids@.len() - i,
        {
            let pid = pids[i];
            let s = self.stored_of(pid);
            let ghost before = out@;
            out.push((pid, s));
            assert(stored_pairs(self@)[i as int] == (pid, stored_digest(self@, pid)));
            assert(out@.map_values(|e: (PersonId, Option<[u8; 32]>)| (e.0, opt_bytes(e.1))) =~= before.map_values(
                |e: (PersonId, Option<[u8; 32]>)| (e.0, opt_bytes(e.1)),
            ).push((pid, opt_bytes(s))));
            assert(out@.map_values(|e: (PersonId, Option<[u8; 32]>)| (e.0, opt_bytes(e.1))) =~= stored_pairs(self@).take(i + 1));
            i += 1;
        }
        assert(stored_pairs(self@).take(pids@.len() as int) =~= stored_pairs(self@));
        out
    }
}

/// Persons' identifiers kept index by index.
proof fn lemma_same_ids_first_where(s: Seq<Person>, t: Seq<Person>, q: PersonId)
    requires
        s.len() == t.len(),
        forall|k: int| 0 <= k < s.len() ==> (#[trigger] s[k]).id == t[k].id,
    ensures
        first_where(s, person_is(q)) == first_where(t, person_is(q)),
{
    crate::repo::lemma_first_where(t, person_is(q));
    let f = first_where(t, person_is(q));
    assert forall|j: int| 0 <= j < f implies !person_is(q)(#[trigger] s[j]) by {
        assert(!person_is(q)(t[j]));
    }
    if f < t.len() {
        assert(person_is(q)(t[f]));
    }
    crate::repo::lemma_first_where_is(s, person_is(q), f);
}

/// The mirrored world a digest preview evaluates for `cmd`: the current
/// mirror with the command's would-be fact appended, for the three fact
/// classes the derivation reads.
pub open spec fn overlay_world(v: RepoView, cmd: Command) -> Option<(Seq<MemberOf>, Seq<SubgroupOf>, Seq<ExpectKey>)> {
    let w = mirror_spec(v);
    match cmd {
        Command::AddMembership { person, group, during, role } => Some(
            (w.0.push(MemberOf { person, group, during, role }), w.1, w.2),
        ),
        Command::AddSubgroup { child, parent, during } => Some((w.0, w.1.push(SubgroupOf { child, parent, during }), w.2)),
        Command::AddExpectation { group, event, default_priority, during, cascades, .. } => Some(
            (
                w.0,
                w.1,
                w.2.push(
                    ExpectKey {
                        group,
                        event,
                        valid_from: Timestamp(during.lo() as i64),
                        valid_to_excl: Timestamp(during.hi() as i64),
                        cascades,
                        priority_key: default_priority.0,
                    },
                ),
            ),
        ),
        _ => None,
    }
}

/// A digest refresh is idempotent: in the state a refresh leaves behind,
/// a second refresh at the same instant reports no change.
pub proof fn lemma_refresh_digests_idempotent(v0: RepoView, v1: RepoView, at: Timestamp)
    requires
        v1 == (RepoView { persons: v1.persons, seq: v1.seq, ..v0 }),
        v1.persons.len() == v0.persons.len(),
        forall|k: int| 0 <= k < v0.persons.len() ==> (#[trigger] v1.persons[k]) == (Person {
            derived_digest: v1.persons[k].derived_digest,
            ..v0.persons[k]
        }),
        forall|pid: PersonId| #[trigger] person_list(v0).contains(pid) ==> stored_digest(v1, pid) == Some(
            fresh_digest(mirror_spec(v0), pid, at),
        ),
    ensures
        changes_spec(mirror_spec(v1), v1, at).len() == 0,
{
    assert(v1.persons.map_values(|p: Person| p.id.0) =~= v0.persons.map_values(|p: Person| p.id.0));
    assert(person_ids(v1) == person_ids(v0));
    assert(person_list(v1) == person_list(v0));
    assert(mirror_spec(v1) == mirror_spec(v0));
    let w = mirror_spec(v1);
    let pairs = stored_pairs(v1);
    let keep = |e: (PersonId, Option<Seq<u8>>)| e.1 != Some(fresh_digest(w, e.0, at));
    assert forall|i: int| 0 <= i < pairs.len() implies !keep(#[trigger] pairs[i]) by {
        let pid = person_list(v1)[i];
        assert(person_list(v0).contains(pid));
    }
    lemma_filter_none(pairs, keep);
}

impl Engine {
    /// Recompute every person's digest at `at`; persist the changed ones
    /// on the person record and return exactly the changed set, ascending.
    pub fn refresh_digests(&mut self, at: Timestamp) -> (r: Result<Vec<PersonId>, OrreryError>)
        requires
            old(self).wf(),
        ensures
            final(self).wf(),
            final(self).policy_map() == old(self).policy_map(),
            r matches Ok(changed) && changed@ == changes_spec(mirror_spec(old(self)@), old(self)@, at),
            final(self)@ == (RepoView { persons: final(self)@.persons, seq: final(self)@.seq, ..old(self)@ }),
            final(self)@.persons.len() == old(self)@.persons.len(),
            forall|k: int| 0 <= k < old(self)@.persons.len() ==> (#[trigger] final(self)@.persons[k]) == (Person {
                derived_digest: final(self)@.persons[k].derived_digest,
                ..old(self)@.persons[k]
            }),
            forall|pid: PersonId| #[trigger] person_list(old(self)@).contains(pid) ==> stored_digest(final(self)@, pid) == Some(
                fresh_digest(mirror_spec(old(self)@), pid, at),
            ),
            forall|pid: PersonId| #[trigger] person_list(old(self)@).contains(pid) ==> (if stored_digest(old(self)@, pid)
                == Some(fresh_digest(mirror_spec(old(self)@), pid, at)) {
                stored_record(final(self)@, pid) == stored_record(old(self)@, pid)
            } else {
                stored_record(final(self)@, pid) matches Some(d) && d.at == at
            }),
    {
        let ghost v0 = self.repo@;
        let ghost w = mirror_spec(v0);
        let pids = self.persons_sorted();
        let ghost pairs = stored_pairs(v0);
        let ghost pred = |e: (PersonId, Option<Seq<u8>>)| e.1 != Some(fresh_digest(w, e.0, at));
        let ghost f = |e: (PersonId, Option<Seq<u8>>)| e.0;
        let mut changed: Vec<PersonId> = Vec::new();
        let mut i: usize = 0;
        while i < pids.len()
            invariant
                i <= pids@.len(),
                pids@ == person_list(v0),
                crate::order::strictly_increasing(person_keys(pids@)),
                person_keys(pids@).to_set() == person_ids(v0),
                w == mirror_spec(v0),
                pairs == stored_pairs(v0),
                pred == (|e: (PersonId, Option<Seq<u8>>)| e.1 != Some(fresh_digest(w, e.0, at))),
                f == (|e: (PersonId, Option<Seq<u8>>)| e.0),
                self.wf(),
                world_view(&self.world) == w,
                self.policies == old(self).policies,
                self.repo@ == (RepoView { persons: self.repo@.persons, seq: self.repo@.seq, ..v0 }),
                self.repo@.persons.len() == v0.persons.len(),
                forall|k: int| 0 <= k < v0.persons.len() ==> (#[trigger] self.repo@.persons[k]) == (Person {
                    derived_digest: self.repo@.persons[k].derived_digest,
                    ..v0.persons[k]
                }),
                forall|j: int| i <= j < pids@.len() ==> stored_record(self.repo@, #[trigger] pids@[j]) == stored_record(v0, pids@[j]),
                forall|j: int| 0 <= j < i ==> stored_digest(self.repo@, #[trigger] pids@[j]) == Some(fresh_digest(w, pids@[j], at)),
                forall|j: int| 0 <= j < i ==> (if stored_digest(v0, #[trigger] pids@[j]) == Some(fresh_digest(w, pids@[j], at)) {
                    stored_record(self.repo@, pids@[j]) == stored_record(v0, pids@[j])
                } else {
                    stored_record(self.repo@, pids@[j]) matches Some(d) && d.at == at
                }),
                changed@ == pairs.take(i as int).filter(pred).map_values(f),
            decreases pids@.len() - i,
        {
            let pid = pids[i];
            let fresh = incremental::digest(&self.world, pid, at.0);
            let stored = self.stored_of(pid);
            let same = match stored {
                Some(a) => digest_eq(&a, &fresh),
                None => false,
            };
            let ghost cur = self.repo@;
            proof {
                assert(pairs[i as int] == (pid, stored_digest(v0, pid)));
                assert(pairs.take(i + 1) =~= pairs.take(i as int).push(pairs[i as int]));
                pairs.take(i as int).lemma_filter_push(pairs[i as int], pred);
                assert(same == !pred(pairs[i as int]));
                assert(person_list(v0).contains(pid)) by {
                    assert(pids@[i as int] == pid);
                }
                lemma_listed_person(v0, pid);
                assert forall|k: int| 0 <= k < cur.persons.len() implies (#[trigger] cur.persons[k]).id == v0.persons[k].id by {
                    assert(cur.persons[k] == (Person { derived_digest: cur.persons[k].derived_digest, ..v0.persons[k] }));
                }
                lemma_same_ids_first_where(cur.persons, v0.persons, pid);
                assert(first_where(cur.persons, person_is(pid)) < cur.persons.len());
            }
            if !same {
                let rc = self.repo.apply(Command::SetDerivedDigest { person: pid, digest: fresh, at });
                match rc {
                    Ok(_) => {},
                    Err(e) => {
                        return Err(e);
                    },
                }
                proof {
                    let fi = first_where(cur.persons, person_is(pid));
                    crate::repo::lemma_first_where(cur.persons, person_is(pid));
                    assert(0 <= fi < cur.persons.len());
                    assert(cur.persons.len() == v0.persons.len());
                    let np = Person { derived_digest: Some(DigestRecord { digest: fresh, at }), ..cur.persons[fi] };
                    assert(self.repo@.persons == cur.persons.update(fi, np));
                    assert forall|q: PersonId| true implies first_where(self.repo@.persons, person_is(q)) == first_where(
                        cur.persons,
                        person_is(q),
                    ) && find_where(self.repo@.persons, person_is(q)) == (if first_where(cur.persons, person_is(q)) == fi {
                        Some(np)
                    } else {
                        find_where(cur.persons, person_is(q))
                    }) by {
                        crate::repo::lemma_first_where_update(cur.persons, person_is(q), fi, np);
                    }
                    assert forall|j: int| 0 <= j < pids@.len() && j != i implies stored_record(self.repo@, #[trigger] pids@[j])
                        == stored_record(cur, pids@[j]) by {
                        let q = pids@[j];
                        assert(person_keys(pids@)[j] != person_keys(pids@)[i as int]);
                        crate::repo::lemma_first_where(cur.persons, person_is(pid));
                        if first_where(cur.persons, person_is(q)) == fi {
                            crate::repo::lemma_first_where(cur.persons, person_is(q));
                            assert(cur.persons[fi].id == q);
                            assert(cur.persons[fi].id == pid);
                        }
                    }
                    assert(stored_record(self.repo@, pid) == Some(DigestRecord { digest: fresh, at }));
                    assert forall|k: int| 0 <= k < v0.persons.len() implies (#[trigger] self.repo@.persons[k]) == (Person {
                        derived_digest: self.repo@.persons[k].derived_digest,
                        ..v0.persons[k]
                    }) by {
                        if k != fi {
                            assert(self.repo@.persons[k] == cur.persons[k]);
                        }
                    }
                    assert(self.repo@.member_of == v0.member_of);
                }
                changed.push(pid);
            }
            assert(changed@ =~= pairs.take(i + 1).filter(pred).map_values(f));
            i += 1;
        }
        assert(pairs.take(pids@.len() as int) =~= pairs);
        proof {
            assert forall|pid: PersonId| #[trigger] person_list(v0).contains(pid) implies stored_digest(self.repo@, pid) == Some(
                fresh_digest(w, pid, at),
            ) by {
                let j = choose|j: int| 0 <= j < pids@.len() && pids@[j] == pid;
            }
            assert forall|pid: PersonId| #[trigger] person_list(v0).contains(pid) implies (if stored_digest(v0, pid) == Some(
                fresh_digest(w, pid, at),
            ) {
                stored_record(self.repo@, pid) == stored_record(v0, pid)
            } else {
                stored_record(self.repo@, pid) matches Some(d) && d.at == at
            }) by {
                let j = choose|j: int| 0 <= j < pids@.len() && pids@[j] == pid;
            }
        }
        Ok(changed)
    }

    /// The person identifiers, ascending, with their order facts.
    fn persons_sorted(&self) -> (r: Vec<PersonId>)
        ensures
            r@ == person_list(self@),
            crate::order::strictly_increasing(person_keys(r@)),
            person_keys(r@).to_set() == person_ids(self@),
    {
        let r = self.repo.persons();
        assert(person_keys(r@) =~= r@.map_values(|p: PersonId| p.0));
        r
    }
}

impl Engine {
    /// Non-persisting digest dry-run: the change set that `apply(cmd)`
    /// followed by `refresh_digests(at)` would produce, without writing
    /// anything. Supported for exactly the three mirrored fact classes;
    /// any other kind is a typed error.
    pub fn preview_digests(&self, cmd: &Command, at: Timestamp) -> (r: Result<Vec<PersonId>, OrreryError>)
        requires
            self.wf(),
        ensures
            r is Ok <==> overlay_world(self@, *cmd) is Some,
            r matches Err(e) ==> e == (OrreryError::PreviewUnsupported { kind: kind_name(cmd) }),
            r matches Ok(changed) ==> changed@ == changes_spec(overlay_world(self@, *cmd).unwrap(), self@, at),
    {
        let world = match cmd {
            Command::AddMembership { person, group, during, role } => {
                let mut v = self.repo.memberships_all();
                v.push(MemberOf { person: *person, group: *group, during: *during, role: *role });
                World::new(v, self.repo.subgroups_all(), incremental::mirror_from(&self.repo).2)
            },
            Command::AddSubgroup { child, parent, during } => {
                let mut v = self.repo.subgroups_all();
                v.push(SubgroupOf { child: *child, parent: *parent, during: *during });
                World::new(self.repo.memberships_all(), v, incremental::mirror_from(&self.repo).2)
            },
            Command::AddExpectation { group, event, default_priority, during, cascades, .. } => {
                let (_, _, mut keys) = incremental::mirror_from(&self.repo);
                keys.push(
                    ExpectKey {
                        group: *group,
                        event: *event,
                        valid_from: during.start(),
                        valid_to_excl: during.end(),
                        cascades: *cascades,
                        priority_key: default_priority.0,
                    },
                );
                World::new(self.repo.memberships_all(), self.repo.subgroups_all(), keys)
            },
            other => {
                return Err(OrreryError::PreviewUnsupported { kind: other.kind() });
            },
        };
        let stored = self.stored_digests();
        Ok(Self::digest_changes(&world, &stored, at))
    }
}

/// A digest preview names exactly the change set that committing the
/// command and refreshing digests afterwards reports: for every command
/// the engine accepts among the three previewable kinds, the refresh over
/// the committed state equals the preview over the current one.
pub proof fn lemma_preview_matches_commit(v: RepoView, policies: PolicyMap, cmd: Command, at: Timestamp)
    requires
        overlay_world(v, cmd) is Some,
        engine_refusal(v, policies, cmd) is None,
    ensures
        changes_spec(mirror_spec(applied(v, cmd)), applied(v, cmd), at) == changes_spec(
            overlay_world(v, cmd).unwrap(),
            v,
            at,
        ),
{
    let v2 = applied(v, cmd);
    assert(v2.persons == v.persons);
    assert(person_ids(v2) == person_ids(v));
    assert(stored_pairs(v2) =~= stored_pairs(v)) by {
        assert forall|k: int| 0 <= k < stored_pairs(v).len() implies stored_pairs(v2)[k] == stored_pairs(v)[k] by {
            let pid = person_list(v)[k];
            assert(stored_digest(v2, pid) == stored_digest(v, pid));
        }
    }
    match cmd {
        Command::AddExpectation { group, event, obligation, default_priority, during, cascades, by } => {
            let x = Expects {
                group,
                event,
                obligation,
                default_priority,
                during,
                cascades,
                can_decline: true,
                set_by: by,
                set_at: Timestamp(during.lo() as i64),
            };
            assert(v2.expects == v.expects.push(x));
            assert(v2.expects.map_values(|x: Expects| incremental::expect_key_of(x)) =~= v.expects.map_values(
                |x: Expects| incremental::expect_key_of(x),
            ).push(incremental::expect_key_of(x)));
            assert(mirror_spec(v2) == overlay_world(v, cmd).unwrap());
        },
        Command::AddMembership { .. } => {
            assert(mirror_spec(v2) == overlay_world(v, cmd).unwrap());
        },
        Command::AddSubgroup { .. } => {
            assert(mirror_spec(v2) == overlay_world(v, cmd).unwrap());
        },
        _ => {},
    }
}

// ------------------------------------------------------------------ sweep

/// Order rank of a violation kind (declaration order).
pub open spec fn kind_rank(k: ViolationKind) -> u128 {
    match k {
        ViolationKind::TimeConflict => 0,
        ViolationKind::LocationExclusivity => 1,
        ViolationKind::ContainmentExclusivity => 2,
        ViolationKind::ImpossibleTravel => 3,
        ViolationKind::CapacityExceeded => 4,
        ViolationKind::OrphanEvent => 5,
        ViolationKind::ExpiredMembershipEffect => 6,
    }
}

/// Order key of an entity reference: variant rank, then identifier.
pub open spec fn ref_key(r: EntityRef) -> Seq<u128> {
    match r {
        EntityRef::Person(x) => seq![0u128, x.0],
        EntityRef::Group(x) => seq![1u128, x.0],
        EntityRef::Event(x) => seq![2u128, x.0],
        EntityRef::Location(x) => seq![3u128, x.0],
        EntityRef::Violation(x) => seq![4u128, x.0],
    }
}

/// Order key of a subject list: the keys of its references in turn.
pub open spec fn refs_key(s: Seq<EntityRef>) -> Seq<u128>
    decreases s.len(),
{
    if s.len() == 0 {
        seq![]
    } else {
        refs_key(s.drop_last()) + ref_key(s.last())
    }
}

/// Order of drafts within a sweep: by kind, then by subjects
/// (lexicographically).
pub open spec fn draft_key(d: DraftView) -> Seq<u128> {
    seq![kind_rank(d.kind)] + refs_key(d.subjects)
}

/// A sequence with each run of equal neighbours kept once.
pub open spec fn dedup_adjacent(s: Seq<DraftView>) -> Seq<DraftView>
    decreases s.len(),
{
    if s.len() <= 1 {
        s
    } else if s.last() == s[s.len() - 2] {
        dedup_adjacent(s.drop_last())
    } else {
        dedup_adjacent(s.drop_last()).push(s.last())
    }
}

/// The attendance edges of a person in `window`.
pub open spec fn person_window(v: RepoView, pid: PersonId, window: Interval) -> Seq<Attends> {
    v.attends.filter(|a: Attends| a.person == pid && a.during.overlaps_with(window))
}

/// The drafts of one person: time conflicts, then impossible travel.
pub open spec fn person_drafts(v: RepoView, pid: PersonId, window: Interval) -> Seq<DraftView> {
    time_conflicts(person_window(v, pid, window), pid) + travel_violations(
        pid,
        placed_spec(v, pid, window, seq![]),
        |a: LocationId, b: LocationId| travel_spec(v, a, b, None),
    )
}

/// Person-partitioned drafts over the first `n` persons.
pub open spec fn persons_drafts(v: RepoView, pids: Seq<PersonId>, window: Interval, n: int) -> Seq<DraftView>
    decreases n,
{
    if n <= 0 {
        seq![]
    } else {
        persons_drafts(v, pids, window, n - 1) + person_drafts(v, pids[n - 1], window)
    }
}

/// The holds at a location overlapping `window`.
pub open spec fn location_window(v: RepoView, lid: LocationId, window: Interval) -> Seq<Held> {
    v.held.filter(|h: Held| h.location == lid && h.during.overlaps_with(window))
}

/// Location-exclusivity drafts over the first `n` locations.
pub open spec fn locations_drafts(v: RepoView, lids: Seq<LocationId>, window: Interval, n: int) -> Seq<DraftView>
    decreases n,
{
    if n <= 0 {
        seq![]
    } else {
        locations_drafts(v, lids, window, n - 1) + exclusivity_violations(location_window(v, lids[n - 1], window), lids[n - 1])
    }
}

/// The holds in `window` of the first `n` locations, location by location.
pub open spec fn holds_upto(v: RepoView, lids: Seq<LocationId>, window: Interval, n: int) -> Seq<Held>
    decreases n,
{
    if n <= 0 {
        seq![]
    } else {
        holds_upto(v, lids, window, n - 1) + location_window(v, lids[n - 1], window)
    }
}

/// The base capacity of a location, if it has one.
pub open spec fn location_capacity(v: RepoView, lid: LocationId) -> Option<u32> {
    match find_where(v.locations, location_is(lid)) {
        Some(l) => l.capacity,
        None => None,
    }
}

/// The group seed of a self-selected edge: the key of `0.0`.
pub open spec fn zero_priority() -> Priority {
    Priority(0x8000_0000)
}

/// Event-partitioned drafts of one event given the sweep's holds: orphan,
/// then capacity. Events outside `window` give none.
pub open spec fn event_drafts(v: RepoView, e: Event, holds: Seq<Held>, window: Interval) -> Seq<DraftView> {
    if !e.window.overlaps_with(window) {
        seq![]
    } else {
        let hs = holds.filter(|h: Held| h.event == e.id);
        let orphan = if housed(e, hs) {
            seq![]
        } else {
            seq![DraftView { kind: ViolationKind::OrphanEvent, severity: SEVERITY_ORPHAN_EVENT, subjects: seq![EntityRef::Event(e.id)] }]
        };
        let signalled = (interested(v.attends.filter(|a: Attends| a.event == e.id), e.id, zero_priority()).len()
            % 0x1_0000_0000) as u32;
        orphan + capacity_drafts(e.id, hs, signalled, |l: LocationId| location_capacity(v, l))
    }
}

/// Event-partitioned drafts over the first `n` events.
pub open spec fn events_drafts(v: RepoView, evs: Seq<Event>, holds: Seq<Held>, window: Interval, n: int) -> Seq<DraftView>
    decreases n,
{
    if n <= 0 {
        seq![]
    } else {
        events_drafts(v, evs, holds, window, n - 1) + event_drafts(v, evs[n - 1], holds, window)
    }
}

/// Every detector's drafts over the whole population, before ordering.
pub open spec fn raw_drafts(v: RepoView, window: Interval) -> Seq<DraftView> {
    let pids = person_list(v);
    let lids = location_list(v);
    let evs = stable_sort_by(v.events, |e: Event| event_id_key(e));
    let holds = holds_upto(v, lids, window, lids.len() as int);
    persons_drafts(v, pids, window, pids.len() as int) + locations_drafts(v, lids, window, lids.len() as int)
        + containment_violations(holds, v.within) + events_drafts(v, evs, holds, window, evs.len() as int)
}

/// A sweep's drafts: ordered by kind and subjects, duplicates removed.
pub open spec fn sweep_drafts(v: RepoView, window: Interval) -> Seq<DraftView> {
    dedup_adjacent(stable_sort_by(raw_drafts(v, window), |d: DraftView| draft_key(d)))
}

/// The open violation records, by identifier.
pub open spec fn open_records(v: RepoView) -> Seq<ViolationView> {
    stable_sort_by(v.violations.filter(|x: ViolationView| x.resolved_at is None), |x: ViolationView| crate::repo::memory::violation_id_key(x))
}

/// Some open record has the draft's kind and subjects.
pub open spec fn already_open(open: Seq<ViolationView>, d: DraftView) -> bool {
    exists|k: int| 0 <= k < open.len() && #[trigger] open[k].kind == d.kind && open[k].subjects == d.subjects
}

/// The kinds a sweep reconciles.
pub open spec fn swept_kind(k: ViolationKind) -> bool {
    k != ViolationKind::ExpiredMembershipEffect
}

/// Some draft has the record's kind and subjects.
pub open spec fn still_detected(drafts: Seq<DraftView>, o: ViolationView) -> bool {
    exists|k: int| 0 <= k < drafts.len() && #[trigger] drafts[k].kind == o.kind && drafts[k].subjects == o.subjects
}

/// Drafts a sweep records: those with no open record of the same kind and
/// subjects (a waived record counts, so waivers are never duplicated).
pub open spec fn to_emit(v: RepoView, window: Interval) -> Seq<DraftView> {
    sweep_drafts(v, window).filter(|d: DraftView| !already_open(open_records(v), d))
}

/// Open records a sweep resolves: swept kinds, not waived, whose cause is
/// no longer detected.
pub open spec fn to_resolve(v: RepoView, window: Interval) -> Seq<ViolationView> {
    open_records(v).filter(
        |o: ViolationView| swept_kind(o.kind) && o.waiver_reason is None && !still_detected(sweep_drafts(v, window), o),
    )
}

#[derive(Clone, Copy, PartialEq, Eq, Structural, Debug)]
pub struct SweepReport {
    pub emitted: usize,
    pub resolved: usize,
}

/// Equality of two drafts by value.
fn draft_eq(a: &ViolationDraft, b: &ViolationDraft) -> (r: bool)
    ensures
        r == (a@ == b@),
{
    a.kind == b.kind && a.severity == b.severity && refs_eq(&a.subjects, &b.subjects)
}

/// The order key of a draft, built.
fn draft_key_vec(d: &ViolationDraft) -> (r: Vec<u128>)
    ensures
        r@ == draft_key(d@),
{
    let mut k: Vec<u128> = Vec::new();
    k.push(
        match d.kind {
            ViolationKind::TimeConflict => 0u128,
            ViolationKind::LocationExclusivity => 1u128,
            ViolationKind::ContainmentExclusivity => 2u128,
            ViolationKind::ImpossibleTravel => 3u128,
            ViolationKind::CapacityExceeded => 4u128,
            ViolationKind::OrphanEvent => 5u128,
            ViolationKind::ExpiredMembershipEffect => 6u128,
        },
    );
    let mut i: usize = 0;
    while i < d.subjects.len()
        invariant
            i <= d.subjects@.len(),
            k@ == seq![kind_rank(d.kind)] + refs_key(d.subjects@.take(i as int)),
        decreases d.subjects@.len() - i,
    {
        let r = d.subjects[i];
        let (rank, id): (u128, u128) = match r {
            EntityRef::Person(x) => (0, x.0),
            EntityRef::Group(x) => (1, x.0),
            EntityRef::Event(x) => (2, x.0),
            EntityRef::Location(x) => (3, x.0),
            EntityRef::Violation(x) => (4, x.0),
        };
        k.push(rank);
        k.push(id);
        assert(d.subjects@.take(i + 1).drop_last() =~= d.subjects@.take(i as int));
        assert(k@ =~= seq![kind_rank(d.kind)] + refs_key(d.subjects@.take(i + 1)));
        i += 1;
    }
    assert(d.subjects@.take(d.subjects@.len() as int) =~= d.subjects@);
    k
}

/// A copy of a draft.
fn copy_draft(d: &ViolationDraft) -> (r: ViolationDraft)
    ensures
        r@ == d@,
{
    ViolationDraft { kind: d.kind, severity: d.severity, subjects: clone_refs(&d.subjects) }
}

/// Order drafts by kind and subjects and drop adjacent duplicates.
fn order_drafts(drafts: Vec<ViolationDraft>) -> (r: Vec<ViolationDraft>)
    ensures
        drafts_view(r@) == dedup_adjacent(stable_sort_by(drafts_view(drafts@), |d: DraftView| draft_key(d))),
{
    let ghost kf = |d: ViolationDraft| draft_key(d@);
    let ghost input = drafts@;
    let mut keyed: Vec<(Vec<u128>, ViolationDraft)> = Vec::new();
    let mut rest = drafts;
    let mut rev: Vec<ViolationDraft> = Vec::new();
    while rest.len() > 0
        invariant
            rev@ + rest@.reverse() == input.reverse(),
        decreases rest.len(),
    {
        let x = rest.pop().unwrap();
        proof {
            assert(rest@.push(x).reverse() =~= seq![x] + rest@.reverse());
        }
        rev.push(x);
        assert(rev@ + rest@.reverse() =~= input.reverse());
    }
    assert(rev@ =~= input.reverse());
    let ghost n = input.len();
    while rev.len() > 0
        invariant
            rev@.len() <= n,
            n == input.len(),
            rev@ == input.skip(n - rev@.len()).reverse(),
            kf == (|d: ViolationDraft| draft_key(d@)),
            keyed_by(keyed@, kf),
            payloads(keyed@) == input.take(n - rev@.len()),
        decreases rev.len(),
    {
        let ghost taken = n - rev@.len();
        let x = rev.pop().unwrap();
        proof {
            assert(x == input[taken]);
            assert(rev@ =~= input.skip(taken + 1).reverse());
        }
        let k = draft_key_vec(&x);
        let ghost before = keyed@;
        keyed.push((k, x));
        assert(payloads(keyed@) =~= payloads(before).push(x));
        assert(input.take(taken + 1) =~= input.take(taken).push(x));
    }
    assert(input.take(n as int) =~= input);
    let ghost ks = payloads(keyed@);
    let sorted = crate::order::sort_keyed(keyed, Ghost(kf));
    proof {
        crate::order::lemma_sort_map(ks, |d: ViolationDraft| d@, |d: DraftView| draft_key(d), kf);
        assert(drafts_view(ks) =~= ks.map_values(|d: ViolationDraft| d@));
    }
    let ghost sv = drafts_view(payloads(sorted@));
    assert(sv == stable_sort_by(drafts_view(input), |d: DraftView| draft_key(d)));
    let mut out: Vec<ViolationDraft> = Vec::new();
    let mut i: usize = 0;
    while i < sorted.len()
        invariant
            i <= sorted@.len(),
            sv == drafts_view(payloads(sorted@)),
            drafts_view(out@) == dedup_adjacent(sv.take(i as int)),
            i > 0 ==> out@.len() > 0 && out@.last()@ == sv[i - 1],
        decreases sorted@.len() - i,
    {
        let d = &sorted[i].1;
        assert(sv[i as int] == d@);
        assert(sv.take(i + 1).drop_last() =~= sv.take(i as int));
        let keep = if i == 0 {
            true
        } else {
            !draft_eq(&out[out.len() - 1], d)
        };
        if keep {
            let ghost before = out@;
            out.push(copy_draft(d));
            assert(drafts_view(out@) =~= drafts_view(before).push(d@));
        }
        proof {
            if i > 0 {
                assert(sv.take(i + 1)[i as int - 1] == sv[i - 1]);
            }
        }
        i += 1;
    }
    assert(sv.take(sorted@.len() as int) =~= sv);
    out
}

impl Engine {
    /// Person-partitioned drafts: time conflicts and impossible travel.
    fn person_phase(&self, window: Interval) -> (r: Vec<ViolationDraft>)
        ensures
            drafts_view(r@) == persons_drafts(self@, person_list(self@), window, person_list(self@).len() as int),
    {
        let pids = self.repo.persons();
        let mut drafts: Vec<ViolationDraft> = Vec::new();
        let mut i: usize = 0;
        while i < pids.len()
            invariant
                i <= pids@.len(),
                pids@ == person_list(self@),
                drafts_view(drafts@) == persons_drafts(self@, pids@, window, i as int),
            decreases pids@.len() - i,
        {
            let pid = pids[i];
            let attends = self.repo.attends_for(pid, window);
            let mut tc = time_conflict::detect(pid, attends.as_slice());
            let placed = self.placed_for(pid, window, &[]);
            let ghost empty: Seq<Attends> = seq![];
            assert(placed@ == placed_spec(self@, pid, window, empty));
            let repo = &self.repo;
            let lookup = |f: LocationId, t: LocationId| -> (c: Option<TravelCost>)
                ensures
                    c == travel_spec(repo@, f, t, None),
                { repo.travel_best(f, t) };
            let mut it = impossible_travel::detect_by(
                pid,
                placed.as_slice(),
                &lookup,
                Ghost(|a: LocationId, b: LocationId| travel_spec(self@, a, b, None)),
            );
            let ghost before = drafts@;
            drafts.append(&mut tc);
            drafts.append(&mut it);
            assert(drafts_view(drafts@) =~= drafts_view(before) + person_drafts(self@, pid, window));
            i += 1;
        }
        drafts
    }

    /// Location-partitioned drafts, and the holds in `window` at every
    /// location.
    fn location_phase(&self, window: Interval) -> (r: (Vec<ViolationDraft>, Vec<Held>))
        ensures
            drafts_view(r.0@) == locations_drafts(self@, location_list(self@), window, location_list(self@).len() as int),
            r.1@ == holds_upto(self@, location_list(self@), window, location_list(self@).len() as int),
    {
        let lids = self.repo.locations();
        let mut drafts: Vec<ViolationDraft> = Vec::new();
        let mut all: Vec<Held> = Vec::new();
        let mut i: usize = 0;
        while i < lids.len()
            invariant
                i <= lids@.len(),
                lids@ == location_list(self@),
                drafts_view(drafts@) == locations_drafts(self@, lids@, window, i as int),
                all@ == holds_upto(self@, lids@, window, i as int),
            decreases lids@.len() - i,
        {
            let lid = lids[i];
            let mut holds = self.repo.held_for(lid, window);
            let mut ex = location_exclusivity::detect(lid, holds.as_slice());
            let ghost before = drafts@;
            drafts.append(&mut ex);
            assert(drafts_view(drafts@) =~= drafts_view(before) + exclusivity_violations(location_window(self@, lid, window), lid));
            all.append(&mut holds);
            i += 1;
        }
        (drafts, all)
    }

    /// Event-partitioned drafts: orphan events and exceeded capacity.
    fn event_phase(&self, holds: &Vec<Held>, window: Interval) -> (r: Vec<ViolationDraft>)
        ensures
            drafts_view(r@) == events_drafts(
                self@,
                stable_sort_by(self@.events, |e: Event| event_id_key(e)),
                holds@,
                window,
                self@.events.len() as int,
            ),
    {
        let evs = self.repo.events();
        proof {
            crate::order::lemma_stable_sort(self@.events, |e: Event| event_id_key(e));
        }
        let mut drafts: Vec<ViolationDraft> = Vec::new();
        let mut i: usize = 0;
        while i < evs.len()
            invariant
                i <= evs@.len(),
                evs@ == stable_sort_by(self@.events, |e: Event| event_id_key(e)),
                drafts_view(drafts@) == events_drafts(self@, evs@, holds@, window, i as int),
            decreases evs@.len() - i,
        {
            let e = &evs[i];
            let ghost before = drafts@;
            if e.window.overlaps(&window) {
                let ghost pred = |h: Held| h.event == e.id;
                let mut hs: Vec<Held> = Vec::new();
                let mut k: usize = 0;
                while k < holds.len()
                    invariant
                        k <= holds@.len(),
                        pred == (|h: Held| h.event == e.id),
                        hs@ == holds@.take(k as int).filter(pred),
                    decreases holds@.len() - k,
                {
                    let h = holds[k];
                    proof {
                        assert(holds@.take(k + 1) =~= holds@.take(k as int).push(h));
                        holds@.take(k as int).lemma_filter_push(h, pred);
                    }
                    if h.event == e.id {
                        hs.push(h);
                    }
                    k += 1;
                }
                assert(holds@.take(holds@.len() as int) =~= holds@);
                if let Some(d) = orphan_event::detect(e, hs.as_slice()) {
                    drafts.push(d);
                }
                let attends = self.repo.attends_for_event(e.id);
                let signalled = capacity_exceeded::signalled_interest(e.id, attends.as_slice(), Priority(0x8000_0000));
                let repo = &self.repo;
                let cap = |lid: LocationId| -> (c: Option<u32>)
                    ensures
                        c == location_capacity(repo@, lid),
                    {
                        match repo.location(lid) {
                            Some(l) => l.capacity,
                            None => None,
                        }
                    };
                let mut cd = capacity_exceeded::detect_by(
                    e.id,
                    hs.as_slice(),
                    signalled,
                    &cap,
                    Ghost(|l: LocationId| location_capacity(self@, l)),
                );
                drafts.append(&mut cd);
            }
            assert(drafts_view(drafts@) =~= drafts_view(before) + event_drafts(self@, evs@[i as int], holds@, window));
            i += 1;
        }
        drafts
    }
}

/// `w` differs from `v` at most in its violation records and its command
/// count.
pub open spec fn same_but_violations(v: RepoView, w: RepoView) -> bool {
    w == (RepoView { violations: w.violations, seq: w.seq, ..v })
}

proof fn lemma_placed_upto_frame(v: RepoView, w: RepoView, s: Seq<Attends>, n: int)
    requires
        same_but_violations(v, w),
    ensures
        placed_upto(v, s, n) == placed_upto(w, s, n),
    decreases n,
{
    if n > 0 {
        lemma_placed_upto_frame(v, w, s, n - 1);
    }
}

proof fn lemma_persons_drafts_frame(v: RepoView, w: RepoView, pids: Seq<PersonId>, window: Interval, n: int)
    requires
        same_but_violations(v, w),
    ensures
        persons_drafts(v, pids, window, n) == persons_drafts(w, pids, window, n),
    decreases n,
{
    if n > 0 {
        lemma_persons_drafts_frame(v, w, pids, window, n - 1);
        let pid = pids[n - 1];
        let s = attendance_with(v, pid, window, seq![]);
        lemma_placed_upto_frame(v, w, s, s.len() as int);
        assert((|a: LocationId, b: LocationId| travel_spec(v, a, b, None)) =~= (|a: LocationId, b: LocationId|
            travel_spec(w, a, b, None)));
        assert(person_drafts(v, pid, window) == person_drafts(w, pid, window));
    }
}

proof fn lemma_locations_frame(v: RepoView, w: RepoView, lids: Seq<LocationId>, window: Interval, n: int)
    requires
        same_but_violations(v, w),
    ensures
        locations_drafts(v, lids, window, n) == locations_drafts(w, lids, window, n),
        holds_upto(v, lids, window, n) == holds_upto(w, lids, window, n),
    decreases n,
{
    if n > 0 {
        lemma_locations_frame(v, w, lids, window, n - 1);
    }
}

proof fn lemma_events_drafts_frame(v: RepoView, w: RepoView, evs: Seq<Event>, holds: Seq<Held>, window: Interval, n: int)
    requires
        same_but_violations(v, w),
    ensures
        events_drafts(v, evs, holds, window, n) == events_drafts(w, evs, holds, window, n),
    decreases n,
{
    if n > 0 {
        lemma_events_drafts_frame(v, w, evs, holds, window, n - 1);
        assert((|l: LocationId| location_capacity(v, l)) =~= (|l: LocationId| location_capacity(w, l)));
        assert(event_drafts(v, evs[n - 1], holds, window) == event_drafts(w, evs[n - 1], holds, window));
    }
}

/// What the detectors find does not depend on the violation records.
proof fn lemma_sweep_drafts_frame(v: RepoView, w: RepoView, window: Interval)
    requires
        same_but_violations(v, w),
    ensures
        sweep_drafts(v, window) == sweep_drafts(w, window),
{
    let pids = person_list(v);
    let lids = location_list(v);
    let evs = stable_sort_by(v.events, |e: Event| event_id_key(e));
    assert(person_list(w) == pids);
    assert(location_list(w) == lids);
    lemma_persons_drafts_frame(v, w, pids, window, pids.len() as int);
    lemma_locations_frame(v, w, lids, window, lids.len() as int);
    let holds = holds_upto(v, lids, window, lids.len() as int);
    lemma_events_drafts_frame(v, w, evs, holds, window, evs.len() as int);
    assert(raw_drafts(v, window) == raw_drafts(w, window));
}

/// No two violation records share an identifier.
pub open spec fn ids_unique(s: Seq<ViolationView>) -> bool {
    forall|a: int, b: int| 0 <= a < s.len() && 0 <= b < s.len() && a != b ==> #[trigger] s[a].id != #[trigger] s[b].id
}

/// Some open record has the draft's kind and subjects.
pub open spec fn recorded_open(s: Seq<ViolationView>, d: DraftView) -> bool {
    exists|k: int| 0 <= k < s.len() && (#[trigger] s[k]).resolved_at is None && s[k].kind == d.kind && s[k].subjects == d.subjects
}

/// What a sweep over drafts `dv` leaves behind: every draft has an open
/// record, and every open record of a swept kind that is not waived is
/// still detected.
pub open spec fn swept_state(w: RepoView, dv: Seq<DraftView>) -> bool {
    &&& forall|m: int| 0 <= m < dv.len() ==> recorded_open(w.violations, #[trigger] dv[m])
    &&& forall|k: int|
        0 <= k < w.violations.len() && (#[trigger] w.violations[k]).resolved_at is None && swept_kind(w.violations[k].kind)
            && w.violations[k].waiver_reason is None ==> still_detected(dv, w.violations[k])
}

/// A stored record that is not resolved is among the open records.
proof fn lemma_stored_open_record(v: RepoView, k: int)
    requires
        0 <= k < v.violations.len(),
        v.violations[k].resolved_at is None,
    ensures
        open_records(v).contains(v.violations[k]),
{
    let p = |x: ViolationView| x.resolved_at is None;
    let f = v.violations.filter(p);
    v.violations.lemma_filter_contains(p, k);
    crate::order::lemma_stable_sort(f, |x: ViolationView| crate::repo::memory::violation_id_key(x));
    vstd::seq_lib::to_multiset_contains(f, v.violations[k]);
    vstd::seq_lib::to_multiset_contains(open_records(v), v.violations[k]);
}

/// An open record is stored, unresolved.
proof fn lemma_open_record_in_store(v: RepoView, o: ViolationView)
    requires
        open_records(v).contains(o),
    ensures
        v.violations.contains(o),
        o.resolved_at is None,
{
    let p = |x: ViolationView| x.resolved_at is None;
    let f = v.violations.filter(p);
    crate::order::lemma_stable_sort(f, |x: ViolationView| crate::repo::memory::violation_id_key(x));
    vstd::seq_lib::to_multiset_contains(open_records(v), o);
    vstd::seq_lib::to_multiset_contains(f, o);
    let i = choose|i: int| 0 <= i < f.len() && f[i] == o;
    v.violations.lemma_filter_pred(p, i);
    v.violations.lemma_filter_contains_rev(p, o);
}

/// A filter that keeps nothing is empty.
proof fn lemma_filter_none<T>(s: Seq<T>, p: spec_fn(T) -> bool)
    requires
        forall|i: int| 0 <= i < s.len() ==> !p(#[trigger] s[i]),
    ensures
        s.filter(p).len() == 0,
{
    if s.filter(p).len() > 0 {
        s.lemma_filter_pred(p, 0);
        assert(s.filter(p).contains(s.filter(p)[0]));
        s.lemma_filter_contains_rev(p, s.filter(p)[0]);
    }
}

/// A sweep is idempotent: in the state a sweep leaves behind, a second
/// sweep over the same window records nothing and resolves nothing.
pub proof fn lemma_sweep_idempotent(v0: RepoView, v1: RepoView, window: Interval)
    requires
        same_but_violations(v0, v1),
        swept_state(v1, sweep_drafts(v0, window)),
    ensures
        to_emit(v1, window).len() == 0,
        to_resolve(v1, window).len() == 0,
{
    lemma_sweep_drafts_frame(v0, v1, window);
    let dv = sweep_drafts(v1, window);
    let ov = open_records(v1);
    let ep = |d: DraftView| !already_open(ov, d);
    assert forall|m: int| 0 <= m < dv.len() implies !ep(#[trigger] dv[m]) by {
        assert(recorded_open(v1.violations, dv[m]));
        let k = choose|k: int|
            0 <= k < v1.violations.len() && (#[trigger] v1.violations[k]).resolved_at is None && v1.violations[k].kind
                == dv[m].kind && v1.violations[k].subjects == dv[m].subjects;
        lemma_stored_open_record(v1, k);
        let q = choose|q: int| 0 <= q < ov.len() && ov[q] == v1.violations[k];
        assert(ov[q].kind == dv[m].kind && ov[q].subjects == dv[m].subjects);
    }
    lemma_filter_none(dv, ep);
    let rp = |o: ViolationView| swept_kind(o.kind) && o.waiver_reason is None && !still_detected(dv, o);
    assert forall|q: int| 0 <= q < ov.len() implies !rp(#[trigger] ov[q]) by {
        assert(ov.contains(ov[q]));
        lemma_open_record_in_store(v1, ov[q]);
        let k = choose|k: int| 0 <= k < v1.violations.len() && v1.violations[k] == ov[q];
        assert(v1.violations[k].resolved_at is None);
    }
    lemma_filter_none(ov, rp);
}

/// A sweep spares waived records: a waived open record is not among those
/// resolved, and no recorded draft repeats its kind and subjects.
pub proof fn lemma_sweep_spares_waived(v: RepoView, window: Interval, o: ViolationView)
    requires
        open_records(v).contains(o),
        o.waiver_reason is Some,
    ensures
        !to_resolve(v, window).contains(o),
        forall|d: DraftView| #[trigger] to_emit(v, window).contains(d) ==> !(d.kind == o.kind && d.subjects == o.subjects),
{
    let ov = open_records(v);
    let dv = sweep_drafts(v, window);
    let rp = |x: ViolationView| swept_kind(x.kind) && x.waiver_reason is None && !still_detected(dv, x);
    if ov.filter(rp).contains(o) {
        let i = choose|i: int| 0 <= i < ov.filter(rp).len() && ov.filter(rp)[i] == o;
        ov.lemma_filter_pred(rp, i);
    }
    let ep = |d: DraftView| !already_open(ov, d);
    assert forall|d: DraftView| #[trigger] to_emit(v, window).contains(d) implies !(d.kind == o.kind && d.subjects == o.subjects) by {
        let i = choose|i: int| 0 <= i < dv.filter(ep).len() && dv.filter(ep)[i] == d;
        dv.lemma_filter_pred(ep, i);
        let q = choose|q: int| 0 <= q < ov.len() && ov[q] == o;
        if d.kind == o.kind && d.subjects == o.subjects {
            assert(ov[q].kind == d.kind && ov[q].subjects == d.subjects);
        }
    }
}

/// Every identifier with a record in `v` still has one in `w`.
pub open spec fn keeps_violation_ids(v: RepoView, w: RepoView) -> bool {
    forall|id: ViolationId| #[trigger] has_violation(v, id) ==> has_violation(w, id)
}

/// Recording or resolving a violation keeps every identifier that has a
/// record.
proof fn lemma_violation_write_keeps_ids(v: RepoView, cmd: Command)
    requires
        cmd is RecordViolation || (cmd matches Command::ResolveViolation { id, .. } && has_violation(v, id)),
    ensures
        keeps_violation_ids(v, applied(v, cmd)),
{
    let w = applied(v, cmd);
    assert forall|q: ViolationId| #[trigger] has_violation(v, q) implies has_violation(w, q) by {
        match cmd {
            Command::RecordViolation(x) => {
                let j = first_where(v.violations, violation_is(x.id));
                crate::repo::lemma_first_where(v.violations, violation_is(x.id));
                if j < v.violations.len() {
                    crate::repo::lemma_first_where_update(v.violations, violation_is(q), j, x@);
                } else {
                    crate::repo::lemma_first_where_push(v.violations, violation_is(q), x@);
                }
            },
            Command::ResolveViolation { id, at } => {
                let j = first_where(v.violations, violation_is(id));
                crate::repo::lemma_first_where(v.violations, violation_is(id));
                let nv = ViolationView { resolved_at: Some(at), ..v.violations[j] };
                crate::repo::lemma_first_where_update(v.violations, violation_is(q), j, nv);
            },
            _ => {},
        }
    }
}

/// An open record has a stored record with its identifier.
proof fn lemma_open_record_stored(v: RepoView, o: ViolationView)
    requires
        open_records(v).contains(o),
    ensures
        has_violation(v, o.id),
{
    let f = v.violations.filter(|x: ViolationView| x.resolved_at is None);
    crate::order::lemma_stable_sort(f, |x: ViolationView| crate::repo::memory::violation_id_key(x));
    vstd::seq_lib::to_multiset_contains(open_records(v), o);
    vstd::seq_lib::to_multiset_contains(f, o);
    assert(f.contains(o));
    v.violations.lemma_filter_contains_rev(|x: ViolationView| x.resolved_at is None, o);
    assert(v.violations.contains(o));
    let k = choose|k: int| 0 <= k < v.violations.len() && v.violations[k] == o;
    crate::repo::lemma_first_where(v.violations, violation_is(o.id));
    assert(violation_is(o.id)(v.violations[k]));
}

/// A record the sweep adds: open, not waived, and of a detected cause.
pub open spec fn new_record_ok(x: ViolationView, dv: Seq<DraftView>) -> bool {
    x.resolved_at is None && x.waiver_reason is None && still_detected(dv, x)
}

/// The record a sweep writes for draft `d` at `at`, under identifier `x.id`.
pub open spec fn emitted_record(x: ViolationView, d: DraftView, at: Timestamp) -> bool {
    x == (ViolationView {
        id: x.id,
        kind: d.kind,
        severity: d.severity,
        subjects: d.subjects,
        detected_at: at,
        resolved_at: None,
        acknowledged_by: None,
        waiver_reason: None,
    })
}

/// An open record of a swept kind, not waived, whose cause is gone.
pub open spec fn resolvable(dv: Seq<DraftView>, y: ViolationView) -> bool {
    y.resolved_at is None && swept_kind(y.kind) && y.waiver_reason is None && !still_detected(dv, y)
}

/// A record resolved at `at`.
pub open spec fn resolved_record(y: ViolationView, at: Timestamp) -> ViolationView {
    ViolationView { resolved_at: Some(at), ..y }
}

/// What a sweep makes of an existing record: resolved when resolvable,
/// otherwise unchanged.
pub open spec fn swept_record(y: ViolationView, dv: Seq<DraftView>, at: Timestamp) -> ViolationView {
    if resolvable(dv, y) {
        resolved_record(y, at)
    } else {
        y
    }
}

/// What the recording pass leaves when every new record got a new
/// identifier: the old records first and unchanged, then one new record
/// per emitted draft, identifiers distinct, and every draft with an open
/// record.
pub open spec fn recorded_pass(v0: RepoView, c1: Seq<ViolationView>, dv: Seq<DraftView>, es: Seq<DraftView>, at: Timestamp) -> bool {
    &&& ids_unique(c1)
    &&& c1.take(v0.violations.len() as int) == v0.violations
    &&& c1.len() == v0.violations.len() + es.len()
    &&& forall|k: int| v0.violations.len() <= k < c1.len() ==> new_record_ok(#[trigger] c1[k], dv)
    &&& forall|j: int| 0 <= j < es.len() ==> emitted_record(#[trigger] c1[v0.violations.len() + j], es[j], at)
    &&& forall|m: int| 0 <= m < dv.len() ==> recorded_open(c1, #[trigger] dv[m])
}

/// A record after the resolving pass: unchanged, or a resolvable old
/// record, now resolved at `at`.
pub open spec fn resolved_or_kept(x: ViolationView, y: ViolationView, k: int, n0: int, dv: Seq<DraftView>, at: Timestamp) -> bool {
    x == y || (x == resolved_record(y, at) && k < n0 && resolvable(dv, y))
}

/// Resolving one open record whose cause is gone, in the resolving pass.
proof fn lemma_resolve_step(
    v0: RepoView,
    c1: Seq<ViolationView>,
    dv: Seq<DraftView>,
    ov: Seq<ViolationView>,
    cur: RepoView,
    nxt: RepoView,
    o: ViolationView,
    j: int,
    at: Timestamp,
    rpred: spec_fn(ViolationView) -> bool,
    es: Seq<DraftView>,
)
    requires
        ids_unique(v0.violations),
        recorded_pass(v0, c1, dv, es, at),
        ov == open_records(v0),
        0 <= j < ov.len(),
        ov[j] == o,
        rpred == (|o: ViolationView| swept_kind(o.kind) && o.waiver_reason is None && !still_detected(dv, o)),
        rpred(o),
        cur.violations.len() == c1.len(),
        forall|k: int| 0 <= k < c1.len() ==> resolved_or_kept(#[trigger] cur.violations[k], c1[k], k, v0.violations.len() as int, dv, at),
        forall|q: int, k: int|
            0 <= q < j && rpred(ov[q]) && 0 <= k < c1.len() && #[trigger] cur.violations[k].id == #[trigger] ov[q].id
                ==> cur.violations[k].resolved_at is Some,
        nxt.violations == cur.violations.update(
            first_where(cur.violations, violation_is(o.id)),
            ViolationView { resolved_at: Some(at), ..cur.violations[first_where(cur.violations, violation_is(o.id))] },
        ),
    ensures
        nxt.violations.len() == c1.len(),
        forall|k: int| 0 <= k < c1.len() ==> resolved_or_kept(#[trigger] nxt.violations[k], c1[k], k, v0.violations.len() as int, dv, at),
        forall|q: int, k: int|
            0 <= q < j + 1 && rpred(ov[q]) && 0 <= k < c1.len() && #[trigger] nxt.violations[k].id == #[trigger] ov[q].id
                ==> nxt.violations[k].resolved_at is Some,
{
    let n0 = v0.violations.len() as int;
    let cs = cur.violations;
    assert(ov.contains(o));
    lemma_open_record_in_store(v0, o);
    let k0 = choose|k: int| 0 <= k < v0.violations.len() && v0.violations[k] == o;
    assert(c1.take(n0)[k0] == c1[k0]);
    assert(c1[k0] == o);
    assert forall|k: int| 0 <= k < cs.len() implies #[trigger] cs[k].id == c1[k].id by {
        assert(resolved_or_kept(cs[k], c1[k], k, n0, dv, at));
    }
    assert(cs[k0].id == o.id);
    let i = first_where(cs, violation_is(o.id));
    crate::repo::lemma_first_where(cs, violation_is(o.id));
    if i > k0 {
        assert(!violation_is(o.id)(cs[k0]));
    }
    assert(i < cs.len());
    assert(cs[i].id == c1[i].id && c1[k0].id == o.id);
    if i != k0 {
        assert(c1[i].id != c1[k0].id);
    }
    assert(i == k0);
    assert(resolved_or_kept(cs[k0], c1[k0], k0, n0, dv, at));
    assert(nxt.violations[k0] == (ViolationView { resolved_at: Some(at), ..c1[k0] }));
    assert forall|k: int| 0 <= k < c1.len() implies resolved_or_kept(#[trigger] nxt.violations[k], c1[k], k, n0, dv, at) by {
        if k != k0 {
            assert(nxt.violations[k] == cs[k]);
            assert(resolved_or_kept(cs[k], c1[k], k, n0, dv, at));
        }
    }
    assert forall|q: int, k: int|
        0 <= q < j + 1 && rpred(ov[q]) && 0 <= k < c1.len() && #[trigger] nxt.violations[k].id == #[trigger] ov[q].id implies nxt.violations[k].resolved_at is Some by {
        if k != k0 {
            assert(nxt.violations[k] == cs[k]);
            if q == j {
                assert(cs[k].id == c1[k].id);
                assert(c1[k].id != c1[k0].id);
            }
        }
    }
}

/// The state the two passes leave, when every new record got a new
/// identifier.
proof fn lemma_sweep_end(
    v0: RepoView,
    c1: Seq<ViolationView>,
    dv: Seq<DraftView>,
    ov: Seq<ViolationView>,
    fin: RepoView,
    at: Timestamp,
    rpred: spec_fn(ViolationView) -> bool,
    es: Seq<DraftView>,
)
    requires
        ids_unique(v0.violations),
        recorded_pass(v0, c1, dv, es, at),
        ov == open_records(v0),
        rpred == (|o: ViolationView| swept_kind(o.kind) && o.waiver_reason is None && !still_detected(dv, o)),
        fin.violations.len() == c1.len(),
        forall|k: int| 0 <= k < c1.len() ==> resolved_or_kept(#[trigger] fin.violations[k], c1[k], k, v0.violations.len() as int, dv, at),
        forall|q: int, k: int|
            0 <= q < ov.len() && rpred(ov[q]) && 0 <= k < c1.len() && #[trigger] fin.violations[k].id == #[trigger] ov[q].id
                ==> fin.violations[k].resolved_at is Some,
    ensures
        ids_unique(fin.violations),
        swept_state(fin, dv),
        forall|k: int| 0 <= k < v0.violations.len() ==> #[trigger] fin.violations[k] == swept_record(v0.violations[k], dv, at),
        forall|j: int| 0 <= j < es.len() ==> emitted_record(#[trigger] fin.violations[v0.violations.len() + j], es[j], at),
{
    let n0 = v0.violations.len() as int;
    let fs = fin.violations;
    assert forall|k: int| 0 <= k < fs.len() implies #[trigger] fs[k].id == c1[k].id by {
        assert(resolved_or_kept(fs[k], c1[k], k, n0, dv, at));
    }
    assert forall|a: int, b: int| 0 <= a < fs.len() && 0 <= b < fs.len() && a != b implies #[trigger] fs[a].id != #[trigger] fs[b].id by {
        assert(fs[a].id == c1[a].id && fs[b].id == c1[b].id);
    }
    assert forall|m: int| 0 <= m < dv.len() implies recorded_open(fs, #[trigger] dv[m]) by {
        assert(recorded_open(c1, dv[m]));
        let k = choose|k: int| 0 <= k < c1.len() && (#[trigger] c1[k]).resolved_at is None && c1[k].kind == dv[m].kind && c1[k].subjects
            == dv[m].subjects;
        assert(still_detected(dv, c1[k])) by {
            assert(dv[m].kind == c1[k].kind && dv[m].subjects == c1[k].subjects);
        }
        assert(resolved_or_kept(fs[k], c1[k], k, n0, dv, at));
        assert(fs[k] == c1[k]);
    }
    assert forall|k: int|
        0 <= k < fs.len() && (#[trigger] fs[k]).resolved_at is None && swept_kind(fs[k].kind) && fs[k].waiver_reason is None implies still_detected(
        dv,
        fs[k],
    ) by {
        assert(resolved_or_kept(fs[k], c1[k], k, n0, dv, at));
        assert(fs[k] == c1[k]);
        if k >= n0 {
            assert(new_record_ok(c1[k], dv));
        } else {
            assert(c1.take(n0)[k] == c1[k]);
            assert(v0.violations[k] == c1[k]);
            lemma_stored_open_record(v0, k);
            let q = choose|q: int| 0 <= q < ov.len() && ov[q] == v0.violations[k];
            if !still_detected(dv, fs[k]) {
                assert(rpred(ov[q]));
                assert(fs[k].id == ov[q].id);
            }
        }
    }
    assert forall|k: int| 0 <= k < v0.violations.len() implies #[trigger] fs[k] == swept_record(v0.violations[k], dv, at) by {
        assert(c1.take(n0)[k] == c1[k]);
        assert(v0.violations[k] == c1[k]);
        assert(resolved_or_kept(fs[k], c1[k], k, n0, dv, at));
        if resolvable(dv, c1[k]) {
            lemma_stored_open_record(v0, k);
            let q = choose|q: int| 0 <= q < ov.len() && ov[q] == v0.violations[k];
            assert(rpred(ov[q]));
            assert(fs[k].id == ov[q].id);
        }
    }
    assert forall|j: int| 0 <= j < es.len() implies emitted_record(#[trigger] fs[n0 + j], es[j], at) by {
        assert(resolved_or_kept(fs[n0 + j], c1[n0 + j], n0 + j, n0, dv, at));
        assert(emitted_record(c1[n0 + j], es[j], at));
    }
}

/// The records after writing one record per draft of `es`, in order, the
/// `j`-th under identifier `ids[j]`: each write replaces the first record
/// with that identifier, or appends.
pub open spec fn emit_chain(s: Seq<ViolationView>, es: Seq<DraftView>, ids: Seq<ViolationId>, at: Timestamp) -> Seq<ViolationView>
    decreases es.len(),
{
    if es.len() == 0 || ids.len() == 0 {
        s
    } else {
        crate::repo::upsert_where(
            emit_chain(s, es.drop_last(), ids.drop_last(), at),
            violation_is(ids.last()),
            as_record(es.last(), ids.last(), at),
        )
    }
}

/// The records after resolving, in order, the first record with the
/// identifier of each of `rs`, at `at`.
pub open spec fn resolve_chain(s: Seq<ViolationView>, rs: Seq<ViolationView>, at: Timestamp) -> Seq<ViolationView>
    decreases rs.len(),
{
    if rs.len() == 0 {
        s
    } else {
        let t = resolve_chain(s, rs.drop_last(), at);
        let f = first_where(t, violation_is(rs.last().id));
        if f < t.len() {
            t.update(f, resolved_record(t[f], at))
        } else {
            t
        }
    }
}

/// The records a sweep over `window` at `at` leaves of `v` when the new
/// records got identifiers `ids`: each draft to emit written in order, then
/// each open record to resolve resolved in order.
pub open spec fn swept_chain(v: RepoView, window: Interval, ids: Seq<ViolationId>, at: Timestamp) -> Seq<ViolationView> {
    resolve_chain(emit_chain(v.violations, to_emit(v, window), ids, at), to_resolve(v, window), at)
}

/// What a sweep over `window` at `at` leaves in `w` of the state `v`. On
/// every outcome: the records are those of `swept_chain` for one drawn
/// identifier per emitted draft. When identifiers were distinct and every
/// new record got a new one (the record count grew by the number emitted):
/// each existing record resolved when resolvable and otherwise unchanged,
/// then one new record per emitted draft, in order.
pub open spec fn swept_from(v: RepoView, w: RepoView, window: Interval, at: Timestamp) -> bool {
    &&& exists|ids: Seq<ViolationId>| ids.len() == to_emit(v, window).len() && #[trigger] swept_chain(v, window, ids, at) == w.violations
    &&& ids_unique(v.violations) && w.violations.len() == v.violations.len() + to_emit(v, window).len() ==> {
        &&& ids_unique(w.violations)
        &&& swept_state(w, sweep_drafts(v, window))
        &&& forall|k: int|
            0 <= k < v.violations.len() ==> #[trigger] w.violations[k] == swept_record(v.violations[k], sweep_drafts(v, window), at)
        &&& forall|j: int|
            0 <= j < to_emit(v, window).len() ==> emitted_record(
                #[trigger] w.violations[v.violations.len() + j],
                to_emit(v, window)[j],
                at,
            )
    }
}

impl Engine {
    /// Batch sweep: run the repository-data detectors over the whole
    /// population, record a violation for each draft with no open record
    /// of the same kind and subjects, and resolve open records of the swept
    /// kinds whose cause has disappeared. Waived records are never
    /// auto-resolved or duplicated. New records get fresh identifiers;
    /// nothing promises those are distinct from existing ones, so the
    /// records left behind are stated for whatever identifiers were drawn
    /// (`swept_chain`). Where they were new (the record count grew by the
    /// number emitted) and identifiers were distinct before, the state left
    /// behind is `swept_state`.
    pub fn sweep(&mut self, at: Timestamp, window: Interval) -> (r: Result<SweepReport, OrreryError>)
        requires
            old(self).wf(),
        ensures
            final(self).wf(),
            final(self).policy_map() == old(self).policy_map(),
            r == Ok::<SweepReport, OrreryError>(
                SweepReport {
                    emitted: to_emit(old(self)@, window).len() as usize,
                    resolved: to_resolve(old(self)@, window).len() as usize,
                },
            ),
            final(self)@ == (RepoView { violations: final(self)@.violations, seq: final(self)@.seq, ..old(self)@ }),
            swept_from(old(self)@, final(self)@, window, at),
    {
        let ghost v0 = self.repo@;
        let ghost n0 = v0.violations.len();
        let mut drafts = self.person_phase(window);
        let (mut ld, holds) = self.location_phase(window);
        drafts.append(&mut ld);
        let containment = self.repo.containment();
        let mut cd = containment_exclusivity::detect(holds.as_slice(), containment.as_slice());
        drafts.append(&mut cd);
        let mut ed = self.event_phase(&holds, window);
        drafts.append(&mut ed);
        proof {
            crate::order::lemma_stable_sort(v0.events, |e: Event| event_id_key(e));
        }
        assert(drafts_view(drafts@) =~= raw_drafts(v0, window));
        let drafts = order_drafts(drafts);
        let ghost dv = drafts_view(drafts@);
        assert(dv == sweep_drafts(v0, window));
        let open = self.repo.open_violations();
        let ghost ov = crate::model::violations_view(open@);
        assert(ov == open_records(v0));
        let ghost epred = |d: DraftView| !already_open(ov, d);
        let mut emitted: usize = 0;
        let mut i: usize = 0;
        let ghost mut ids: Seq<ViolationId> = Seq::empty();
        while i < drafts.len()
            invariant
                i <= drafts@.len(),
                ids.len() == emitted,
                self.repo@.violations == emit_chain(v0.violations, dv.take(i as int).filter(epred), ids, at),
                dv == drafts_view(drafts@),
                ov == crate::model::violations_view(open@),
                epred == (|d: DraftView| !already_open(ov, d)),
                emitted == dv.take(i as int).filter(epred).len(),
                emitted <= i,
                self.wf(),
                self.policies == old(self).policies,
                self.repo@ == (RepoView { violations: self.repo@.violations, seq: self.repo@.seq, ..v0 }),
                keeps_violation_ids(v0, self.repo@),
                n0 == v0.violations.len(),
                self.repo@.violations.len() <= n0 + emitted,
                ids_unique(v0.violations) && self.repo@.violations.len() == n0 + emitted ==> {
                    &&& ids_unique(self.repo@.violations)
                    &&& self.repo@.violations.take(n0 as int) == v0.violations
                    &&& forall|k: int| n0 <= k < self.repo@.violations.len() ==> new_record_ok(#[trigger] self.repo@.violations[k], dv)
                    &&& forall|m: int| 0 <= m < i ==> already_open(ov, #[trigger] dv[m]) || recorded_open(self.repo@.violations, dv[m])
                    &&& forall|j: int|
                        0 <= j < emitted ==> emitted_record(
                            #[trigger] self.repo@.violations[n0 + j],
                            dv.take(i as int).filter(epred)[j],
                            at,
                        )
                },
            decreases drafts@.len() - i,
        {
            let d = &drafts[i];
            let mut already = false;
            let mut k: usize = 0;
            while k < open.len()
                invariant
                    k <= open@.len(),
                    ov == crate::model::violations_view(open@),
                    already == exists|j: int| 0 <= j < k && #[trigger] ov[j].kind == d@.kind && ov[j].subjects == d@.subjects,
                decreases open@.len() - k,
            {
                assert(ov[k as int] == open@[k as int]@);
                if open[k].kind == d.kind && refs_eq(&open[k].subjects, &d.subjects) {
                    already = true;
                    assert(ov[k as int].kind == d@.kind && ov[k as int].subjects == d@.subjects);
                }
                k += 1;
            }
            proof {
                assert(dv[i as int] == d@);
                assert(dv.take(i + 1) =~= dv.take(i as int).push(d@));
                dv.take(i as int).lemma_filter_push(d@, epred);
                assert(already == already_open(ov, d@));
            }
            if !already {
                let ghost cur = self.repo@;
                let x = Violation {
                    id: ViolationId::new(),
                    kind: d.kind,
                    severity: d.severity,
                    subjects: clone_refs(&d.subjects),
                    detected_at: at,
                    resolved_at: None,
                    acknowledged_by: None,
                    waiver_reason: None,
                };
                let ghost cmd = Command::RecordViolation(x);
                match self.repo.apply(Command::RecordViolation(x)) {
                    Ok(_) => {},
                    Err(e) => {
                        return Err(e);
                    },
                }
                proof {
                    lemma_violation_write_keeps_ids(cur, cmd);
                    let cs = cur.violations;
                    let ns = self.repo@.violations;
                    let f = first_where(cs, violation_is(x.id));
                    crate::repo::lemma_first_where(cs, violation_is(x.id));
                    assert(ns == crate::repo::upsert_where(cs, violation_is(x.id), x@));
                    let ef0 = dv.take(i as int).filter(epred);
                    assert(dv.take(i + 1).filter(epred) == ef0.push(d@));
                    assert(ef0.push(d@).drop_last() =~= ef0);
                    assert(ids.push(x.id).drop_last() =~= ids);
                    assert(x@ == as_record(d@, x.id, at));
                    assert(ns == emit_chain(v0.violations, ef0.push(d@), ids.push(x.id), at));
                    ids = ids.push(x.id);
                    assert(still_detected(dv, x@)) by {
                        assert(dv[i as int].kind == x@.kind && dv[i as int].subjects == x@.subjects);
                    }
                    if ids_unique(v0.violations) && ns.len() == n0 + emitted + 1 {
                        assert(f == cs.len());
                        assert(ns == cs.push(x@));
                        assert(cs.len() == n0 + emitted);
                        assert forall|a: int, b: int| 0 <= a < ns.len() && 0 <= b < ns.len() && a != b implies #[trigger] ns[a].id
                            != #[trigger] ns[b].id by {
                            if a == cs.len() {
                                assert(!violation_is(x.id)(cs[b]));
                            } else if b == cs.len() {
                                assert(!violation_is(x.id)(cs[a]));
                            }
                        }
                        assert(ns.take(n0 as int) =~= cs.take(n0 as int));
                        let ef = dv.take(i + 1).filter(epred);
                        assert(ef == dv.take(i as int).filter(epred).push(d@));
                        assert forall|j: int| 0 <= j < emitted + 1 implies emitted_record(#[trigger] ns[n0 + j], ef[j], at) by {
                            if j < emitted {
                                assert(ns[n0 + j] == cs[n0 + j]);
                            } else {
                                assert(ns[n0 + j] == x@);
                            }
                        }
                        assert forall|m: int| 0 <= m < i + 1 implies already_open(ov, #[trigger] dv[m]) || recorded_open(ns, dv[m]) by {
                            if m == i {
                                let k = cs.len() as int;
                                assert(ns[k] == x@);
                            } else if !already_open(ov, dv[m]) {
                                assert(recorded_open(cs, dv[m]));
                                let k = choose|k: int| 0 <= k < cs.len() && (#[trigger] cs[k]).resolved_at is None && cs[k].kind == dv[m].kind
                                    && cs[k].subjects == dv[m].subjects;
                                assert(ns[k] == cs[k]);
                            }
                        }
                    }
                }
                emitted += 1;
            } else {
                proof {
                    let cs = self.repo@.violations;
                    if ids_unique(v0.violations) && cs.len() == n0 + emitted {
                        assert(dv.take(i + 1).filter(epred) == dv.take(i as int).filter(epred));
                        assert forall|m: int| 0 <= m < i + 1 implies already_open(ov, #[trigger] dv[m]) || recorded_open(cs, dv[m]) by {
                            if m == i {
                                assert(already_open(ov, dv[m]));
                            }
                        }
                    }
                }
            }
            i += 1;
        }
        assert(dv.take(drafts@.len() as int) =~= dv);
        let ghost c1 = self.repo@.violations;
        let ghost es = dv.filter(epred);
        let ghost fresh = ids_unique(v0.violations) && c1.len() == n0 + emitted;
        proof {
            if fresh {
                assert forall|m: int| 0 <= m < dv.len() implies recorded_open(c1, #[trigger] dv[m]) by {
                    if already_open(ov, dv[m]) {
                        let q = choose|q: int| 0 <= q < ov.len() && #[trigger] ov[q].kind == dv[m].kind && ov[q].subjects == dv[m].subjects;
                        assert(ov.contains(ov[q]));
                        lemma_open_record_in_store(v0, ov[q]);
                        let k = choose|k: int| 0 <= k < v0.violations.len() && v0.violations[k] == ov[q];
                        assert(c1.take(n0 as int)[k] == c1[k]);
                    }
                }
                assert(recorded_pass(v0, c1, dv, es, at));
            }
        }
        let ghost rpred = |o: ViolationView| swept_kind(o.kind) && o.waiver_reason is None && !still_detected(dv, o);
        let mut resolved: usize = 0;
        let mut j: usize = 0;
        assert(ov.take(0).filter(rpred) =~= Seq::<ViolationView>::empty());
        while j < open.len()
            invariant
                j <= open@.len(),
                self.repo@.violations == resolve_chain(c1, ov.take(j as int).filter(rpred), at),
                dv == drafts_view(drafts@),
                ov == crate::model::violations_view(open@),
                ov == open_records(v0),
                rpred == (|o: ViolationView| swept_kind(o.kind) && o.waiver_reason is None && !still_detected(dv, o)),
                resolved == ov.take(j as int).filter(rpred).len(),
                resolved <= j,
                self.wf(),
                self.policies == old(self).policies,
                self.repo@ == (RepoView { violations: self.repo@.violations, seq: self.repo@.seq, ..v0 }),
                keeps_violation_ids(v0, self.repo@),
                n0 == v0.violations.len(),
                self.repo@.violations.len() == c1.len(),
                fresh == (ids_unique(v0.violations) && c1.len() == n0 + emitted),
                fresh ==> recorded_pass(v0, c1, dv, es, at),
                es == dv.filter(epred),
                fresh ==> forall|k: int|
                    0 <= k < c1.len() ==> resolved_or_kept(#[trigger] self.repo@.violations[k], c1[k], k, n0 as int, dv, at),
                fresh ==> forall|q: int, k: int|
                    0 <= q < j && rpred(ov[q]) && 0 <= k < c1.len() && #[trigger] self.repo@.violations[k].id == #[trigger] ov[q].id
                        ==> self.repo@.violations[k].resolved_at is Some,
            decreases open@.len() - j,
        {
            let o = &open[j];
            proof {
                assert(ov[j as int] == o@);
                assert(ov.take(j + 1) =~= ov.take(j as int).push(o@));
                ov.take(j as int).lemma_filter_push(o@, rpred);
            }
            let swept = match o.kind {
                ViolationKind::ExpiredMembershipEffect => false,
                _ => true,
            };
            if swept && o.waiver_reason.is_none() {
                let mut still = false;
                let mut k: usize = 0;
                while k < drafts.len()
                    invariant
                        k <= drafts@.len(),
                        dv == drafts_view(drafts@),
                        still == exists|m: int| 0 <= m < k && #[trigger] dv[m].kind == o@.kind && dv[m].subjects == o@.subjects,
                    decreases drafts@.len() - k,
                {
                    assert(dv[k as int] == drafts@[k as int]@);
                    if drafts[k].kind == o.kind && refs_eq(&drafts[k].subjects, &o.subjects) {
                        still = true;
                        assert(dv[k as int].kind == o@.kind && dv[k as int].subjects == o@.subjects);
                    }
                    k += 1;
                }
                assert(still == still_detected(dv, o@));
                if !still {
                    let ghost cur = self.repo@;
                    proof {
                        assert(open_records(v0).contains(o@)) by {
                            assert(ov[j as int] == o@);
                        }
                        lemma_open_record_stored(v0, o@);
                    }
                    let ghost cmd = Command::ResolveViolation { id: o.id, at };
                    match self.repo.apply(Command::ResolveViolation { id: o.id, at }) {
                        Ok(_) => {},
                        Err(e) => {
                            return Err(e);
                        },
                    }
                    proof {
                        lemma_violation_write_keeps_ids(cur, cmd);
                        assert(has_violation(cur, o.id));
                        crate::repo::lemma_first_where(cur.violations, violation_is(o.id));
                        let rf0 = ov.take(j as int).filter(rpred);
                        assert(rpred(o@));
                        assert(ov.take(j + 1).filter(rpred) == rf0.push(o@));
                        assert(rf0.push(o@).drop_last() =~= rf0);
                        assert(self.repo@.violations == resolve_chain(c1, rf0.push(o@), at));
                        if fresh {
                            lemma_resolve_step(v0, c1, dv, ov, cur, self.repo@, o@, j as int, at, rpred, es);
                        }
                    }
                    resolved += 1;
                }
            }
            proof {
                if fresh && !rpred(o@) {
                    assert forall|q: int, k: int|
                        0 <= q < j + 1 && rpred(ov[q]) && 0 <= k < c1.len() && #[trigger] self.repo@.violations[k].id
                            == #[trigger] ov[q].id implies self.repo@.violations[k].resolved_at is Some by {
                        assert(q != j);
                    }
                }
            }
            j += 1;
        }
        assert(ov.take(open@.len() as int) =~= ov);
        proof {
            if fresh {
                lemma_sweep_end(v0, c1, dv, ov, self.repo@, at, rpred, es);
            }
            assert(to_emit(v0, window) == es) by {
                assert((|d: DraftView| !already_open(open_records(v0), d)) =~= epred);
            }
            assert(to_resolve(v0, window) == ov.filter(rpred)) by {
                assert((|o: ViolationView|
                    swept_kind(o.kind) && o.waiver_reason is None && !still_detected(sweep_drafts(v0, window), o)) =~= rpred);
            }
            assert(swept_chain(v0, window, ids, at) == self.repo@.violations);
        }
        Ok(SweepReport { emitted, resolved })
    }
}

// ------------------------------------------------------ feasibility oracle

/// A proposed assignment overlay, evaluated against current state without
/// writing anything. `at` is the evaluation instant.
#[derive(Clone, Debug)]
pub struct Assignment {
    pub attends: Vec<Attends>,
    pub held: Vec<Held>,
    pub at: Timestamp,
    pub window: Interval,
}

/// The persons a proposal touches, ascending, each once.
pub open spec fn touched_persons(a: Seq<Attends>) -> Seq<PersonId> {
    crate::repo::memory::sorted_persons(a.map_values(|x: Attends| x.person.0).to_set())
}

/// The locations a proposal touches, ascending, each once.
pub open spec fn touched_locations(h: Seq<Held>) -> Seq<LocationId> {
    crate::repo::memory::sorted_locations(h.map_values(|x: Held| x.location.0).to_set())
}

/// The drafts of one touched person over stored plus proposed edges.
pub open spec fn overlay_person_drafts(v: RepoView, pid: PersonId, a: Seq<Attends>, window: Interval) -> Seq<DraftView> {
    time_conflicts(attendance_with(v, pid, window, a), pid) + travel_violations(
        pid,
        placed_spec(v, pid, window, a),
        |x: LocationId, y: LocationId| travel_spec(v, x, y, None),
    )
}

/// Person drafts over the first `n` touched persons.
pub open spec fn overlay_persons_drafts(v: RepoView, pids: Seq<PersonId>, a: Seq<Attends>, window: Interval, n: int) -> Seq<DraftView>
    decreases n,
{
    if n <= 0 {
        seq![]
    } else {
        overlay_persons_drafts(v, pids, a, window, n - 1) + overlay_person_drafts(v, pids[n - 1], a, window)
    }
}

/// Stored plus proposed holds at one location.
pub open spec fn overlay_location_holds(v: RepoView, lid: LocationId, h: Seq<Held>, window: Interval) -> Seq<Held> {
    location_window(v, lid, window) + h.filter(|x: Held| x.location == lid)
}

/// Exclusivity drafts over the first `n` touched locations.
pub open spec fn overlay_locations_drafts(v: RepoView, lids: Seq<LocationId>, h: Seq<Held>, window: Interval, n: int) -> Seq<DraftView>
    decreases n,
{
    if n <= 0 {
        seq![]
    } else {
        overlay_locations_drafts(v, lids, h, window, n - 1) + exclusivity_violations(
            overlay_location_holds(v, lids[n - 1], h, window),
            lids[n - 1],
        )
    }
}

/// The overlaid holds of the first `n` touched locations.
pub open spec fn overlay_holds_upto(v: RepoView, lids: Seq<LocationId>, h: Seq<Held>, window: Interval, n: int) -> Seq<Held>
    decreases n,
{
    if n <= 0 {
        seq![]
    } else {
        overlay_holds_upto(v, lids, h, window, n - 1) + overlay_location_holds(v, lids[n - 1], h, window)
    }
}

/// The drafts a proposal would give: time conflicts and impossible travel
/// for every touched person, exclusivity for every touched location, and
/// containment exclusivity over the overlaid holds; ordered by kind and
/// subjects, duplicates removed.
pub open spec fn proposal_drafts(v: RepoView, a: Seq<Attends>, h: Seq<Held>, window: Interval) -> Seq<DraftView> {
    let pids = touched_persons(a);
    let lids = touched_locations(h);
    let holds = overlay_holds_upto(v, lids, h, window, lids.len() as int);
    let raw = overlay_persons_drafts(v, pids, a, window, pids.len() as int) + overlay_locations_drafts(
        v,
        lids,
        h,
        window,
        lids.len() as int,
    ) + if holds.len() > 0 {
        containment_violations(holds, v.within)
    } else {
        seq![]
    };
    dedup_adjacent(stable_sort_by(raw, |d: DraftView| draft_key(d)))
}

/// Weight of a severity in a proposal's penalty.
pub open spec fn severity_weight_spec(s: crate::model::Severity) -> int {
    match s {
        crate::model::Severity::Hard => 100,
        crate::model::Severity::Warning => 10,
        crate::model::Severity::Info => 1,
    }
}

/// Weight of a severity in a proposal's penalty.
pub fn severity_weight(s: crate::model::Severity) -> (r: u128)
    ensures
        r == severity_weight_spec(s),
{
    match s {
        crate::model::Severity::Hard => 100,
        crate::model::Severity::Warning => 10,
        crate::model::Severity::Info => 1,
    }
}

/// Total weight of a list of violations.
pub open spec fn penalty_of(s: Seq<ViolationView>) -> int
    decreases s.len(),
{
    if s.len() == 0 {
        0
    } else {
        penalty_of(s.drop_last()) + severity_weight_spec(s.last().severity)
    }
}

/// The violation record a draft becomes when evaluated at `at`.
pub open spec fn as_record(d: DraftView, id: ViolationId, at: Timestamp) -> ViolationView {
    ViolationView {
        id,
        kind: d.kind,
        severity: d.severity,
        subjects: d.subjects,
        detected_at: at,
        resolved_at: None,
        acknowledged_by: None,
        waiver_reason: None,
    }
}

/// Identifier values of a person list and of a location list, built.
fn id_values_of_persons(a: &Vec<Attends>) -> (r: Vec<u128>)
    ensures
        r@ == a@.map_values(|x: Attends| x.person.0),
{
    let mut out: Vec<u128> = Vec::new();
    let mut i: usize = 0;
    while i < a.len()
        invariant
            i <= a@.len(),
            out@ == a@.take(i as int).map_values(|x: Attends| x.person.0),
        decreases a@.len() - i,
    {
        out.push(a[i].person.0);
        assert(out@ =~= a@.take(i + 1).map_values(|x: Attends| x.person.0));
        i += 1;
    }
    assert(a@.take(a@.len() as int) =~= a@);
    out
}

fn id_values_of_locations(h: &Vec<Held>) -> (r: Vec<u128>)
    ensures
        r@ == h@.map_values(|x: Held| x.location.0),
{
    let mut out: Vec<u128> = Vec::new();
    let mut i: usize = 0;
    while i < h.len()
        invariant
            i <= h@.len(),
            out@ == h@.take(i as int).map_values(|x: Held| x.location.0),
        decreases h@.len() - i,
    {
        out.push(h[i].location.0);
        assert(out@ =~= h@.take(i + 1).map_values(|x: Held| x.location.0));
        i += 1;
    }
    assert(h@.take(h@.len() as int) =~= h@);
    out
}

impl Engine {
    /// The violations a proposed assignment would produce, evaluated over
    /// stored state plus the proposal, without writing anything. Each
    /// carries a fresh identifier and the proposal's instant.
    pub fn is_feasible(&self, a: &Assignment) -> (r: Vec<Violation>)
        ensures
            r@.len() == proposal_drafts(self@, a.attends@, a.held@, a.window).len(),
            forall|k: int| 0 <= k < r@.len() ==> (#[trigger] r@[k])@ == as_record(
                proposal_drafts(self@, a.attends@, a.held@, a.window)[k],
                r@[k].id,
                a.at,
            ),
    {
        let ghost v = self@;
        let praw = id_values_of_persons(&a.attends);
        let pkeys = crate::order::sorted_unique(&praw);
        let mut pids: Vec<PersonId> = Vec::new();
        let mut j: usize = 0;
        while j < pkeys.len()
            invariant
                j <= pkeys@.len(),
                person_keys(pids@) == pkeys@.take(j as int),
            decreases pkeys@.len() - j,
        {
            let ghost before = pids@;
            pids.push(PersonId(pkeys[j]));
            assert(pids@ == before.push(PersonId(pkeys@[j as int])));
            assert(pkeys@.take(j + 1) =~= pkeys@.take(j as int).push(pkeys@[j as int]));
            assert(person_keys(pids@) =~= person_keys(before).push(pkeys@[j as int]));
            j += 1;
        }
        assert(pkeys@.take(pkeys@.len() as int) =~= pkeys@);
        proof {
            let c = touched_persons(a.attends@);
            assert(crate::order::strictly_increasing(person_keys(pids@)));
            crate::order::lemma_strictly_increasing_unique(person_keys(pids@), person_keys(c));
            assert(pids@ =~= c) by {
                assert forall|k: int| 0 <= k < pids@.len() implies pids@[k] == c[k] by {
                    assert(person_keys(pids@)[k] == person_keys(c)[k]);
                }
            }
        }
        let mut drafts: Vec<ViolationDraft> = Vec::new();
        let mut i: usize = 0;
        while i < pids.len()
            invariant
                i <= pids@.len(),
                pids@ == touched_persons(a.attends@),
                drafts_view(drafts@) == overlay_persons_drafts(v, pids@, a.attends@, a.window, i as int),
                v == self@,
            decreases pids@.len() - i,
        {
            let pid = pids[i];
            let mut attends = self.repo.attends_for(pid, a.window);
            let ghost stored = attends@;
            let ghost opred = |x: Attends| x.person == pid;
            let mut k: usize = 0;
            while k < a.attends.len()
                invariant
                    k <= a.attends@.len(),
                    opred == (|x: Attends| x.person == pid),
                    attends@ == stored + a.attends@.take(k as int).filter(opred),
                decreases a.attends@.len() - k,
            {
                let x = a.attends[k];
                proof {
                    assert(a.attends@.take(k + 1) =~= a.attends@.take(k as int).push(x));
                    a.attends@.take(k as int).lemma_filter_push(x, opred);
                }
                if x.person == pid {
                    attends.push(x);
                }
                assert(attends@ =~= stored + a.attends@.take(k + 1).filter(opred));
                k += 1;
            }
            assert(a.attends@.take(a.attends@.len() as int) =~= a.attends@);
            let mut tc = time_conflict::detect(pid, attends.as_slice());
            let placed = self.placed_for(pid, a.window, a.attends.as_slice());
            let repo = &self.repo;
            let lookup = |f: LocationId, t: LocationId| -> (c: Option<TravelCost>)
                ensures
                    c == travel_spec(repo@, f, t, None),
                { repo.travel_best(f, t) };
            let mut it = impossible_travel::detect_by(
                pid,
                placed.as_slice(),
                &lookup,
                Ghost(|x: LocationId, y: LocationId| travel_spec(v, x, y, None)),
            );
            let ghost before = drafts@;
            drafts.append(&mut tc);
            drafts.append(&mut it);
            assert(drafts_view(drafts@) =~= drafts_view(before) + overlay_person_drafts(v, pid, a.attends@, a.window));
            i += 1;
        }
        let lraw = id_values_of_locations(&a.held);
        let lkeys = crate::order::sorted_unique(&lraw);
        let mut lids: Vec<LocationId> = Vec::new();
        let mut j: usize = 0;
        while j < lkeys.len()
            invariant
                j <= lkeys@.len(),
                location_keys(lids@) == lkeys@.take(j as int),
            decreases lkeys@.len() - j,
        {
            let ghost before = lids@;
            lids.push(LocationId(lkeys[j]));
            assert(lids@ == before.push(LocationId(lkeys@[j as int])));
            assert(lkeys@.take(j + 1) =~= lkeys@.take(j as int).push(lkeys@[j as int]));
            assert(location_keys(lids@) =~= location_keys(before).push(lkeys@[j as int]));
            j += 1;
        }
        assert(lkeys@.take(lkeys@.len() as int) =~= lkeys@);
        proof {
            let c = touched_locations(a.held@);
            assert(crate::order::strictly_increasing(location_keys(lids@)));
            crate::order::lemma_strictly_increasing_unique(location_keys(lids@), location_keys(c));
            assert(lids@ =~= c) by {
                assert forall|k: int| 0 <= k < lids@.len() implies lids@[k] == c[k] by {
                    assert(location_keys(lids@)[k] == location_keys(c)[k]);
                }
            }
        }
        let ghost pdrafts = drafts_view(drafts@);
        let mut ldrafts: Vec<ViolationDraft> = Vec::new();
        let mut overlay: Vec<Held> = Vec::new();
        let mut i: usize = 0;
        while i < lids.len()
            invariant
                i <= lids@.len(),
                lids@ == touched_locations(a.held@),
                drafts_view(ldrafts@) == overlay_locations_drafts(v, lids@, a.held@, a.window, i as int),
                overlay@ == overlay_holds_upto(v, lids@, a.held@, a.window, i as int),
                v == self@,
            decreases lids@.len() - i,
        {
            let lid = lids[i];
            let mut holds = self.repo.held_for(lid, a.window);
            let ghost stored = holds@;
            let ghost hpred = |x: Held| x.location == lid;
            let mut k: usize = 0;
            while k < a.held.len()
                invariant
                    k <= a.held@.len(),
                    hpred == (|x: Held| x.location == lid),
                    holds@ == stored + a.held@.take(k as int).filter(hpred),
                decreases a.held@.len() - k,
            {
                let x = a.held[k];
                proof {
                    assert(a.held@.take(k + 1) =~= a.held@.take(k as int).push(x));
                    a.held@.take(k as int).lemma_filter_push(x, hpred);
                }
                if x.location == lid {
                    holds.push(x);
                }
                assert(holds@ =~= stored + a.held@.take(k + 1).filter(hpred));
                k += 1;
            }
            assert(a.held@.take(a.held@.len() as int) =~= a.held@);
            let mut ex = location_exclusivity::detect(lid, holds.as_slice());
            let ghost before = ldrafts@;
            ldrafts.append(&mut ex);
            assert(drafts_view(ldrafts@) =~= drafts_view(before) + exclusivity_violations(
                overlay_location_holds(v, lid, a.held@, a.window),
                lid,
            ));
            overlay.append(&mut holds);
            i += 1;
        }
        let ghost before_l = drafts@;
        drafts.append(&mut ldrafts);
        if overlay.len() > 0 {
            let containment = self.repo.containment();
            let mut cd = containment_exclusivity::detect(overlay.as_slice(), containment.as_slice());
            drafts.append(&mut cd);
        }
        assert(drafts_view(drafts@) =~= overlay_persons_drafts(v, pids@, a.attends@, a.window, pids@.len() as int)
            + overlay_locations_drafts(v, lids@, a.held@, a.window, lids@.len() as int) + if overlay@.len() > 0 {
            containment_violations(overlay@, v.within)
        } else {
            seq![]
        });
        let ordered = order_drafts(drafts);
        let ghost dv = drafts_view(ordered@);
        assert(dv == proposal_drafts(v, a.attends@, a.held@, a.window));
        let mut out: Vec<Violation> = Vec::new();
        let mut m: usize = 0;
        while m < ordered.len()
            invariant
                m <= ordered@.len(),
                dv == drafts_view(ordered@),
                out@.len() == m,
                forall|k: int| 0 <= k < m ==> (#[trigger] out@[k])@ == as_record(dv[k], out@[k].id, a.at),
            decreases ordered@.len() - m,
        {
            let d = &ordered[m];
            assert(dv[m as int] == d@);
            out.push(
                Violation {
                    id: ViolationId::new(),
                    kind: d.kind,
                    severity: d.severity,
                    subjects: clone_refs(&d.subjects),
                    detected_at: a.at,
                    resolved_at: None,
                    acknowledged_by: None,
                    waiver_reason: None,
                },
            );
            m += 1;
        }
        out
    }

    /// Total severity weight of the violations a proposal would produce
    /// (the oracle's score is its negation).
    pub fn penalty(&self, a: &Assignment) -> (r: u128)
        ensures
            r == penalty_of(self.is_feasible_spec(a)),
    {
        let vs = self.is_feasible(a);
        let ghost views = crate::model::violations_view(vs@);
        let mut total: u128 = 0;
        let mut i: usize = 0;
        while i < vs.len()
            invariant
                i <= vs@.len(),
                views == crate::model::violations_view(vs@),
                total == penalty_of(views.take(i as int)),
                total <= 100 * i,
            decreases vs@.len() - i,
        {
            assert(views.take(i + 1).drop_last() =~= views.take(i as int));
            let w = severity_weight(vs[i].severity);
            total = total + w;
            i += 1;
        }
        assert(views.take(vs@.len() as int) =~= views);
        proof {
            assert(views.map_values(|x: ViolationView| x.severity) =~= self.is_feasible_spec(a).map_values(
                |x: ViolationView| x.severity,
            ));
            lemma_penalty_by_severity(views, self.is_feasible_spec(a));
        }
        total
    }

    /// The violations a proposal would produce, identifiers aside (here
    /// the identifier is the nil identifier).
    pub open spec fn is_feasible_spec(&self, a: &Assignment) -> Seq<ViolationView> {
        proposal_drafts(self@, a.attends@, a.held@, a.window).map_values(
            |d: DraftView| as_record(d, ViolationId(0), a.at),
        )
    }
}

/// The penalty only reads severities.
proof fn lemma_penalty_by_severity(a: Seq<ViolationView>, b: Seq<ViolationView>)
    requires
        a.map_values(|x: ViolationView| x.severity) == b.map_values(|x: ViolationView| x.severity),
    ensures
        penalty_of(a) == penalty_of(b),
    decreases a.len(),
{
    assert(a.len() == b.map_values(|x: ViolationView| x.severity).len());
    if a.len() > 0 {
        assert(a.drop_last().map_values(|x: ViolationView| x.severity) =~= a.map_values(|x: ViolationView| x.severity).drop_last());
        assert(b.drop_last().map_values(|x: ViolationView| x.severity) =~= b.map_values(|x: ViolationView| x.severity).drop_last());
        assert(a.last().severity == a.map_values(|x: ViolationView| x.severity)[a.len() - 1]);
        assert(b.last().severity == b.map_values(|x: ViolationView| x.severity)[b.len() - 1]);
        lemma_penalty_by_severity(a.drop_last(), b.drop_last());
    }
}

// ----------------------------------------------------------- closure refresh

/// Whether a location holds anything at any time.
pub open spec fn event_bearing(v: RepoView, lid: LocationId, all: Interval) -> bool {
    location_window(v, lid, all).len() > 0
}

/// The sources a closure refresh covers.
pub open spec fn closure_targets(v: RepoView, scope: ClosureScope, all: Interval) -> Seq<LocationId> {
    match scope {
        ClosureScope::AllLocations => location_list(v),
        ClosureScope::EventBearing => location_list(v).filter(|l: LocationId| event_bearing(v, l, all)),
    }
}

/// The interval spanning every representable instant.
pub open spec fn all_time(i: Interval) -> bool {
    i.lo() == i64::MIN && i.hi() == i64::MAX
}

/// Refreshing the closure is idempotent: the rows a refresh computes do
/// not depend on the closure or the command count, so a second refresh
/// with the same scope and stamp writes the rows the first one wrote.
pub proof fn lemma_closure_refresh_idempotent(v0: RepoView, v1: RepoView, scope: ClosureScope, all: Interval, at: Timestamp)
    requires
        v1 == (RepoView { closure: v1.closure, seq: v1.seq, ..v0 }),
    ensures
        closure_targets(v1, scope, all) == closure_targets(v0, scope, all),
        closure_spec(v1.traverse, v1.within, closure_targets(v1, scope, all), at) == closure_spec(
            v0.traverse,
            v0.within,
            closure_targets(v0, scope, all),
            at,
        ),
{
    assert(location_list(v1) == location_list(v0));
    assert((|l: LocationId| event_bearing(v1, l, all)) =~= (|l: LocationId| event_bearing(v0, l, all)));
}

impl Engine {
    /// Recompute the travel closure from the traverse network and replace
    /// it through the command layer. `at` stamps the entries.
    pub fn refresh_closure(&mut self, scope: ClosureScope, at: Timestamp) -> (r: Result<ClosureReport, OrreryError>)
        requires
            old(self).wf(),
            traverse_abs_total(old(self)@.traverse) <= i64::MAX,
        ensures
            final(self).wf(),
            final(self).policy_map() == old(self).policy_map(),
            r matches Ok(rep) && exists|all: Interval| #[trigger] all_time(all) && {
                let targets = closure_targets(old(self)@, scope, all);
                let rows = closure_spec(old(self)@.traverse, old(self)@.within, targets, at);
                &&& rep == (ClosureReport { sources: targets.len() as usize, pairs: rows.len() as usize })
                &&& final(self)@.closure.map_values(|e: ClosureEntry| row_of(e)) == rows
                &&& final(self)@ == (RepoView { closure: final(self)@.closure, seq: next_seq(old(self)@.seq), ..old(self)@ })
            },
    {
        let ghost v0 = self.repo@;
        let traverse = self.repo.traverse_all();
        let within = self.repo.containment();
        let all = match Interval::new(Timestamp(i64::MIN), Timestamp(i64::MAX)) {
            Ok(i) => i,
            Err(e) => {
                return Err(e);
            },
        };
        let lids = self.repo.locations();
        let targets: Vec<LocationId> = match scope {
            ClosureScope::AllLocations => lids,
            ClosureScope::EventBearing => {
                let ghost pred = |l: LocationId| event_bearing(v0, l, all);
                let mut out: Vec<LocationId> = Vec::new();
                let mut i: usize = 0;
                while i < lids.len()
                    invariant
                        i <= lids@.len(),
                        pred == (|l: LocationId| event_bearing(v0, l, all)),
                        v0 == self.repo@,
                        out@ == lids@.take(i as int).filter(pred),
                    decreases lids@.len() - i,
                {
                    let lid = lids[i];
                    proof {
                        assert(lids@.take(i + 1) =~= lids@.take(i as int).push(lid));
                        lids@.take(i as int).lemma_filter_push(lid, pred);
                    }
                    if self.repo.held_for(lid, all).len() > 0 {
                        out.push(lid);
                    }
                    i += 1;
                }
                assert(lids@.take(lids@.len() as int) =~= lids@);
                out
            },
        };
        assert(targets@ == closure_targets(v0, scope, all));
        let entries = crate::travel::compute_closure(traverse.as_slice(), within.as_slice(), targets.as_slice(), at);
        let report = ClosureReport { sources: targets.len(), pairs: entries.len() };
        let ghost ev = entries@;
        match self.repo.apply(Command::ReplaceClosure { entries }) {
            Ok(_) => {},
            Err(e) => {
                return Err(e);
            },
        }
        assert(ev.map_values(|e: ClosureEntry| row_of(e)).len() == ev.len());
        assert(all_time(all));
        Ok(report)
    }
}

} // verus!
