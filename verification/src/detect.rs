//! Violation detection. Each detector is a pure function in its own
//! module: no repository types in any signature, no identifiers minted, no
//! clock read. Detectors return [`ViolationDraft`]s; the engine assigns
//! identity and detection time when it persists them.
//!
//! Detection, not prevention, by default: `Prevent` is the same detector
//! run against the prospective post-write state.

use vstd::prelude::*;

use crate::model::{EntityRef, Severity, ViolationKind};

pub mod capacity_exceeded;
pub mod containment_exclusivity;
pub mod expired_membership_effect;
pub mod impossible_travel;
pub mod location_exclusivity;
pub mod orphan_event;
pub mod time_conflict;

verus! {

/// What a detector emits: everything a violation needs except identity and
/// detection time.
#[derive(Debug)]
pub struct ViolationDraft {
    pub kind: ViolationKind,
    pub severity: Severity,
    pub subjects: Vec<EntityRef>,
}

/// The value of a draft.
pub struct DraftView {
    pub kind: ViolationKind,
    pub severity: Severity,
    pub subjects: Seq<EntityRef>,
}

impl View for ViolationDraft {
    type V = DraftView;

    open spec fn view(&self) -> DraftView {
        DraftView { kind: self.kind, severity: self.severity, subjects: self.subjects@ }
    }
}

/// The values of a list of drafts.
pub open spec fn drafts_view(s: Seq<ViolationDraft>) -> Seq<DraftView> {
    s.map_values(|d: ViolationDraft| d@)
}

/// Build a draft from its parts.
pub fn draft(kind: ViolationKind, severity: Severity, subjects: Vec<EntityRef>) -> (r:
    ViolationDraft)
    ensures
        r@ == (DraftView { kind, severity, subjects: subjects@ }),
{
    ViolationDraft { kind, severity, subjects }
}

/// A lookup passed to a detector: callable on every argument, and
/// deterministic (one answer per argument).
pub open spec fn is_lookup1<A, B, F: Fn(A) -> B>(f: F) -> bool {
    &&& forall|a: A| #[trigger] f.requires((a,))
    &&& forall|a: A, b1: B, b2: B| f.ensures((a,), b1) && f.ensures((a,), b2) ==> b1 == b2
}

/// The answer a deterministic one-argument lookup gives for `a`.
pub open spec fn answer1<A, B, F: Fn(A) -> B>(f: F, a: A) -> B {
    choose|b: B| f.ensures((a,), b)
}

/// A two-argument lookup: callable everywhere and deterministic.
pub open spec fn is_lookup2<A, C, B, F: Fn(A, C) -> B>(f: F) -> bool {
    &&& forall|a: A, c: C| #[trigger] f.requires((a, c))
    &&& forall|a: A, c: C, b1: B, b2: B| f.ensures((a, c), b1) && f.ensures((a, c), b2) ==> b1
        == b2
}

/// The answer a deterministic two-argument lookup gives for `(a, c)`.
pub open spec fn answer2<A, C, B, F: Fn(A, C) -> B>(f: F, a: A, c: C) -> B {
    choose|b: B| f.ensures((a, c), b)
}

/// Per-kind policy toggle. `Prevent` aborts the writing command on a
/// non-empty detector result.
#[derive(Clone, Copy, PartialEq, Eq, Structural, Debug)]
pub enum Policy {
    Off,
    Detect,
    Warn,
    Prevent,
}

/// Policy per violation kind; unset kinds are `Detect`.
#[derive(Debug)]
pub struct PolicyMap {
    overrides: Vec<(ViolationKind, Policy)>,
}

/// The policy recorded for `kind` among `entries` (the last entry for the
/// kind wins), or `Detect` when none is.
pub open spec fn policy_in(entries: Seq<(ViolationKind, Policy)>, kind: ViolationKind) -> Policy
    decreases entries.len(),
{
    if entries.len() == 0 {
        Policy::Detect
    } else if entries.last().0 == kind {
        entries.last().1
    } else {
        policy_in(entries.drop_last(), kind)
    }
}

impl PolicyMap {
    /// The policy in force for `kind`.
    pub closed spec fn policy_of(self, kind: ViolationKind) -> Policy {
        policy_in(self.overrides@, kind)
    }

    /// No overrides: every kind is `Detect`.
    pub fn new() -> (r: PolicyMap)
        ensures
            forall|k: ViolationKind| r.policy_of(k) == Policy::Detect,
    {
        PolicyMap { overrides: Vec::new() }
    }

    pub fn set(&mut self, kind: ViolationKind, policy: Policy)
        ensures
            final(self).policy_of(kind) == policy,
            forall|k: ViolationKind| k != kind ==> final(self).policy_of(k) == old(self).policy_of(
                k,
            ),
    {
        let ghost before = self.overrides@;
        self.overrides.push((kind, policy));
        assert(self.overrides@.drop_last() =~= before);
    }

    pub fn policy(&self, kind: ViolationKind) -> (r: Policy)
        ensures
            r == self.policy_of(kind),
    {
        let mut i = self.overrides.len();
        assert(self.overrides@.take(i as int) =~= self.overrides@);
        while i > 0
            invariant
                i <= self.overrides@.len(),
                policy_in(self.overrides@, kind) == policy_in(self.overrides@.take(i as int), kind),
            decreases i,
        {
            let e = self.overrides[i - 1];
            proof {
                assert(self.overrides@.take(i as int).drop_last() =~= self.overrides@.take(i - 1));
            }
            if e.0 == kind {
                return e.1;
            }
            i -= 1;
        }
        Policy::Detect
    }
}

/// One call of `set` with `s`, as its contract states it: the kind named
/// takes the new policy, every other kind keeps its own.
pub open spec fn set_step(before: PolicyMap, after: PolicyMap, s: (ViolationKind, Policy)) -> bool {
    &&& after.policy_of(s.0) == s.1
    &&& forall|k: ViolationKind| k != s.0 ==> after.policy_of(k) == before.policy_of(k)
}

/// Last `set` wins: after a run of `set`s on a map with every kind at
/// `Detect` (a new or default map), a kind's policy is the one the last
/// `set` naming it gave, or `Detect` when none named it.
pub proof fn lemma_policy_after_sets(maps: Seq<PolicyMap>, sets: Seq<(ViolationKind, Policy)>)
    requires
        maps.len() == sets.len() + 1,
        forall|k: ViolationKind| maps[0].policy_of(k) == Policy::Detect,
        forall|i: int| 0 <= i < sets.len() ==> #[trigger] set_step(maps[i], maps[i + 1], sets[i]),
    ensures
        forall|k: ViolationKind| maps.last().policy_of(k) == policy_in(sets, k),
    decreases sets.len(),
{
    if sets.len() > 0 {
        let n = sets.len() - 1;
        let ms = maps.drop_last();
        let ss = sets.drop_last();
        assert forall|i: int| 0 <= i < ss.len() implies #[trigger] set_step(ms[i], ms[i + 1], ss[i]) by {
            assert(set_step(maps[i], maps[i + 1], sets[i]));
        }
        lemma_policy_after_sets(ms, ss);
        assert(set_step(maps[n], maps[n + 1], sets[n]));
        assert(ms.last() == maps[n]);
        assert forall|k: ViolationKind| maps.last().policy_of(k) == policy_in(sets, k) by {
            assert(maps.last() == maps[n + 1]);
            assert(sets.last() == sets[n]);
            if k != sets[n].0 {
                assert(maps[n].policy_of(k) == policy_in(ss, k));
            }
        }
    }
}

impl Default for PolicyMap {
    fn default() -> (r: PolicyMap)
        ensures
            forall|k: ViolationKind| r.policy_of(k) == Policy::Detect,
    {
        PolicyMap::new()
    }
}

pub const SEVERITY_TIME_CONFLICT: Severity = Severity::Hard;

pub const SEVERITY_LOCATION_EXCLUSIVITY: Severity = Severity::Hard;

pub const SEVERITY_CONTAINMENT_EXCLUSIVITY: Severity = Severity::Hard;

pub const SEVERITY_CAPACITY_EXCEEDED: Severity = Severity::Warning;

pub const SEVERITY_ORPHAN_EVENT: Severity = Severity::Info;

pub const SEVERITY_EXPIRED_MEMBERSHIP: Severity = Severity::Warning;

} // verus!
