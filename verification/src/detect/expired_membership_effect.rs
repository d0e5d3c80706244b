//! `expired_membership_effect`: cached derived attendance whose source
//! membership is no longer valid. Partition: person.
//!
//! Expansion filters memberships when it evaluates, so this state only
//! arises because derived edges are cached: a membership can expire after
//! the cache was written. This detector is the staleness audit.

use vstd::prelude::*;

use crate::derive::DerivedAttends;
use crate::detect::{draft, drafts_view, DraftView, ViolationDraft, SEVERITY_EXPIRED_MEMBERSHIP};
use crate::interval::Timestamp;
use crate::model::{EntityRef, MemberOf, PersonId, ViolationKind};

verus! {

/// Some membership of `person` in `group` is valid at `at`.
pub open spec fn member_at(memberships: Seq<MemberOf>, person: PersonId, group: crate::model::GroupId, at: Timestamp) -> bool {
    exists|k: int| 0 <= k < memberships.len() && #[trigger] memberships[k].person == person
        && memberships[k].group == group && memberships[k].during.contains_spec(at.0 as int)
}

/// The person's cached edges whose source membership is not valid at `at`.
pub open spec fn stale(cached: Seq<DerivedAttends>, memberships: Seq<MemberOf>, person: PersonId, at: Timestamp) -> Seq<DerivedAttends> {
    cached.filter(|d: DerivedAttends| d.person == person && !member_at(memberships, person, d.source_group, at))
}

pub open spec fn expired_draft(person: PersonId, d: DerivedAttends) -> DraftView {
    DraftView {
        kind: ViolationKind::ExpiredMembershipEffect,
        severity: SEVERITY_EXPIRED_MEMBERSHIP,
        subjects: seq![EntityRef::Person(person), EntityRef::Event(d.event), EntityRef::Group(d.source_group)],
    }
}

fn member_valid(memberships: &[MemberOf], person: PersonId, group: crate::model::GroupId, at: Timestamp) -> (r: bool)
    ensures
        r == member_at(memberships@, person, group, at),
{
    let mut k: usize = 0;
    while k < memberships.len()
        invariant
            k <= memberships@.len(),
            forall|j: int| 0 <= j < k ==> !(#[trigger] memberships@[j].person == person
                && memberships@[j].group == group && memberships@[j].during.contains_spec(at.0 as int)),
        decreases memberships@.len() - k,
    {
        let m = memberships[k];
        if m.person == person && m.group == group && m.during.contains_point(at) {
            return true;
        }
        k += 1;
    }
    false
}

pub fn detect(
    person: PersonId,
    cached: &[DerivedAttends],
    memberships: &[MemberOf],
    at: Timestamp,
) -> (r: Vec<ViolationDraft>)
    ensures
        drafts_view(r@) == stale(cached@, memberships@, person, at).map_values(
            |d: DerivedAttends| expired_draft(person, d),
        ),
{
    let ghost pred = |d: DerivedAttends| d.person == person && !member_at(memberships@, person, d.source_group, at);
    let ghost f = |d: DerivedAttends| expired_draft(person, d);
    let mut out: Vec<ViolationDraft> = Vec::new();
    let mut i: usize = 0;
    while i < cached.len()
        invariant
            i <= cached@.len(),
            pred == (|d: DerivedAttends| d.person == person && !member_at(memberships@, person, d.source_group, at)),
            f == (|d: DerivedAttends| expired_draft(person, d)),
            drafts_view(out@) == cached@.take(i as int).filter(pred).map_values(f),
        decreases cached@.len() - i,
    {
        let d = cached[i];
        proof {
            assert(cached@.take(i + 1) =~= cached@.take(i as int).push(d));
            cached@.take(i as int).lemma_filter_push(d, pred);
            assert(cached@.take(i as int).filter(pred).push(d).map_values(f) =~= cached@.take(
                i as int,
            ).filter(pred).map_values(f).push(f(d)));
        }
        let ghost before = out@;
        if d.person == person && !member_valid(memberships, person, d.source_group, at) {
            let mut subjects: Vec<EntityRef> = Vec::new();
            subjects.push(EntityRef::Person(person));
            subjects.push(EntityRef::Event(d.event));
            subjects.push(EntityRef::Group(d.source_group));
            assert(subjects@ =~= seq![EntityRef::Person(person), EntityRef::Event(d.event), EntityRef::Group(d.source_group)]);
            out.push(draft(ViolationKind::ExpiredMembershipEffect, SEVERITY_EXPIRED_MEMBERSHIP, subjects));
            assert(drafts_view(out@) =~= drafts_view(before).push(f(d)));
        }
        i += 1;
    }
    assert(cached@.take(cached@.len() as int) =~= cached@);
    out
}

} // verus!
