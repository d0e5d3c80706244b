//! `time_conflict`: two `attends` edges of one person, for different
//! events, with overlapping windows. Partition: person.

use vstd::prelude::*;

use crate::detect::{draft, drafts_view, DraftView, ViolationDraft, SEVERITY_TIME_CONFLICT};
use crate::model::{Attends, EntityRef, PersonId, ViolationKind};

verus! {

/// The person's own edges, in input order.
pub open spec fn edges_of(attends: Seq<Attends>, person: PersonId) -> Seq<Attends> {
    attends.filter(|a: Attends| a.person == person)
}

/// Whether two edges conflict.
pub open spec fn in_conflict(a: Attends, b: Attends) -> bool {
    a.event != b.event && a.during.overlaps_with(b.during)
}

pub open spec fn conflict_draft(person: PersonId, a: Attends, b: Attends) -> DraftView {
    DraftView {
        kind: ViolationKind::TimeConflict,
        severity: SEVERITY_TIME_CONFLICT,
        subjects: seq![EntityRef::Person(person), EntityRef::Event(a.event), EntityRef::Event(b.event)],
    }
}

/// Drafts for the pairs `(i, k)` with `i < k < j`, in order of `k`.
pub open spec fn conflicts_from(s: Seq<Attends>, person: PersonId, i: int, j: int) -> Seq<
    DraftView,
>
    decreases j - i,
{
    if j <= i + 1 {
        seq![]
    } else {
        conflicts_from(s, person, i, j - 1) + if in_conflict(s[i], s[j - 1]) {
            seq![conflict_draft(person, s[i], s[j - 1])]
        } else {
            seq![]
        }
    }
}

/// Drafts for every pair `(i, k)` with `i < n` and `i < k < s.len()`,
/// ordered by `i` then `k`.
pub open spec fn conflicts_upto(s: Seq<Attends>, person: PersonId, n: int) -> Seq<DraftView>
    decreases n,
{
    if n <= 0 {
        seq![]
    } else {
        conflicts_upto(s, person, n - 1) + conflicts_from(s, person, n - 1, s.len() as int)
    }
}

/// All time conflicts of `person`: one draft per conflicting pair of the
/// person's edges, reported once, ordered by input index.
pub open spec fn time_conflicts(attends: Seq<Attends>, person: PersonId) -> Seq<DraftView> {
    let s = edges_of(attends, person);
    conflicts_upto(s, person, s.len() as int)
}

/// The person's own edges, in input order.
pub fn own_edges(person: PersonId, attends: &[Attends]) -> (r: Vec<Attends>)
    ensures
        r@ == edges_of(attends@, person),
{
    let mut out: Vec<Attends> = Vec::new();
    let mut i: usize = 0;
    while i < attends.len()
        invariant
            i <= attends@.len(),
            out@ == edges_of(attends@.take(i as int), person),
        decreases attends@.len() - i,
    {
        let a = attends[i];
        proof {
            assert(attends@.take(i + 1) =~= attends@.take(i as int).push(a));
            attends@.take(i as int).lemma_filter_push(a, |x: Attends| x.person == person);
        }
        if a.person == person {
            out.push(a);
        }
        i += 1;
    }
    assert(attends@.take(attends@.len() as int) =~= attends@);
    out
}

pub fn detect(person: PersonId, attends: &[Attends]) -> (r: Vec<ViolationDraft>)
    ensures
        drafts_view(r@) == time_conflicts(attends@, person),
{
    let mine = own_edges(person, attends);
    let n = mine.len();
    let mut out: Vec<ViolationDraft> = Vec::new();
    let mut i: usize = 0;
    while i < n
        invariant
            n == mine@.len(),
            i <= n,
            drafts_view(out@) == conflicts_upto(mine@, person, i as int),
        decreases n - i,
    {
        let mut j: usize = i + 1;
        while j < n
            invariant
                n == mine@.len(),
                i < n,
                i + 1 <= j <= n,
                drafts_view(out@) == conflicts_upto(mine@, person, i as int) + conflicts_from(
                    mine@,
                    person,
                    i as int,
                    j as int,
                ),
            decreases n - j,
        {
            let (a, b) = (mine[i], mine[j]);
            let ghost before = out@;
            if a.event != b.event && a.during.overlaps(&b.during) {
                let mut subjects: Vec<EntityRef> = Vec::new();
                subjects.push(EntityRef::Person(person));
                subjects.push(EntityRef::Event(a.event));
                subjects.push(EntityRef::Event(b.event));
                out.push(draft(ViolationKind::TimeConflict, SEVERITY_TIME_CONFLICT, subjects));
                assert(subjects@ =~= seq![
                    EntityRef::Person(person),
                    EntityRef::Event(a.event),
                    EntityRef::Event(b.event),
                ]);
                assert(drafts_view(out@) =~= drafts_view(before).push(
                    conflict_draft(person, a, b),
                ));
            }
            j += 1;
            assert(drafts_view(out@) =~= conflicts_upto(mine@, person, i as int) + conflicts_from(
                mine@,
                person,
                i as int,
                j as int,
            ));
        }
        i += 1;
        assert(drafts_view(out@) =~= conflicts_upto(mine@, person, i as int));
    }
    out
}

} // verus!
