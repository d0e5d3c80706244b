//! `orphan_event`: an event with no `held` edge overlapping its window.
//! Partition: event.

use vstd::prelude::*;

use crate::detect::{draft, DraftView, ViolationDraft, SEVERITY_ORPHAN_EVENT};
use crate::model::{EntityRef, Event, Held, ViolationKind};

verus! {

/// Some hold of this event shares an instant with the event's window.
pub open spec fn housed(event: Event, holds: Seq<Held>) -> bool {
    exists|i: int| 0 <= i < holds.len() && #[trigger] holds[i].event == event.id
        && holds[i].during.overlaps_with(event.window)
}

pub fn detect(event: &Event, holds: &[Held]) -> (r: Option<ViolationDraft>)
    ensures
        r is None <==> housed(*event, holds@),
        r matches Some(d) ==> d@ == (DraftView {
            kind: ViolationKind::OrphanEvent,
            severity: SEVERITY_ORPHAN_EVENT,
            subjects: seq![EntityRef::Event(event.id)],
        }),
{
    let mut i: usize = 0;
    while i < holds.len()
        invariant
            i <= holds@.len(),
            forall|k: int| 0 <= k < i ==> !(#[trigger] holds@[k].event == event.id
                && holds@[k].during.overlaps_with(event.window)),
        decreases holds@.len() - i,
    {
        if holds[i].event == event.id && holds[i].during.overlaps(&event.window) {
            return None;
        }
        i += 1;
    }
    let mut subjects: Vec<EntityRef> = Vec::new();
    subjects.push(EntityRef::Event(event.id));
    assert(subjects@ =~= seq![EntityRef::Event(event.id)]);
    Some(draft(ViolationKind::OrphanEvent, SEVERITY_ORPHAN_EVENT, subjects))
}

} // verus!
