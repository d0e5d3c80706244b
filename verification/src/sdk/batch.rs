//! Batch orchestration: the scheduled maintenance run, composing engine
//! primitives in dependency order (refresh the travel closure, recompute
//! derivation digests, sweep violations) and reporting the change set.

use vstd::prelude::*;

use crate::engine::{
    all_time, changes_spec, closure_targets, fresh_digest, stored_digest, stored_pairs, swept_from, to_emit, to_resolve, Engine,
    SweepReport,
};
use crate::incremental::mirror_spec;
use crate::interval::{Interval, Timestamp};
use crate::model::{ClosureEntry, PersonId};
use crate::repo::memory::{person_list, RepoView};
use crate::travel::row_of;
use crate::sdk::notify::ChangeSet;
use crate::sdk::SdkError;
use crate::travel::{closure_spec, traverse_abs_total, ClosureReport, ClosureScope};

verus! {

#[derive(Debug)]
pub struct BatchReport {
    pub closure: ClosureReport,
    pub changes: ChangeSet,
    pub sweep: SweepReport,
}

/// The sweep report over state `v`.
pub open spec fn sweep_report(v: RepoView, window: Interval) -> SweepReport {
    SweepReport { emitted: to_emit(v, window).len() as usize, resolved: to_resolve(v, window).len() as usize }
}

/// The state a pass sweeps: the input one with the refreshed closure
/// and digest records (`s` is its apply counter).
pub open spec fn swept_state(v: RepoView, fin: RepoView, s: u64) -> RepoView {
    RepoView { closure: fin.closure, persons: fin.persons, seq: s, ..v }
}

/// One maintenance pass. `at` stamps everything (the engine reads no
/// clock); `window` bounds the sweep. The closure covers event-bearing
/// locations; the change set is the digest refresh's, over the state as it
/// was (a closure refresh changes no derivation input); the sweep runs over
/// the refreshed closure and digests.
pub fn run(engine: &mut Engine, at: Timestamp, window: Interval) -> (r: Result<BatchReport, SdkError>)
    requires
        old(engine).wf(),
        traverse_abs_total(old(engine)@.traverse) <= i64::MAX,
    ensures
        final(engine).wf(),
        final(engine).policy_map() == old(engine).policy_map(),
        r matches Ok(rep) && {
            &&& rep.changes.persons@ == changes_spec(mirror_spec(old(engine)@), old(engine)@, at)
            &&& exists|all: Interval| #[trigger] all_time(all) && rep.closure == (ClosureReport {
                sources: closure_targets(old(engine)@, ClosureScope::EventBearing, all).len() as usize,
                pairs: closure_spec(
                    old(engine)@.traverse,
                    old(engine)@.within,
                    closure_targets(old(engine)@, ClosureScope::EventBearing, all),
                    at,
                ).len() as usize,
            }) && final(engine)@.closure.map_values(|e: ClosureEntry| row_of(e)) == closure_spec(
                old(engine)@.traverse,
                old(engine)@.within,
                closure_targets(old(engine)@, ClosureScope::EventBearing, all),
                at,
            )
            &&& forall|pid: PersonId| #[trigger] person_list(old(engine)@).contains(pid) ==> stored_digest(final(engine)@, pid) == Some(
                fresh_digest(mirror_spec(old(engine)@), pid, at),
            )
            &&& exists|s: u64| {
                &&& #[trigger] sweep_report(swept_state(old(engine)@, final(engine)@, s), window) == rep.sweep
                &&& swept_from(swept_state(old(engine)@, final(engine)@, s), final(engine)@, window, at)
            }
        },
{
    let ghost v0 = engine@;
    let closure = match engine.refresh_closure(ClosureScope::EventBearing, at) {
        Ok(c) => c,
        Err(e) => {
            return Err(SdkError::Engine(e));
        },
    };
    let ghost v1 = engine@;
    proof {
        assert(v1.persons == v0.persons);
        assert(mirror_spec(v1) == mirror_spec(v0));
        assert(stored_pairs(v1) =~= stored_pairs(v0)) by {
            assert(crate::repo::memory::person_ids(v1) == crate::repo::memory::person_ids(v0));
            assert forall|k: int| 0 <= k < stored_pairs(v0).len() implies stored_pairs(v1)[k] == stored_pairs(v0)[k] by {
                let pid = crate::repo::memory::person_list(v0)[k];
                assert(crate::engine::stored_digest(v1, pid) == crate::engine::stored_digest(v0, pid));
            }
        }
    }
    let changed = match engine.refresh_digests(at) {
        Ok(c) => c,
        Err(e) => {
            return Err(SdkError::Engine(e));
        },
    };
    let ghost v2 = engine@;
    let sweep = match engine.sweep(at, window) {
        Ok(s) => s,
        Err(e) => {
            return Err(SdkError::Engine(e));
        },
    };
    proof {
        assert(v2 == swept_state(v0, engine@, v2.seq));
        assert(sweep_report(v2, window) == sweep);
        assert(crate::repo::memory::person_list(v1) == crate::repo::memory::person_list(v0)) by {
            assert(crate::repo::memory::person_ids(v1) == crate::repo::memory::person_ids(v0));
        }
        assert forall|pid: PersonId| #[trigger] person_list(v0).contains(pid) implies stored_digest(engine@, pid) == Some(
            fresh_digest(mirror_spec(v0), pid, at),
        ) by {
            assert(person_list(v1).contains(pid));
            assert(stored_digest(engine@, pid) == stored_digest(v2, pid));
        }
    }
    Ok(BatchReport { closure, changes: ChangeSet { persons: changed }, sweep })
}

} // verus!
