//! Tier legality: the rules every `within` and `traverse` edge must obey
//! before it is written. Illegal edges are rejected with typed errors.

use vstd::prelude::*;

use crate::model::{Location, Portal, Tier};

verus! {

/// Position of a tier in the containment order, innermost first.
pub open spec fn rank_spec(t: Tier) -> int {
    match t {
        Tier::Room => 0,
        Tier::Floor => 1,
        Tier::Structure => 2,
        Tier::Campus => 3,
        Tier::Region => 4,
    }
}

fn rank(t: Tier) -> (r: u8)
    ensures
        r == rank_spec(t),
{
    match t {
        Tier::Room => 0,
        Tier::Floor => 1,
        Tier::Structure => 2,
        Tier::Campus => 3,
        Tier::Region => 4,
    }
}

/// `within` is tier-ascending only. Skipping tiers is legal; equal or
/// descending is not.
pub fn containment_legal(child: Tier, parent: Tier) -> (r: bool)
    ensures
        r == (rank_spec(child) < rank_spec(parent)),
{
    rank(child) < rank(parent)
}

/// Direct `traverse` edges: same tier by default; cross-tier is legal when
/// either end is a portal, or when the edge carries an explicit override.
pub fn traverse_legal(a: &Location, b: &Location, sibling_override: bool) -> (r: bool)
    ensures
        r == (sibling_override || a.tier == b.tier || a.portal != Portal::Ordinary || b.portal
            != Portal::Ordinary),
{
    if sibling_override {
        return true;
    }
    if a.tier == b.tier {
        return true;
    }
    a.portal != Portal::Ordinary || b.portal != Portal::Ordinary
}

/// Containment legality is a strict order: never reflexive, and
/// transitive, so legal chains never revisit a tier.
pub proof fn lemma_containment_strict_order(a: Tier, b: Tier, c: Tier)
    ensures
        !(rank_spec(a) < rank_spec(a)),
        rank_spec(a) < rank_spec(b) && rank_spec(b) < rank_spec(c) ==> rank_spec(a) < rank_spec(c),
        rank_spec(a) < rank_spec(b) ==> !(rank_spec(b) < rank_spec(a)),
{
}

/// Traverse legality does not depend on the direction of the edge.
pub proof fn lemma_traverse_symmetric(a: Location, b: Location, o: bool)
    ensures
        (o || a.tier == b.tier || a.portal != Portal::Ordinary || b.portal != Portal::Ordinary) == (o
            || b.tier == a.tier || b.portal != Portal::Ordinary || a.portal != Portal::Ordinary),
{
}

} // verus!
