use orrery::model::{Location, LocationId, Portal, Tier};
use orrery::tier::{containment_legal, traverse_legal};

const TIERS: [Tier; 5] = [Tier::Room, Tier::Floor, Tier::Structure, Tier::Campus, Tier::Region];

/// Exhaustive containment matrix: legal iff strictly ascending.
#[test]
fn containment_matrix_exhaustive() {
    for (ci, c) in TIERS.iter().enumerate() {
        for (pi, p) in TIERS.iter().enumerate() {
            assert_eq!(containment_legal(*c, *p), ci < pi, "containment {c:?} -> {p:?}");
        }
    }
}

fn loc(tier: Tier, portal: Portal) -> Location {
    Location { id: LocationId::new(), name: "t".into(), tier, portal, capacity: None }
}

#[test]
fn traverse_sibling_portal_and_override() {
    let room = loc(Tier::Room, Portal::Ordinary);
    let room2 = loc(Tier::Room, Portal::Ordinary);
    let bldg = loc(Tier::Structure, Portal::Ordinary);
    let lot = loc(Tier::Structure, Portal::Vehicle);

    assert!(traverse_legal(&room, &room2, false), "same tier");
    assert!(!traverse_legal(&room, &bldg, false), "cross-tier, no portal");
    assert!(traverse_legal(&lot, &room, false), "cross-tier at a portal");
    assert!(traverse_legal(&room, &bldg, true), "explicit override marker");
}

#[test]
fn traverse_legality_is_symmetric_on_concrete_locations() {
    let room = loc(Tier::Room, Portal::Ordinary);
    let lot = loc(Tier::Structure, Portal::Vehicle);
    let bldg = loc(Tier::Structure, Portal::Ordinary);
    for (a, b) in [(&room, &lot), (&room, &bldg), (&lot, &bldg)] {
        for o in [false, true] {
            assert_eq!(traverse_legal(a, b, o), traverse_legal(b, a, o));
        }
    }
}
