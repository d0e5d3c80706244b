use orrery::error::{OrreryError, Rejection};
use orrery::model::{EntityRef, EventId, GroupId, LocationId, PersonId, Tier, ViolationId};
use orrery::muster::clock::{clock_parts, HOUR_US};
use orrery::muster::hhmm;

fn status_for(e: OrreryError) -> u16 {
    e.http_status()
}

#[test]
fn error_contract_every_variant_maps_to_its_pinned_status() {
    assert_eq!(status_for(OrreryError::NotFound(EntityRef::Event(EventId::new()))), 404);
    assert_eq!(
        status_for(OrreryError::CommandRejected { reason: Rejection::PreventedTimeConflicts(1) }),
        409
    );
    assert_eq!(status_for(OrreryError::InvalidInterval { reason: "test" }), 400);
    assert_eq!(status_for(OrreryError::ConstraintViolated { constraint: "test" }), 500);
    assert_eq!(status_for(OrreryError::PreviewUnsupported { kind: "test" }), 400);
}

#[test]
fn hhmm_renders_hours_and_minutes() {
    assert_eq!(hhmm(9 * HOUR_US), "09:00");
    assert_eq!(hhmm(18 * HOUR_US + 30 * 60 * 1_000_000), "18:30");
}

#[test]
fn clock_parts_truncate_toward_zero() {
    assert_eq!(clock_parts(0), (0, 0));
    assert_eq!(clock_parts(HOUR_US - 1), (0, 59));
    assert_eq!(clock_parts(25 * HOUR_US + 5 * 60_000_000 + 7), (25, 5));
    assert_eq!(clock_parts(-(HOUR_US + 90 * 1_000_000)), (-1, -1));
    assert_eq!(hhmm(25 * HOUR_US + 5 * 60_000_000), "25:05");
}

#[test]
fn not_found_message_names_the_entity_kind() {
    let e = OrreryError::NotFound(EntityRef::Event(EventId(0x1234)));
    let m = e.message();
    assert!(m.starts_with("not found: event "), "{m}");
    assert!(m.ends_with("1234"), "{m}");
}

#[test]
fn not_found_message_writes_the_hyphenated_uuid() {
    let e = OrreryError::NotFound(EntityRef::Event(EventId(0xa1a2a3a4b1b2c1c2d1d2d3d4d5d6d7d8)));
    assert_eq!(e.message(), "not found: event a1a2a3a4-b1b2-c1c2-d1d2-d3d4d5d6d7d8");
}

#[test]
fn fresh_identifiers_are_version_7_uuids() {
    for x in [PersonId::new().0, GroupId::new().0, EventId::new().0, LocationId::new().0, ViolationId::new().0] {
        assert_eq!((x >> 76) & 0xf, 7);
        assert_eq!((x >> 62) & 0x3, 2);
    }
}

#[test]
fn refused_edges_name_their_tiers() {
    let e = OrreryError::CommandRejected { reason: Rejection::ContainmentNotAscending(Tier::Structure, Tier::Room) };
    assert_eq!(e.message(), "command rejected: within must be tier-ascending (ADR-0009): Structure -> Room");
    let e = OrreryError::CommandRejected { reason: Rejection::TraverseNotSibling(Tier::Room, Tier::Campus) };
    assert_eq!(
        e.message(),
        "command rejected: traverse requires sibling tiers, a portal, or an explicit override (ADR-0009): Room -> Campus"
    );
}

#[test]
fn prevented_counts_are_written_in_decimal() {
    let e = OrreryError::CommandRejected { reason: Rejection::PreventedTimeConflicts(12) };
    assert_eq!(e.message(), "command rejected: prevented: 12 time conflict(s) would result (policy Prevent)");
    let e = OrreryError::CommandRejected { reason: Rejection::PreventedTimeConflicts(0) };
    assert_eq!(e.message(), "command rejected: prevented: 0 time conflict(s) would result (policy Prevent)");
}

#[test]
fn hhmm_writes_every_instant_as_zero_padded_format_does() {
    assert_eq!(hhmm(-(HOUR_US + 90 * 1_000_000)), "-1:-1");
    assert_eq!(hhmm(123 * HOUR_US + 7 * 60_000_000), "123:07");
    assert_eq!(hhmm(-(5 * 60_000_000)), "00:-5");
    assert_eq!(hhmm(0), "00:00");
}

#[test]
fn decimal_text_writes_digits_most_significant_first() {
    assert_eq!(orrery::error::decimal_text(0), "0");
    assert_eq!(orrery::error::decimal_text(1_234_567), "1234567");
    assert_eq!(orrery::error::decimal_text(u64::MAX), u64::MAX.to_string());
}
