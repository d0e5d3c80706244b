//! Typed errors.

use vstd::prelude::*;

use crate::model::{EntityRef, Tier};

verus! {

/// Why a command was refused.
#[derive(Clone, Copy, PartialEq, Eq, Structural, Debug)]
pub enum Rejection {
    /// A `within` edge that is not tier-ascending: the child's tier, then
    /// the parent's.
    ContainmentNotAscending(Tier, Tier),
    /// A `traverse` edge across tiers with no portal and no override: the
    /// tiers of its two ends.
    TraverseNotSibling(Tier, Tier),
    /// A `Prevent` policy refused a write that would create this many time
    /// conflicts.
    PreventedTimeConflicts(usize),
    /// A `Prevent` policy refused a write that would create this many
    /// location-exclusivity violations.
    PreventedLocationExclusivity(usize),
}

#[allow(inconsistent_fields)]
#[derive(Debug)]
pub enum OrreryError {
    /// A repository constraint was violated; `constraint` names it.
    ConstraintViolated { constraint: &'static str },
    NotFound(EntityRef),
    /// An interval could not be constructed.
    InvalidInterval { reason: &'static str },
    CommandRejected { reason: Rejection },
    /// A digest preview was requested for a command kind that does not
    /// touch the mirrored derivation inputs.
    PreviewUnsupported { kind: &'static str },
}

/// Two strings, one after the other.
pub(crate) fn joined(head: &str, tail: &str) -> (r: String)
    ensures
        r@ == head@ + tail@,
{
    head.to_owned().concat(tail)
}

/// The decimal digit character of `d`, for `d` below ten.
pub open spec fn digit_char(d: nat) -> char {
    (48 + d) as char
}

/// A natural number written in decimal, most significant digit first,
/// with no sign and no leading zero.
pub open spec fn decimal(n: nat) -> Seq<char>
    decreases n,
{
    if n < 10 {
        seq![digit_char(n)]
    } else {
        decimal(n / 10) + seq![digit_char(n % 10)]
    }
}

/// The decimal digit of `d`, below ten.
fn digit_text(d: u64) -> (r: &'static str)
    requires
        d < 10,
    ensures
        r@ == seq![digit_char(d as nat)],
{
    proof {
        reveal_strlit("0");
        reveal_strlit("1");
        reveal_strlit("2");
        reveal_strlit("3");
        reveal_strlit("4");
        reveal_strlit("5");
        reveal_strlit("6");
        reveal_strlit("7");
        reveal_strlit("8");
        reveal_strlit("9");
    }
    match d {
        0 => "0",
        1 => "1",
        2 => "2",
        3 => "3",
        4 => "4",
        5 => "5",
        6 => "6",
        7 => "7",
        8 => "8",
        _ => "9",
    }
}

/// `n` written in decimal.
pub fn decimal_text(n: u64) -> (r: String)
    ensures
        r@ == decimal(n as nat),
    decreases n,
{
    if n < 10 {
        digit_text(n).to_owned()
    } else {
        let head = decimal_text(n / 10);
        head.concat(digit_text(n % 10))
    }
}

/// A count between two fixed phrases, the count written in decimal.
pub(crate) fn counted(head: &str, n: usize, tail: &str) -> (r: String)
    ensures
        r@ == head@ + decimal(n as nat) + tail@,
{
    let digits = decimal_text(n as u64);
    let front = joined(head, digits.as_str());
    joined(front.as_str(), tail)
}

/// The name of a tier, as it is written in messages.
pub open spec fn tier_name(t: Tier) -> Seq<char> {
    match t {
        Tier::Room => "Room"@,
        Tier::Floor => "Floor"@,
        Tier::Structure => "Structure"@,
        Tier::Campus => "Campus"@,
        Tier::Region => "Region"@,
    }
}

/// The name of a tier.
fn tier_text(t: Tier) -> (r: &'static str)
    ensures
        r@ == tier_name(t),
{
    match t {
        Tier::Room => "Room",
        Tier::Floor => "Floor",
        Tier::Structure => "Structure",
        Tier::Campus => "Campus",
        Tier::Region => "Region",
    }
}

/// Two tiers, as a refused edge shows them.
fn tier_pair(a: Tier, b: Tier) -> (r: String)
    ensures
        r@ == tier_name(a) + " -> "@ + tier_name(b),
{
    let head = joined(tier_text(a), " -> ");
    joined(head.as_str(), tier_text(b))
}

/// Why a command was refused, in words.
pub open spec fn rejection_chars(reason: Rejection) -> Seq<char> {
    match reason {
        Rejection::ContainmentNotAscending(c, p) => "within must be tier-ascending (ADR-0009): "@ + tier_name(c) + " -> "@ + tier_name(p),
        Rejection::TraverseNotSibling(a, b) => "traverse requires sibling tiers, a portal, or an explicit override (ADR-0009): "@
            + tier_name(a) + " -> "@ + tier_name(b),
        Rejection::PreventedTimeConflicts(n) => "prevented: "@ + decimal(n as nat)
            + " time conflict(s) would result (policy Prevent)"@,
        Rejection::PreventedLocationExclusivity(n) => "prevented: "@ + decimal(n as nat)
            + " location-exclusivity violation(s) would result (policy Prevent)"@,
    }
}

/// The lower-case hexadecimal digit of a nibble.
pub open spec fn hex_digit(n: u128) -> char {
    if n < 10 {
        (48 + n) as char
    } else {
        (87 + n) as char
    }
}

/// The 32 hexadecimal digits of a `u128`, most significant first.
pub open spec fn hex_digits(id: u128) -> Seq<char> {
    Seq::new(32, |k: int| hex_digit((id >> ((124 - 4 * k) as u32)) & 0xfu128))
}

/// The hyphenated lower-case text of a UUID: its digits grouped 8-4-4-4-12.
pub open spec fn uuid_chars(id: u128) -> Seq<char> {
    let d = hex_digits(id);
    d.subrange(0, 8) + seq!['-'] + d.subrange(8, 12) + seq!['-'] + d.subrange(12, 16) + seq!['-'] + d.subrange(16, 20)
        + seq!['-'] + d.subrange(20, 32)
}

/// `uuid::Uuid::from_u128(id).to_string()`: the UUID's `Display` text,
/// which is its hyphenated lower-case form.
#[verifier::external_body]
fn uuid_text(id: u128) -> (r: String)
    ensures
        r@ == uuid_chars(id),
{
    uuid::Uuid::from_u128(id).to_string()
}

/// The kind word of an entity reference, with its trailing space.
pub open spec fn entity_kind(e: EntityRef) -> Seq<char> {
    match e {
        EntityRef::Person(_) => "person "@,
        EntityRef::Group(_) => "group "@,
        EntityRef::Event(_) => "event "@,
        EntityRef::Location(_) => "location "@,
        EntityRef::Violation(_) => "violation "@,
    }
}

/// The identifier value of an entity reference.
pub open spec fn entity_value(e: EntityRef) -> u128 {
    match e {
        EntityRef::Person(id) => id.0,
        EntityRef::Group(id) => id.0,
        EntityRef::Event(id) => id.0,
        EntityRef::Location(id) => id.0,
        EntityRef::Violation(id) => id.0,
    }
}

/// The kind word and identifier of an entity reference.
fn entity_text(e: EntityRef) -> (r: String)
    ensures
        r@ == entity_kind(e) + uuid_chars(entity_value(e)),
{
    match e {
        EntityRef::Person(id) => joined("person ", uuid_text(id.0).as_str()),
        EntityRef::Group(id) => joined("group ", uuid_text(id.0).as_str()),
        EntityRef::Event(id) => joined("event ", uuid_text(id.0).as_str()),
        EntityRef::Location(id) => joined("location ", uuid_text(id.0).as_str()),
        EntityRef::Violation(id) => joined("violation ", uuid_text(id.0).as_str()),
    }
}

/// Why a command was refused, in words.
pub fn rejection_text(reason: Rejection) -> (r: String)
    ensures
        r@ == rejection_chars(reason),
{
    match reason {
        Rejection::ContainmentNotAscending(c, p) => {
            let pair = tier_pair(c, p);
            joined("within must be tier-ascending (ADR-0009): ", pair.as_str())
        },
        Rejection::TraverseNotSibling(a, b) => {
            let pair = tier_pair(a, b);
            joined("traverse requires sibling tiers, a portal, or an explicit override (ADR-0009): ", pair.as_str())
        },
        Rejection::PreventedTimeConflicts(n) => counted(
            "prevented: ",
            n,
            " time conflict(s) would result (policy Prevent)",
        ),
        Rejection::PreventedLocationExclusivity(n) => counted(
            "prevented: ",
            n,
            " location-exclusivity violation(s) would result (policy Prevent)",
        ),
    }
}

impl OrreryError {
    /// The HTTP status that answers a request this error refused: a
    /// missing entity is 404, a refused command 409, a malformed request
    /// 400, a broken repository constraint 500.
    pub fn http_status(&self) -> (r: u16)
        ensures
            self is NotFound ==> r == 404,
            self is CommandRejected ==> r == 409,
            self is InvalidInterval ==> r == 400,
            self is PreviewUnsupported ==> r == 400,
            self is ConstraintViolated ==> r == 500,
    {
        match self {
            OrreryError::NotFound(_) => 404,
            OrreryError::CommandRejected { .. } => 409,
            OrreryError::InvalidInterval { .. } => 400,
            OrreryError::PreviewUnsupported { .. } => 400,
            OrreryError::ConstraintViolated { .. } => 500,
        }
    }

    /// The error in words, as it is shown to a user.
    pub fn message(&self) -> (r: String)
        ensures
            (match *self {
                OrreryError::ConstraintViolated { constraint } => r@ == "repository constraint violated: "@ + constraint@,
                OrreryError::NotFound(e) => r@ == "not found: "@ + entity_kind(e) + uuid_chars(entity_value(e)),
                OrreryError::InvalidInterval { reason } => r@ == "invalid interval: "@ + reason@,
                OrreryError::PreviewUnsupported { kind } => r@ == "no digest preview for command kind `"@ + kind@
                    + "`: only membership, subgroup, and expectation commands have one"@,
                OrreryError::CommandRejected { reason } => r@ == "command rejected: "@ + rejection_chars(reason),
            }),
    {
        match self {
            OrreryError::ConstraintViolated { constraint } => joined("repository constraint violated: ", constraint),
            OrreryError::NotFound(e) => joined("not found: ", entity_text(*e).as_str()),
            OrreryError::InvalidInterval { reason } => joined("invalid interval: ", reason),
            OrreryError::CommandRejected { reason } => joined("command rejected: ", rejection_text(*reason).as_str()),
            OrreryError::PreviewUnsupported { kind } => {
                let head = joined("no digest preview for command kind `", kind);
                joined(head.as_str(), "`: only membership, subgroup, and expectation commands have one")
            },
        }
    }
}

} // verus!
