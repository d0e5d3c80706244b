//! Clock labels for display: an instant in microseconds as hours and
//! minutes.

use vstd::prelude::*;

use crate::muster::demo::HOUR;

use crate::error::{decimal, decimal_text, joined};
use crate::travel::div_trunc;

verus! {

/// One hour in microseconds.
pub const HOUR_US: i64 = HOUR;

/// One minute in microseconds.
pub const MINUTE: i64 = 60_000_000;

/// Whole hours and the whole minutes of the remainder, both truncated
/// toward zero as `i64` division and remainder do.
pub open spec fn clock_parts_spec(us: int) -> (int, int) {
    let h = div_trunc(us, HOUR as int);
    let rest = us - h * HOUR;
    (h, div_trunc(rest, MINUTE as int))
}

/// Hours and minutes of the instant `us`.
pub fn clock_parts(us: i64) -> (r: (i64, i64))
    ensures
        r.0 == clock_parts_spec(us as int).0,
        r.1 == clock_parts_spec(us as int).1,
        -HOUR <= r.0 <= HOUR,
        -60 < r.1 < 60,
{
    if us >= 0 {
        let h = us / HOUR;
        let rest = us % HOUR;
        assert(rest == us - h * HOUR);
        (h, rest / MINUTE)
    } else {
        let n: i128 = -(us as i128);
        let h: i128 = n / (HOUR as i128);
        let rest: i128 = n % (HOUR as i128);
        assert(rest == n - h * HOUR);
        assert(-rest == us - (-h) * HOUR);
        let m: i128 = rest / (MINUTE as i128);
        ((-h) as i64, (-m) as i64)
    }
}

/// A number as `format!` writes it with `{:02}`: negative numbers as a
/// minus sign and their magnitude, others zero-padded to two digits.
pub open spec fn padded2(x: int) -> Seq<char> {
    if x < 0 {
        seq!['-'] + decimal((-x) as nat)
    } else if x < 10 {
        seq!['0'] + decimal(x as nat)
    } else {
        decimal(x as nat)
    }
}

/// A number written as `{:02}` writes it.
fn padded2_text(x: i64) -> (r: String)
    requires
        x > i64::MIN,
    ensures
        r@ == padded2(x as int),
{
    proof {
        reveal_strlit("-");
        reveal_strlit("0");
    }
    if x < 0 {
        let digits = decimal_text((-x) as u64);
        joined("-", digits.as_str())
    } else if x < 10 {
        let digits = decimal_text(x as u64);
        joined("0", digits.as_str())
    } else {
        decimal_text(x as u64)
    }
}

/// The "HH:MM" label of an instant: whole hours and the minutes of the
/// remainder, each written as `{:02}` writes it, joined by a colon.
pub fn hhmm(us: i64) -> (r: String)
    ensures
        r@ == padded2(clock_parts_spec(us as int).0) + seq![':'] + padded2(clock_parts_spec(us as int).1),
{
    let (h, m) = clock_parts(us);
    let hs = padded2_text(h);
    let ms = padded2_text(m);
    proof {
        reveal_strlit(":");
    }
    let front = joined(hs.as_str(), ":");
    joined(front.as_str(), ms.as_str())
}

} // verus!
