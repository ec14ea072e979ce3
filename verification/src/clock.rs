//! Instants as chrono reports them, and the time that passed between two.

use chrono::{DateTime, Utc};
use vstd::prelude::*;

verus! {

/// A UTC instant: whole seconds since the Unix epoch and the nanoseconds
/// past them, as `DateTime::timestamp` and `timestamp_subsec_nanos` give
/// them. A leap second shows as nanoseconds of 1e9 or more, and the
/// arithmetic here counts it as chrono's subtraction does.
#[derive(Clone, Copy, Debug, PartialEq, Eq, Structural)]
pub struct Instant {
    pub secs: i64,
    pub nanos: u32,
}

/// The instant that an RFC 3339 timestamp such as
/// `2020-01-01T00:00:00+00:00` denotes, as chrono parses it; `None` when
/// the text is not such a timestamp.
pub uninterp spec fn rfc3339_instant(text: Seq<char>) -> Option<Instant>;

/// `chrono::DateTime::parse_from_rfc3339`, read as a UTC instant: the
/// result is `rfc3339_instant(text)`.
#[verifier::external_body]
pub(crate) fn parse_rfc3339(text: &str) -> (r: Option<Instant>)
    ensures
        r == rfc3339_instant(text@),
{
    match DateTime::parse_from_rfc3339(text) {
        Ok(t) => Some(Instant { secs: t.timestamp(), nanos: t.timestamp_subsec_nanos() }),
        Err(_) => None,
    }
}

/// `chrono::Utc::now`: the current instant. Nothing is promised of its value.
#[verifier::external_body]
pub(crate) fn now() -> (r: Instant) {
    let t = Utc::now();
    Instant { secs: t.timestamp(), nanos: t.timestamp_subsec_nanos() }
}

/// `a` comes before `b`.
pub open spec fn earlier(a: Instant, b: Instant) -> bool {
    a.secs < b.secs || (a.secs == b.secs && a.nanos < b.nanos)
}

/// The second of its day that an instant falls in.
pub open spec fn second_of_day(t: Instant) -> int {
    (t.secs as int) % 86_400
}

/// The leap second that chrono's subtraction counts between two instants:
/// one more when `from` is inside a leap second and `to` lies at a later
/// second of its day, one less in the mirror case.
pub open spec fn leap_adjust(from: Instant, to: Instant) -> int {
    if second_of_day(to) > second_of_day(from) && from.nanos >= 1_000_000_000 {
        1
    } else if second_of_day(to) < second_of_day(from) && to.nanos >= 1_000_000_000 {
        -1
    } else {
        0
    }
}

/// Nanoseconds from `from` to `to` (negative when `to` is earlier), as
/// `DateTime::signed_duration_since` measures them: the whole seconds
/// between the timestamps, the leap second it counts, and the difference
/// of the nanoseconds.
pub open spec fn elapsed_nanos(from: Instant, to: Instant) -> int {
    (to.secs - from.secs + leap_adjust(from, to)) * 1_000_000_000 + (to.nanos - from.nanos)
}

/// Outside leap seconds, `a` comes before `b` exactly when time passes
/// from `a` to `b`, and the time from `b` back to `a` is its negation.
pub proof fn law_earlier_is_time_order(a: Instant, b: Instant)
    requires
        a.nanos < 1_000_000_000,
        b.nanos < 1_000_000_000,
    ensures
        earlier(a, b) <==> elapsed_nanos(a, b) > 0,
        elapsed_nanos(b, a) == -elapsed_nanos(a, b),
        elapsed_nanos(a, b) == 0 <==> a == b,
{
    assert(leap_adjust(a, b) == 0);
    assert(leap_adjust(b, a) == 0);
    let d = b.secs - a.secs;
    let e = b.nanos - a.nanos;
    assert(-1_000_000_000 < e < 1_000_000_000);
    assert(d >= 1 ==> d * 1_000_000_000 + e > 0) by (nonlinear_arith)
        requires
            -1_000_000_000 < e < 1_000_000_000,
    ;
    assert(d <= -1 ==> d * 1_000_000_000 + e < 0) by (nonlinear_arith)
        requires
            -1_000_000_000 < e < 1_000_000_000,
    ;
    assert(d == 0 ==> d * 1_000_000_000 + e == e);
    assert((a.secs - b.secs) * 1_000_000_000 == -(d * 1_000_000_000)) by (nonlinear_arith)
        requires
            d == b.secs - a.secs,
    ;
}

/// The second of its day that an instant falls in.
fn day_second(t: Instant) -> (r: i128)
    ensures
        r == second_of_day(t),
{
    let shifted: i128 = t.secs as i128 + 12_159_718_993_900_339_200;
    proof {
        vstd::arithmetic::div_mod::lemma_mod_multiples_vanish(140_737_488_355_328, t.secs as int, 86_400);
        assert(86_400 * 140_737_488_355_328 + t.secs == shifted);
    }
    shifted % 86_400
}

/// Nanoseconds from `from` to `to`.
pub fn nanos_between(from: Instant, to: Instant) -> (r: i128)
    ensures
        r == elapsed_nanos(from, to),
{
    let sf = day_second(from);
    let st = day_second(to);
    let adjust: i128 = if st > sf && from.nanos >= 1_000_000_000 {
        1
    } else if st < sf && to.nanos >= 1_000_000_000 {
        -1
    } else {
        0
    };
    let secs: i128 = to.secs as i128 - from.secs as i128 + adjust;
    assert(-0x1_0000_0000_0000_0001 <= secs <= 0x1_0000_0000_0000_0001);
    assert(-0x1_0000_0000_0000_0001 * 1_000_000_000 <= secs * 1_000_000_000
        <= 0x1_0000_0000_0000_0001 * 1_000_000_000) by (nonlinear_arith)
        requires
            -0x1_0000_0000_0000_0001 <= secs <= 0x1_0000_0000_0000_0001,
    ;
    secs * 1_000_000_000 + (to.nanos as i128 - from.nanos as i128)
}

/// `a` lies before `b`: the comparison `DateTime<Utc>`'s order makes.
pub fn is_earlier(a: Instant, b: Instant) -> (r: bool)
    ensures
        r == earlier(a, b),
        a.nanos < 1_000_000_000 && b.nanos < 1_000_000_000 ==> (r <==> elapsed_nanos(a, b) > 0),
{
    proof {
        if a.nanos < 1_000_000_000 && b.nanos < 1_000_000_000 {
            law_earlier_is_time_order(a, b);
        }
    }
    a.secs < b.secs || (a.secs == b.secs && a.nanos < b.nanos)
}

} // verus!
