//! Per-platform caches of the launchers' game lists.

use vstd::prelude::*;

use crate::clock::{elapsed_nanos, nanos_between, now, parse_rfc3339, rfc3339_instant, Instant};
use crate::Game;

verus! {

/// One platform's cached game list, as stored on disk.
#[derive(Clone, Debug)]
pub struct CacheFile {
    pub last_updated: String,
    pub source: String,
    pub games: Vec<Game>,
}

/// The most days a staleness check can be asked about: `TimeDelta::days`
/// refuses more.
pub const MAX_AGE_DAYS: i64 = 106_751_991_167;

/// A cache updated at `updated` (`None`: its timestamp does not parse) is
/// stale at `now` when more than `max_age_days` days have passed.
pub open spec fn stale(updated: Option<Instant>, now: Instant, max_age_days: int) -> bool {
    match updated {
        Some(u) => elapsed_nanos(u, now) > max_age_days * 86_400_000_000_000,
        None => true,
    }
}

/// Whether a cache updated at `updated` is older than `max_age_days` at `now`.
pub fn stale_at(updated: Option<Instant>, now: Instant, max_age_days: i64) -> (r: bool)
    requires
        -MAX_AGE_DAYS <= max_age_days <= MAX_AGE_DAYS,
    ensures
        r == stale(updated, now, max_age_days as int),
{
    match updated {
        Some(u) => nanos_between(u, now) > max_age_days as i128 * 86_400_000_000_000,
        None => true,
    }
}

/// Returns `true` if the cache timestamp is older than `max_age_days`.
/// Also returns `true` if the timestamp cannot be parsed.
///
/// The age is measured against the current time, read once: the result is
/// the staleness of the parsed timestamp at that instant, so only the
/// unparsable case is fixed by the text alone; `stale_at` gives the answer
/// for a known current time.
pub fn is_stale(last_updated: &str, max_age_days: i64) -> (r: bool)
    requires
        -MAX_AGE_DAYS <= max_age_days <= MAX_AGE_DAYS,
    ensures
        exists|t: Instant| r == #[trigger] stale(rfc3339_instant(last_updated@), t, max_age_days as int),
        rfc3339_instant(last_updated@) is None ==> r,
{
    let updated = parse_rfc3339(last_updated);
    let t = now();
    let r = stale_at(updated, t, max_age_days);
    assert(r == stale(rfc3339_instant(last_updated@), t, max_age_days as int));
    r
}

} // verus!
