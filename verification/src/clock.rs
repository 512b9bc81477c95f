//! Instants and spans of time.
use vstd::prelude::*;

verus! {

/// A second. Instants are counted from the Unix epoch, in the same unit.
pub const SECOND: u64 = 1_000_000_000;

/// An hour.
pub const HOUR: u64 = 3_600_000_000_000;

/// A day.
pub const DAY: u64 = 86_400_000_000_000;

/// The time from `since` to `now`, and none where `since` is later.
pub open spec fn elapsed_of(now: u64, since: u64) -> int {
    if now >= since {
        now - since
    } else {
        0
    }
}

/// The time from `since` to `now`, and none where `since` is later.
pub fn elapsed(now: u64, since: u64) -> (r: u64)
    ensures
        r == elapsed_of(now, since),
{
    if now >= since {
        now - since
    } else {
        0
    }
}

/// Time that has gone by is counted from the earlier point on, and none has
/// where the point is yet to come.
pub proof fn law_time_that_went_by(now: u64, since: u64)
    ensures
        since <= now ==> elapsed_of(now, since) + since == now,
        since > now ==> elapsed_of(now, since) == 0,
{
}

/// Times are counted in nanoseconds.
pub proof fn law_units_of_time(n: nat)
    ensures
        n * SECOND == n * 1_000_000_000,
        n * HOUR == n * (60 * 60 * 1_000_000_000),
        n * DAY == n * (24 * 60 * 60 * 1_000_000_000),
{
}

} // verus!
