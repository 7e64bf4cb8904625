//! The wall clock.
use vstd::prelude::*;

verus! {

/// A bound on every time that the clock can show: the calendar ends before it.
pub const CLOCK_END: i64 = 10000000000000;

/// Whether `now` is a Unix time that the clock can show.
pub open spec fn clock_time(now: i64) -> bool {
    0 <= now < CLOCK_END
}

/// Calls `chrono::Utc::now` and takes its Unix time. The call does not return
/// a time before 1970, nor one after the last year of its calendar: on a machine
/// whose clock stands there, it panics.
#[verifier::external_body]
pub(crate) fn utc_now() -> (r: i64)
    ensures
        clock_time(r),
{
    chrono::Utc::now().timestamp()
}

/// The seconds from one time to another, within the range of `i64`.
pub open spec fn sat_sub(a: i64, b: i64) -> i64 {
    if a - b > i64::MAX {
        i64::MAX
    } else if a - b < i64::MIN {
        i64::MIN
    } else {
        (a - b) as i64
    }
}

/// The seconds from `then` to `now`, within the range of `i64`.
pub fn seconds_since(then: i64, now: i64) -> (r: i64)
    ensures
        r == sat_sub(now, then),
{
    let d: i128 = now as i128 - then as i128;
    if d > i64::MAX as i128 {
        i64::MAX
    } else if d < i64::MIN as i128 {
        i64::MIN
    } else {
        d as i64
    }
}

/// The milliseconds from `then` to `now`; none where `then` is later.
pub open spec fn elapsed(then: u64, now: u64) -> int {
    if now >= then {
        now - then
    } else {
        0
    }
}

/// The milliseconds from `then` to `now`; none where `then` is later.
pub fn ms_since(then: u64, now: u64) -> (r: u64)
    ensures
        r == elapsed(then, now),
{
    if now >= then {
        now - then
    } else {
        0
    }
}

} // verus!
