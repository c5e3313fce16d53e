//! The wall clock, and when a thought counts as settled.

use vstd::prelude::*;

use crate::error::{Error, Result};

verus! {

/// How long a thought stays live since its last edit, in milliseconds: an hour.
pub const SETTLE_WINDOW_MS: i64 = 3_600_000;

/// A point in time as the system's clock shows it.
#[verifier::external_type_specification]
#[verifier::external_body]
pub struct ExSystemTime(std::time::SystemTime);

/// `std::time::SystemTime::now`: the system's current time. Nothing is claimed
/// of it.
#[verifier::external_body]
fn system_time() -> (now: std::time::SystemTime) {
    std::time::SystemTime::now()
}

/// How long after the start of 1970 a point in time is, if it is not before.
pub uninterp spec fn since_1970(time: std::time::SystemTime) -> Option<std::time::Duration>;

/// The whole milliseconds of a duration.
pub uninterp spec fn millis_of(duration: std::time::Duration) -> u128;

/// `std::time::SystemTime::duration_since` the start of 1970: how long ago that
/// was, or nothing where it is yet to come. Named `since_1970`.
#[verifier::external_body]
fn since_epoch(time: std::time::SystemTime) -> (r: Option<std::time::Duration>)
    ensures
        r == since_1970(time),
{
    match time.duration_since(std::time::UNIX_EPOCH) {
        Ok(duration) => Some(duration),
        Err(_) => None,
    }
}

/// `std::time::Duration::as_millis`: the whole milliseconds of a duration. Named
/// `millis_of`.
#[verifier::external_body]
fn whole_millis(duration: std::time::Duration) -> (n: u128)
    ensures
        n == millis_of(duration),
{
    duration.as_millis()
}

/// A number of milliseconds since the start of 1970 as a timestamp: it is one if
/// 64 bits hold it, and the clock is out of range otherwise.
pub open spec fn stamped(millis: Option<u128>, r: Result<i64>) -> bool {
    match millis {
        Some(n) => if n <= i64::MAX {
            r == Ok::<i64, Error>(n as i64)
        } else {
            r == Err::<i64, Error>(Error::Clock)
        },
        None => r == Err::<i64, Error>(Error::Clock),
    }
}

/// The milliseconds since the start of 1970 at a point in time, if it is not
/// before.
pub open spec fn epoch_millis(time: std::time::SystemTime) -> Option<u128> {
    match since_1970(time) {
        Some(duration) => Some(millis_of(duration)),
        None => None,
    }
}

/// A number of milliseconds since the start of 1970 as a timestamp.
pub fn timestamp(millis: Option<u128>) -> (r: Result<i64>)
    ensures
        stamped(millis, r),
{
    match millis {
        Some(n) => if n <= i64::MAX as u128 {
            Ok(n as i64)
        } else {
            Err(Error::Clock)
        },
        None => Err(Error::Clock),
    }
}

/// A timestamp that the clock may show: that of some point in time.
pub open spec fn clock_shows(now: i64) -> bool {
    exists|time: std::time::SystemTime|
        stamped(#[trigger] epoch_millis(time), Ok::<i64, Error>(now))
}

/// The error where the clock shows a point in time that has no timestamp.
pub open spec fn clock_failed(e: Error) -> bool {
    e is Clock && exists|time: std::time::SystemTime|
        stamped(#[trigger] epoch_millis(time), Err::<i64, Error>(e))
}

/// The current time in milliseconds since 1970-01-01 UTC: the timestamp of what
/// the system's clock shows. Nothing says which point in time that is.
pub fn now_unix_millis() -> (r: Result<i64>)
    ensures
        match r {
            Ok(now) => now >= 0 && clock_shows(now),
            Err(e) => clock_failed(e),
        },
{
    let time = system_time();
    let ghost shown = time;
    let millis = match since_epoch(time) {
        Some(duration) => Some(whole_millis(duration)),
        None => None,
    };
    assert(millis == epoch_millis(shown));
    timestamp(millis)
}

/// A thought is settled once it was made so, or when its last edit is more
/// than the window ago.
pub open spec fn settled(updated_at: i64, settled_at: Option<i64>, now: i64) -> bool {
    settled_at is Some || now - updated_at > SETTLE_WINDOW_MS
}

/// Whether a thought is settled at the time `now`.
pub fn is_settled_now(updated_at: i64, settled_at: Option<i64>, now: i64) -> (r: bool)
    ensures
        r == settled(updated_at, settled_at, now),
{
    settled_at.is_some() || now as i128 - updated_at as i128 > SETTLE_WINDOW_MS as i128
}

/// A time is stamped with its milliseconds since 1970 exactly where it is not
/// before that and they fit; otherwise the clock has failed.
pub proof fn law_stamp(millis: Option<u128>, r: Result<i64>)
    requires
        stamped(millis, r),
    ensures
        r is Ok <==> (millis matches Some(n) && n <= 0x7fff_ffff_ffff_ffff),
        r matches Ok(now) ==> millis == Some(now as u128) && now >= 0,
        r matches Err(e) ==> e is Clock,
{
}

/// A thought is settled where it was settled, or has not been modified for more
/// than an hour.
pub proof fn law_settles(updated_at: i64, settled_at: Option<i64>, now: i64)
    ensures
        settled(updated_at, settled_at, now) <==> settled_at is Some || now - updated_at > 60 * 60
            * 1000,
{
}

} // verus!
