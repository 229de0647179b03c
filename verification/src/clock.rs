//! The clocks that the game reads. Every item here is trusted: what a clock
//! shows depends on the moment of the call, so none of them promises a value.
use vstd::prelude::*;

use std::time::{Duration, Instant, SystemTime, SystemTimeError};

use crate::leaderboard::{STAMP_FIRST, STAMP_LAST};

verus! {

/// `std::time::Instant`, carried through the model as an opaque value.
#[verifier::external_type_specification]
#[verifier::external_body]
pub struct ExInstant(Instant);

/// `std::time::SystemTime`, only passed from one clock call to the next.
#[verifier::external_type_specification]
#[verifier::external_body]
pub struct ExSystemTime(SystemTime);

/// `std::time::SystemTimeError`, the error of `SystemTime::duration_since`.
#[verifier::external_type_specification]
#[verifier::external_body]
pub struct ExSystemTimeError(SystemTimeError);

/// Calls `Instant::now`. The reading depends on the moment: nothing is stated of it.
#[verifier::external_body]
pub(crate) fn instant_now() -> (now: Instant) {
    Instant::now()
}

/// Calls `Instant::elapsed`: the time since `start`. It depends on the moment
/// of the call: nothing is stated of it.
#[verifier::external_body]
pub(crate) fn elapsed_since(start: &Instant) -> (d: Duration) {
    start.elapsed()
}

/// Calls `Duration::as_secs`: the whole seconds of `d`. `Duration` is opaque
/// here, so nothing is stated of the number.
#[verifier::external_body]
pub(crate) fn whole_seconds(d: &Duration) -> (secs: u64) {
    d.as_secs()
}

/// Calls `SystemTime::now`. The reading depends on the moment: nothing is stated of it.
#[verifier::external_body]
pub(crate) fn system_now() -> (now: SystemTime) {
    SystemTime::now()
}

/// Calls `SystemTime::duration_since` with `UNIX_EPOCH`: the time from the
/// epoch to `t`, or an error when `t` lies before it. Nothing is stated of
/// which of the two comes back.
#[verifier::external_body]
pub(crate) fn since_unix_epoch(t: &SystemTime) -> (d: Result<Duration, SystemTimeError>) {
    t.duration_since(SystemTime::UNIX_EPOCH)
}

/// Calls `SystemTimeError::duration`: how far before the Unix epoch the
/// reading lay. Nothing is stated of it.
#[verifier::external_body]
pub(crate) fn epoch_gap(e: &SystemTimeError) -> (d: Duration) {
    e.duration()
}

/// Calls `Duration::subsec_nanos`: the part of `d` below a whole second, in
/// nanoseconds. std documents it as less than one billion; nothing more is
/// stated, `Duration` being opaque here.
#[verifier::external_body]
pub(crate) fn part_nanos(d: &Duration) -> (n: u32)
    ensures
        n < 1_000_000_000,
{
    d.subsec_nanos()
}

/// Renders the moment `secs` seconds after 1970-01-01 00:00 UTC (before it
/// when negative) in the machine's local time zone as `%Y-%m-%d %H:%M`:
/// `DateTime::UNIX_EPOCH + TimeDelta::seconds(secs)`, then `with_timezone`
/// with `chrono::Local`, then `format`. chrono panics on moments outside its
/// range, the years -262143 to 262142; `requires` keeps `secs` within
/// `STAMP_FIRST..=STAMP_LAST`, the first and last second of that range.
/// The text depends on the machine's time zone: nothing is stated of it.
/// Left unsaid: chrono's local-offset lookup also expects the machine's
/// time-zone data to give an offset of less than a day.
#[verifier::external_body]
pub(crate) fn local_minute_stamp_at(secs: i64) -> (stamp: String)
    requires
        STAMP_FIRST <= secs <= STAMP_LAST,
{
    let moment = chrono::DateTime::UNIX_EPOCH + chrono::TimeDelta::seconds(secs);
    moment.with_timezone(&chrono::Local).format("%Y-%m-%d %H:%M").to_string()
}

} // verus!
