//! Timestamps as moments of the calendar.
//!
//! A block carries its time as seconds since the Unix epoch. The calendar
//! library decides which of those numbers are moments it can represent; the
//! ledger orders the moments it gets back.

use vstd::prelude::*;

verus! {

/// The moment that the calendar library makes of `timestamp`, as seconds
/// since the epoch, or `None` where the number is outside its range.
pub uninterp spec fn utc_day_time(timestamp: i64) -> Option<i64>;

/// Asks `chrono` for the UTC moment `timestamp` seconds after the epoch
/// (`DateTime::from_timestamp` with no nanoseconds) and reads its seconds
/// back (`DateTime::timestamp`). The library documents that the two
/// round-trip, so a moment that exists has the seconds it was made from;
/// whether it exists is named, not stated.
#[verifier::external_body]
fn chrono_day_time(timestamp: i64) -> (seconds: Option<i64>)
    ensures
        seconds == utc_day_time(timestamp),
        seconds matches Some(s) ==> s == timestamp,
{
    match chrono::DateTime::from_timestamp(timestamp, 0) {
        Some(moment) => Some(moment.timestamp()),
        None => None,
    }
}

/// Reads the system clock through `chrono`'s `Utc::now` and gives the
/// seconds since the epoch. Nothing is promised of the clock.
#[verifier::external_body]
pub(crate) fn chrono_now() -> (timestamp: i64)
{
    chrono::Utc::now().timestamp()
}

/// A moment of the UTC calendar, to the second.
#[derive(Clone, Copy, Debug)]
pub struct DayTime {
    seconds: i64,
}

impl View for DayTime {
    type V = i64;

    /// The seconds between the epoch and the moment.
    closed spec fn view(&self) -> i64 {
        self.seconds
    }
}

impl DayTime {
    /// The seconds between the epoch and the moment.
    pub fn seconds(&self) -> (seconds: i64)
        ensures
            seconds == self@,
    {
        self.seconds
    }

    /// Whether this moment is strictly later than `other`.
    pub fn is_after(&self, other: &DayTime) -> (later: bool)
        ensures
            later == (self@ > other@),
    {
        self.seconds > other.seconds
    }
}

/// The moment `timestamp` seconds after the epoch, where the calendar has one.
pub fn convert_timestamp_to_day_time(timestamp: i64) -> (moment: Option<DayTime>)
    ensures
        match moment {
            Some(m) => utc_day_time(timestamp) == Some(timestamp) && m@ == timestamp,
            None => utc_day_time(timestamp) is None,
        },
{
    match chrono_day_time(timestamp) {
        Some(seconds) => Some(DayTime { seconds }),
        None => None,
    }
}

} // verus!
