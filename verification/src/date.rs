//! Calendar dates as plain year/month/day values, and today's date.
use chrono::Datelike;
use vstd::prelude::*;

verus! {

/// The year of the Unix epoch: the clock never reads a day before it.
pub const UNIX_EPOCH_YEAR: i32 = 1970;

/// A calendar date (proleptic Gregorian).
#[derive(Clone, Copy, Debug, PartialEq, Eq)]
pub struct Date {
    pub year: i32,
    pub month: u32,
    pub day: u32,
}

impl Date {
    /// Month and day are in their calendar ranges.
    pub open spec fn wf(self) -> bool {
        &&& 1 <= self.month <= 12
        &&& 1 <= self.day <= 31
    }

    /// `self` comes strictly before `other` in the calendar.
    pub open spec fn before(self, other: Date) -> bool {
        ||| self.year < other.year
        ||| (self.year == other.year && self.month < other.month)
        ||| (self.year == other.year && self.month == other.month && self.day < other.day)
    }

    /// `self` comes strictly after `other` in the calendar.
    pub fn is_after(&self, other: &Date) -> (r: bool)
        ensures
            r == other.before(*self),
    {
        other.year < self.year || (other.year == self.year && other.month < self.month) || (
        other.year == self.year && other.month == self.month && other.day < self.day)
    }
}

/// A day the clock can read: a calendar date no earlier than the Unix epoch's
/// year.
pub open spec fn clock_date(d: Date) -> bool {
    d.wf() && d.year >= UNIX_EPOCH_YEAR
}

/// Today's date in UTC, from `chrono::Utc::now().date_naive()`. Claims that the
/// month and day are in their calendar ranges and that the year is no earlier
/// than the Unix epoch's (`Utc::now` panics on a clock set before the epoch, so
/// any day it returns is from 1970 on); which day it is depends on the clock.
#[verifier::external_body]
pub(crate) fn today_utc() -> (r: Date)
    ensures
        clock_date(r),
{
    let d = chrono::Utc::now().date_naive();
    Date { year: d.year(), month: d.month(), day: d.day() }
}

} // verus!
