//! Calendar dates as plain values.
//!
//! The core only ever reads the year, month and day of a date: the
//! aggregation engine buckets records by year and month, and stored rows
//! carry an opening date.  A [`Date`] therefore holds those three numbers
//! directly; the clock that produces "today" lives behind a host wrapper.

use vstd::prelude::*;

verus! {

/// A calendar date, held as year, month (1..=12) and day (1..=31).
#[derive(Clone, Copy, Debug, PartialEq, Eq, Structural)]
pub struct Date {
    pub year: i32,
    pub month: u32,
    pub day: u32,
}

/// The field ranges every stored date satisfies.
pub open spec fn date_wf(d: Date) -> bool {
    1 <= d.month <= 12 && 1 <= d.day <= 31
}

/// Lexicographic order on (year, month, day).
pub open spec fn spec_date_le(a: Date, b: Date) -> bool {
    a.year < b.year || (a.year == b.year && (a.month < b.month || (a.month == b.month
        && a.day <= b.day)))
}

impl Date {
    /// Build a date after checking the field ranges.
    pub fn new(year: i32, month: u32, day: u32) -> (r: Option<Date>)
        ensures
            r is Some <==> (1 <= month <= 12 && 1 <= day <= 31),
            r matches Some(d) ==> d == (Date { year, month, day }) && date_wf(d),
    {
        if 1 <= month && month <= 12 && 1 <= day && day <= 31 {
            Some(Date { year, month, day })
        } else {
            None
        }
    }

    /// Is `self` on or before `other` in calendar order?
    pub fn le(&self, other: &Date) -> (r: bool)
        ensures
            r == spec_date_le(*self, *other),
    {
        self.year < other.year || (self.year == other.year && (self.month < other.month
            || (self.month == other.month && self.day <= other.day)))
    }
}

} // verus!
