//! Calendar dates and date-times as plain values, read from text with chrono,
//! and ordered as chrono orders them.
use chrono::{Datelike, NaiveDate, NaiveDateTime, Timelike};
use vstd::prelude::*;

use crate::order::OrderedKey;

verus! {

/// A calendar date: what chrono's `NaiveDate` reports through `year`, `month`
/// and `day`.
#[derive(Clone, Copy, Debug, PartialEq, Eq, Structural)]
pub struct Date {
    pub year: i32,
    pub month: u32,
    pub day: u32,
}

/// A date and a time of day: what chrono's `NaiveDateTime` reports through its
/// date and `hour`, `minute`, `second` and `nanosecond`.
#[derive(Clone, Copy, Debug, PartialEq, Eq, Structural)]
pub struct DateTime {
    pub date: Date,
    pub hour: u32,
    pub minute: u32,
    pub second: u32,
    pub nanosecond: u32,
}

/// What `NaiveDate::parse_from_str(text, format)` gives, as a `Date`; `None`
/// where it returns an error.
pub uninterp spec fn chrono_date_from_str(text: Seq<char>, format: Seq<char>) -> Option<Date>;

/// What `NaiveDateTime::parse_from_str(text, format)` gives, as a `DateTime`;
/// `None` where it returns an error.
pub uninterp spec fn chrono_date_time_from_str(text: Seq<char>, format: Seq<char>) -> Option<
    DateTime,
>;

/// Reads a date with chrono's `NaiveDate::parse_from_str` and reports its
/// `year`, `month` and `day`.
/// Claims that the result is the named `chrono_date_from_str` of the text and
/// the format.
#[verifier::external_body]
pub(crate) fn parse_date(text: &str, format: &str) -> (r: Option<Date>)
    ensures
        r == chrono_date_from_str(text@, format@),
{
    match NaiveDate::parse_from_str(text, format) {
        Ok(d) => Some(Date { year: d.year(), month: d.month(), day: d.day() }),
        Err(_) => None,
    }
}

/// Reads a date-time with chrono's `NaiveDateTime::parse_from_str` and reports
/// its date and time fields.
/// Claims that the result is the named `chrono_date_time_from_str` of the text
/// and the format.
#[verifier::external_body]
pub(crate) fn parse_date_time(text: &str, format: &str) -> (r: Option<DateTime>)
    ensures
        r == chrono_date_time_from_str(text@, format@),
{
    match NaiveDateTime::parse_from_str(text, format) {
        Ok(t) => Some(
            DateTime {
                date: Date { year: t.year(), month: t.month(), day: t.day() },
                hour: t.hour(),
                minute: t.minute(),
                second: t.second(),
                nanosecond: t.nanosecond(),
            },
        ),
        Err(_) => None,
    }
}

/// Chronological order, as chrono compares `NaiveDateTime`s: by date (year,
/// month, day), then by time of day (hour, minute, second, nanosecond).
pub open spec fn date_time_before(a: DateTime, b: DateTime) -> bool {
    if a.date.year != b.date.year {
        a.date.year < b.date.year
    } else if a.date.month != b.date.month {
        a.date.month < b.date.month
    } else if a.date.day != b.date.day {
        a.date.day < b.date.day
    } else if a.hour != b.hour {
        a.hour < b.hour
    } else if a.minute != b.minute {
        a.minute < b.minute
    } else if a.second != b.second {
        a.second < b.second
    } else {
        a.nanosecond < b.nanosecond
    }
}

/// `a` is at or before `b` on the calendar and the clock: the fields (year,
/// month, day, hour, minute, second, nanosecond) of `a` are equal to those of
/// `b` or lexicographically smaller.
pub open spec fn not_after(a: DateTime, b: DateTime) -> bool {
    ||| a == b
    ||| a.date.year < b.date.year
    ||| a.date.year == b.date.year && a.date.month < b.date.month
    ||| a.date.year == b.date.year && a.date.month == b.date.month && a.date.day < b.date.day
    ||| a.date == b.date && a.hour < b.hour
    ||| a.date == b.date && a.hour == b.hour && a.minute < b.minute
    ||| a.date == b.date && a.hour == b.hour && a.minute == b.minute && a.second < b.second
    ||| a.date == b.date && a.hour == b.hour && a.minute == b.minute && a.second == b.second
        && a.nanosecond < b.nanosecond
}

/// The order of date-times is chronological: `a` comes strictly before `b`
/// exactly where `a` is at or before `b` and differs from it; so an earlier
/// hour of the same day comes first whatever the minutes, and an earlier day
/// whatever the time of day.
pub proof fn law_date_time_order(a: DateTime, b: DateTime)
    ensures
        date_time_before(a, b) <==> (not_after(a, b) && a != b),
        not_after(a, b) || not_after(b, a),
{
}

impl OrderedKey for DateTime {
    type Model = DateTime;

    open spec fn model(&self) -> DateTime {
        *self
    }

    open spec fn before(a: DateTime, b: DateTime) -> bool {
        date_time_before(a, b)
    }

    proof fn lemma_irreflexive(a: DateTime) {
    }

    proof fn lemma_transitive(a: DateTime, b: DateTime, c: DateTime) {
    }

    proof fn lemma_total(a: DateTime, b: DateTime) {
    }

    fn is_before(&self, other: &Self) -> (r: bool) {
        if self.date.year != other.date.year {
            self.date.year < other.date.year
        } else if self.date.month != other.date.month {
            self.date.month < other.date.month
        } else if self.date.day != other.date.day {
            self.date.day < other.date.day
        } else if self.hour != other.hour {
            self.hour < other.hour
        } else if self.minute != other.minute {
            self.minute < other.minute
        } else if self.second != other.second {
            self.second < other.second
        } else {
            self.nanosecond < other.nanosecond
        }
    }

    fn same_key(&self, other: &Self) -> (r: bool) {
        *self == *other
    }

    fn duplicate(&self) -> (r: Self) {
        *self
    }
}

} // verus!
