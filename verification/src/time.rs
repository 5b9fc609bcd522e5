//! Moments in time: reading and writing RFC 3339, order, and UTC days.

use chrono::{DateTime, SecondsFormat, Utc};
use vstd::prelude::*;

use crate::sort::SortKey;

verus! {

/// A moment in UTC: whole seconds since 1970-01-01T00:00:00Z, leap seconds not counted, and
/// the nanoseconds since the last such second, which reach or exceed 1,000,000,000 within a
/// leap second.
#[derive(Debug, Clone, Copy, PartialEq, Eq, Structural)]
pub struct Timestamp {
    pub seconds: i64,
    pub nanos: u32,
}

/// The number of seconds in a day.
pub const DAY_SECONDS: i64 = 86_400;

impl Timestamp {
    /// Whether this moment is not after the other.
    pub open spec fn not_after(self, other: Timestamp) -> bool {
        self.seconds < other.seconds || (self.seconds == other.seconds && self.nanos
            <= other.nanos)
    }

    /// Whether this moment is before the other.
    pub open spec fn earlier_than(self, other: Timestamp) -> bool {
        !other.not_after(self)
    }

    /// The UTC day of this moment, counted from 1970-01-01.
    pub open spec fn day(self) -> int {
        self.seconds as int / DAY_SECONDS as int
    }

    /// Whether this moment is not after the other.
    pub fn at_or_before(&self, other: &Timestamp) -> (r: bool)
        ensures
            r == self.not_after(*other),
    {
        self.seconds < other.seconds || (self.seconds == other.seconds && self.nanos
            <= other.nanos)
    }

    /// Whether this moment is before the other.
    pub fn is_before(&self, other: &Timestamp) -> (r: bool)
        ensures
            r == self.earlier_than(*other),
    {
        !other.at_or_before(self)
    }

    /// The UTC day of this moment, counted from 1970-01-01.
    pub fn utc_day(&self) -> (r: i64)
        ensures
            r == self.day(),
    {
        if self.seconds >= 0 {
            self.seconds / DAY_SECONDS
        } else {
            let back: i64 = -(self.seconds + 1);
            -(back / DAY_SECONDS) - 1
        }
    }
}

impl SortKey for Timestamp {
    open spec fn key_le(self, other: Self) -> bool {
        self.not_after(other)
    }

    proof fn key_le_total(a: Self, b: Self) {
    }

    proof fn key_le_transitive(a: Self, b: Self, c: Self) {
    }

    fn comes_first(&self, other: &Self) -> (r: bool) {
        self.at_or_before(other)
    }
}

/// A sort key that puts later moments first.
#[derive(Debug, Clone, Copy, PartialEq, Eq, Structural)]
pub struct NewestFirst(pub Timestamp);

impl SortKey for NewestFirst {
    open spec fn key_le(self, other: Self) -> bool {
        other.0.not_after(self.0)
    }

    proof fn key_le_total(a: Self, b: Self) {
    }

    proof fn key_le_transitive(a: Self, b: Self, c: Self) {
    }

    fn comes_first(&self, other: &Self) -> (r: bool) {
        other.0.at_or_before(&self.0)
    }
}

/// A text that is no RFC 3339 date, and what is wrong with it.
#[derive(Debug)]
pub struct DateError {
    pub date: String,
    pub reason: String,
}

/// What chrono's `DateTime::parse_from_rfc3339` makes of a text: the moment that it stands
/// for, as the UTC timestamp and its nanoseconds, or the wording of the parse error.
pub uninterp spec fn rfc3339_instant(text: Seq<char>) -> Result<(i64, u32), Seq<char>>;

/// What chrono's `DateTime::to_rfc3339_opts` writes, to whole seconds and with `Z` for UTC,
/// for the moment with this timestamp and these nanoseconds; `None` where chrono has no such
/// moment.
pub uninterp spec fn rfc3339_text(seconds: i64, nanos: u32) -> Option<Seq<char>>;

/// The moment that a text stands for.
pub open spec fn instant(text: Seq<char>) -> Option<Timestamp> {
    match rfc3339_instant(text) {
        Ok((seconds, nanos)) => Some(Timestamp { seconds, nanos }),
        Err(_) => None,
    }
}

/// Whether an error is the one that parsing a text gives.
pub open spec fn is_date_error(text: Seq<char>, error: DateError) -> bool {
    rfc3339_instant(text) == Err::<(i64, u32), Seq<char>>(error.reason@) && error.date@ == text
}

/// A parse result with the wording of the error as characters.
pub open spec fn parse_view(r: Result<(i64, u32), String>) -> Result<(i64, u32), Seq<char>> {
    match r {
        Ok(parts) => Ok(parts),
        Err(reason) => Err(reason@),
    }
}

/// Calls chrono's `DateTime::parse_from_rfc3339`. Believed: the result is a function of the
/// text, and chrono can make a moment again from the timestamp and nanoseconds of one that it
/// parsed. What RFC 3339 dates look like is left to chrono.
#[verifier::external_body]
fn parse_rfc3339(text: &str) -> (r: Result<(i64, u32), String>)
    ensures
        parse_view(r) == rfc3339_instant(text@),
        r is Ok ==> rfc3339_text(r->Ok_0.0, r->Ok_0.1) is Some,
{
    match DateTime::parse_from_rfc3339(text) {
        Ok(date) => Ok((date.to_utc().timestamp(), date.to_utc().timestamp_subsec_nanos())),
        Err(error) => Err(error.to_string()),
    }
}

/// Calls chrono's `DateTime::to_rfc3339_opts` on the moment that `DateTime::from_timestamp`
/// makes of its arguments. Believed: the text is a function of them.
#[verifier::external_body]
fn format_rfc3339(seconds: i64, nanos: u32) -> (r: String)
    requires
        rfc3339_text(seconds, nanos) is Some,
    ensures
        rfc3339_text(seconds, nanos) == Some(r@),
{
    let date: DateTime<Utc> = DateTime::from_timestamp(seconds, nanos).unwrap();
    date.to_rfc3339_opts(SecondsFormat::Secs, true)
}

/// Reads an RFC 3339 date.
pub fn parse_date(date: &str) -> (r: Result<Timestamp, DateError>)
    ensures
        r matches Ok(t) ==> instant(date@) == Some(t) && rfc3339_text(t.seconds, t.nanos) is Some,
        r matches Err(e) ==> is_date_error(date@, e),
{
    match parse_rfc3339(date) {
        Ok((seconds, nanos)) => Ok(Timestamp { seconds, nanos }),
        Err(reason) => Err(DateError { date: date.to_owned(), reason }),
    }
}

/// Reads an RFC 3339 date and writes it again in UTC and to whole seconds.
pub fn utc_date(date: &str) -> (r: Result<String, DateError>)
    ensures
        r matches Ok(text) ==> instant(date@) is Some && rfc3339_text(
            instant(date@)->0.seconds,
            instant(date@)->0.nanos,
        ) == Some(text@),
        r matches Err(e) ==> is_date_error(date@, e),
{
    match parse_date(date) {
        Ok(t) => Ok(format_rfc3339(t.seconds, t.nanos)),
        Err(e) => Err(e),
    }
}

}
