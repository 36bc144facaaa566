//! The clock: the only place where the library reads the time, and the
//! calendar month of a moment.

use vstd::prelude::*;

verus! {

/// A moment in time: whole seconds since the Unix epoch, and the nanoseconds
/// since the last whole second. Moments are ordered by seconds, then by
/// nanoseconds.
#[derive(Clone, Copy, Debug, PartialEq, Eq, Structural)]
pub struct Timestamp {
    pub secs: i64,
    pub nanos: u32,
}

/// The calendar month in which a moment lies in UTC, as four digits of the
/// year, a hyphen and two digits of the month: what `chrono` gives for the
/// pattern `%Y-%m`. A moment that `chrono` cannot hold has no month.
pub uninterp spec fn month_label(secs: i64, nanos: u32) -> Option<Seq<char>>;

/// Whether `t` is a moment with a calendar month.
pub open spec fn has_month(t: Timestamp) -> bool {
    month_label(t.secs, t.nanos) is Some
}

/// Whether `key` is the calendar month of some moment.
pub open spec fn is_month(key: Seq<char>) -> bool {
    exists|t: Timestamp| #[trigger] month_label(t.secs, t.nanos) == Some(key)
}

/// Reads the clock, by `chrono::Utc::now`, and hands back its seconds
/// (`DateTime::timestamp`) and nanoseconds (`DateTime::timestamp_subsec_nanos`).
/// What is claimed of every moment that comes back is that it has a month:
/// `Utc::now` makes its value by `DateTime::from_timestamp`, so the same
/// seconds and nanoseconds give a value again. `Utc::now` panics where the
/// system clock stands before the Unix epoch.
#[verifier::external_body]
pub(crate) fn now() -> (r: Timestamp)
    ensures
        has_month(r),
{
    let t = chrono::Utc::now();
    Timestamp { secs: t.timestamp(), nanos: t.timestamp_subsec_nanos() }
}

/// The calendar month of a moment: `chrono::DateTime::from_timestamp` makes
/// the value, which `DateTime::format` writes under the pattern `%Y-%m`.
/// There is none where `from_timestamp` gives none: for seconds out of the
/// range of `chrono`, or nanoseconds that no second has.
#[verifier::external_body]
pub(crate) fn month_text(secs: i64, nanos: u32) -> (r: Option<String>)
    ensures
        match r {
            Some(key) => month_label(secs, nanos) == Some(key@),
            None => month_label(secs, nanos) is None,
        },
{
    match chrono::DateTime::from_timestamp(secs, nanos) {
        Some(t) => Some(t.format("%Y-%m").to_string()),
        None => None,
    }
}

impl Timestamp {
    /// The place of this moment in the order of all moments: a number that
    /// grows with the seconds first and with the nanoseconds second.
    pub open spec fn rank(self) -> int {
        self.secs * 0x1_0000_0000 + self.nanos
    }

    /// The present moment.
    pub fn now() -> (r: Timestamp)
        ensures
            has_month(r),
    {
        now()
    }

    /// The moment `secs` whole seconds after the epoch.
    pub fn from_secs(secs: i64) -> (r: Timestamp)
        ensures
            r == (Timestamp { secs, nanos: 0 }),
    {
        Timestamp { secs, nanos: 0 }
    }

    /// The whole seconds since the epoch.
    pub fn timestamp(&self) -> (r: i64)
        ensures
            r == self.secs,
    {
        self.secs
    }

    /// The place of this moment in the order of all moments.
    pub fn sort_key(&self) -> (r: i128)
        ensures
            r == self.rank(),
    {
        (self.secs as i128) * 0x1_0000_0000 + (self.nanos as i128)
    }

    /// The calendar month in which this moment lies, if it has one.
    pub fn month(&self) -> (r: Option<String>)
        ensures
            match r {
                Some(key) => month_label(self.secs, self.nanos) == Some(key@),
                None => month_label(self.secs, self.nanos) is None,
            },
    {
        month_text(self.secs, self.nanos)
    }
}

} // verus!
