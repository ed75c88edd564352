//! Instants with a fixed UTC offset, and their RFC 3339 text.
use crate::error::Error;
use chrono::{DateTime, FixedOffset, Local};
use vstd::prelude::*;

verus! {

/// Earliest second kept: one day after 0000-01-01T00:00:00Z.
pub const MIN_SECS: i64 = -62_167_132_800;

/// Latest second kept: one day before 9999-12-31T23:59:59Z.
pub const MAX_SECS: i64 = 253_402_214_399;

/// An instant, as seconds and nanoseconds since the Unix epoch (UTC), with
/// the offset from UTC, in seconds, in which it is written.
#[derive(Clone, Copy, Debug, PartialEq, Eq, Structural)]
pub struct Timestamp {
    pub secs: i64,
    pub nanos: u32,
    pub offset: i32,
}

/// The RFC 3339 text of an instant, as chrono writes it.
pub uninterp spec fn rfc3339_of(t: Timestamp) -> Seq<u8>;

/// The instant that chrono reads from RFC 3339 text, if the text is one.
pub uninterp spec fn rfc3339_read(s: Seq<u8>) -> Option<Timestamp>;

/// Text made by chrono's `format` for an instant and a pattern.
pub uninterp spec fn strftime_of(t: Timestamp, pattern: Seq<char>) -> Seq<char>;

impl Timestamp {
    /// Instants whose text has a four-digit year in every offset, no leap
    /// second, and an offset of whole minutes below a day.
    pub open spec fn wf(self) -> bool {
        &&& MIN_SECS <= self.secs <= MAX_SECS
        &&& self.nanos < 1_000_000_000
        &&& -86_400 < self.offset < 86_400
        &&& self.offset % 60 == 0
    }

    /// `self` is not later than `other`.
    pub open spec fn spec_le(self, other: Timestamp) -> bool {
        self.secs < other.secs || (self.secs == other.secs && self.nanos <= other.nanos)
    }

    /// The same instant with the fraction of a second dropped.
    pub open spec fn spec_whole_seconds(self) -> Timestamp {
        Timestamp { nanos: 0, ..self }
    }

    pub fn is_wf(&self) -> (r: bool)
        ensures
            r == self.wf(),
    {
        MIN_SECS <= self.secs && self.secs <= MAX_SECS && self.nanos < 1_000_000_000 && -86_400
            < self.offset && self.offset < 86_400 && self.offset % 60 == 0
    }

    /// Compares the instants, whatever their offsets.
    pub fn le(&self, other: &Timestamp) -> (r: bool)
        ensures
            r == self.spec_le(*other),
    {
        self.secs < other.secs || (self.secs == other.secs && self.nanos <= other.nanos)
    }

    /// The same instant with the fraction of a second dropped.
    pub fn whole_seconds(&self) -> (r: Timestamp)
        ensures
            r == self.spec_whole_seconds(),
    {
        Timestamp { secs: self.secs, nanos: 0, offset: self.offset }
    }
}

/// What the text of an instant must satisfy for a log line to carry it.
pub open spec fn time_text_ok(t: Timestamp) -> bool {
    &&& rfc3339_read(rfc3339_of(t)) == Some(t)
    &&& rfc3339_of(t).len() > 0
    &&& forall|i: int|
        0 <= i < rfc3339_of(t).len() ==> #[trigger] rfc3339_of(t)[i] != 44u8
            && rfc3339_of(t)[i] != 10u8
}

/// Relies on chrono's `DateTime::to_rfc3339`: the digits, `-`, `T`, `:`,
/// `.` and `+` of `YYYY-MM-DDTHH:MM:SS[.fff]+HH:MM`, which
/// `DateTime::parse_from_rfc3339` reads back to the same instant and offset
/// when the offset is a whole number of minutes and the year has four digits.
#[verifier::external_body]
pub(crate) fn rfc3339_text(t: Timestamp) -> (r: Vec<u8>)
    requires
        t.wf(),
    ensures
        r@ == rfc3339_of(t),
        rfc3339_read(r@) == Some(t),
        r@.len() > 0,
        forall|i: int| 0 <= i < r@.len() ==> #[trigger] r@[i] != 44u8 && r@[i] != 10u8,
{
    let offset = FixedOffset::east_opt(t.offset).unwrap();
    DateTime::from_timestamp(t.secs, t.nanos).unwrap().with_timezone(&offset).to_rfc3339().into_bytes()
}

/// Relies on chrono's `DateTime::parse_from_rfc3339`, on text that is UTF-8.
#[verifier::external_body]
pub(crate) fn read_rfc3339(s: &[u8]) -> (r: Option<Timestamp>)
    ensures
        r == rfc3339_read(s@),
{
    let text = std::str::from_utf8(s).ok()?;
    let dt = DateTime::parse_from_rfc3339(text).ok()?;
    Some(Timestamp {
        secs: dt.timestamp(),
        nanos: dt.timestamp_subsec_nanos(),
        offset: dt.offset().local_minus_utc(),
    })
}

/// Relies on chrono's `DateTime::format` with a strftime pattern, written
/// in the instant's own offset; only patterns that chrono accepts are
/// passed, since `to_string` panics on the others.
#[verifier::external_body]
pub(crate) fn format_time(t: Timestamp, pattern: &str) -> (r: String)
    requires
        t.wf(),
        pattern@ == "%Y%d%m"@ || pattern@ == "%Y%d%m_%H%M%S"@ || pattern@ == "%Y%m%d-%H%M"@,
    ensures
        r@ == strftime_of(t, pattern@),
{
    let offset = FixedOffset::east_opt(t.offset).unwrap();
    DateTime::from_timestamp(t.secs, t.nanos).unwrap().with_timezone(&offset).format(pattern).to_string()
}

/// Relies on chrono's `Local::now`: the clock's time in the local offset.
#[verifier::external_body]
pub(crate) fn local_now() -> (r: Timestamp) {
    let now = Local::now().fixed_offset();
    Timestamp {
        secs: now.timestamp(),
        nanos: now.timestamp_subsec_nanos(),
        offset: now.offset().local_minus_utc(),
    }
}


/// The RFC 3339 text of an instant.
pub fn timestamp_text(t: Timestamp) -> (r: Vec<u8>)
    requires
        t.wf(),
    ensures
        r@ == rfc3339_of(t),
        time_text_ok(t),
{
    rfc3339_text(t)
}

/// The instant that RFC 3339 text denotes, if it is within range.
pub fn parse_timestamp(s: &[u8]) -> (r: Option<Timestamp>)
    ensures
        r == (match rfc3339_read(s@) {
            Some(t) => if t.wf() {
                Some(t)
            } else {
                None
            },
            None => None,
        }),
{
    match read_rfc3339(s) {
        Some(t) => if t.is_wf() {
            Some(t)
        } else {
            None
        },
        None => None,
    }
}

/// A reading of the clock, if it is within the range the log carries.
pub fn in_range(t: Timestamp) -> (r: Result<Timestamp, Error>)
    ensures
        r == (if t.wf() {
            Ok::<Timestamp, Error>(t)
        } else {
            Err(Error::ClockOutOfRange)
        }),
{
    if t.is_wf() {
        Ok(t)
    } else {
        Err(Error::ClockOutOfRange)
    }
}

/// The clock's time in the local offset (see `in_range`).
pub fn now() -> (r: Result<Timestamp, Error>)
    ensures
        r matches Ok(t) ==> t.wf(),
        r matches Err(e) ==> e == Error::ClockOutOfRange,
{
    in_range(local_now())
}

} // verus!
