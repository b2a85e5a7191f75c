//! Instants in time, as feed items and the cutoff carry them.

use crate::error::Error;
use vstd::prelude::*;

verus! {

/// An instant: the seconds since 1970-01-01 00:00:00 UTC, the nanoseconds into
/// that second, and the offset of the zone it was written in, in seconds east
/// of UTC. The offset says how the instant is shown, not when it is.
#[derive(Clone, Copy, Debug, PartialEq, Eq, Structural)]
pub struct Timestamp {
    pub secs: i64,
    pub nanos: u32,
    pub offset: i32,
}

impl Timestamp {
    /// This instant is strictly earlier than `other`, whatever their zones.
    pub open spec fn before(self, other: Timestamp) -> bool {
        self.secs < other.secs || (self.secs == other.secs && self.nanos < other.nanos)
    }

    /// Whether this instant is strictly earlier than `other`.
    pub fn is_before(&self, other: &Timestamp) -> (earlier: bool)
        ensures
            earlier == self.before(*other),
    {
        self.secs < other.secs || (self.secs == other.secs && self.nanos < other.nanos)
    }
}

/// Trusted: chrono's `ParseError`, the reason why a text was not read as a date
/// and time. Nothing is known of what it holds.
#[verifier::external_type_specification]
#[verifier::external_body]
pub struct ExParseError(chrono::ParseError);

/// What chrono's `DateTime::parse_from_rfc3339` reads from a text: the seconds,
/// the nanoseconds and the offset of the instant, or nothing where it refuses
/// the text.
pub uninterp spec fn rfc3339_instant(text: Seq<char>) -> Option<(i64, u32, i32)>;

/// Trusted: chrono's `DateTime::parse_from_rfc3339` depends on the characters
/// of its argument alone. Its result is named `rfc3339_instant`; an instant is
/// handed on as the values of `timestamp`, `timestamp_subsec_nanos` and
/// `offset().local_minus_utc()`.
#[verifier::external_body]
fn parse_from_rfc3339(text: &str) -> (parsed: Result<Timestamp, chrono::ParseError>)
    ensures
        match parsed {
            Ok(at) => rfc3339_instant(text@) == Some((at.secs, at.nanos, at.offset)),
            Err(_) => rfc3339_instant(text@) is None,
        },
{
    match chrono::DateTime::parse_from_rfc3339(text) {
        Ok(at) => Ok(
            Timestamp {
                secs: at.timestamp(),
                nanos: at.timestamp_subsec_nanos(),
                offset: at.offset().local_minus_utc(),
            },
        ),
        Err(reason) => Err(reason),
    }
}

/// What reading a text as an RFC 3339 date and time gives: its instant, or
/// the error for a text that is none.
pub open spec fn read_instant(text: Seq<char>) -> Result<Timestamp, Error> {
    match rfc3339_instant(text) {
        Some((secs, nanos, offset)) => Ok(Timestamp { secs, nanos, offset }),
        None => Err(Error::ParseTimestamp),
    }
}

/// Reads an RFC 3339 date and time, such as `1996-12-19T16:39:57-08:00`.
pub fn parse_timestamp(text: &str) -> (parsed: Result<Timestamp, Error>)
    ensures
        parsed == read_instant(text@),
{
    match parse_from_rfc3339(text) {
        Ok(at) => Ok(at),
        Err(_) => Err(Error::ParseTimestamp),
    }
}

} // verus!
