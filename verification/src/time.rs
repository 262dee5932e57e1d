//! Instants and the age of a release in whole days.
use chrono::{DateTime, Utc};
use vstd::prelude::*;

verus! {

/// An instant: whole seconds since the Unix epoch and the nanoseconds past
/// that second.
#[derive(Clone, Copy, Debug, PartialEq, Eq, Structural)]
pub struct Timestamp {
    pub seconds: i64,
    pub nanos: u32,
}

pub const NANOS_PER_SECOND: i128 = 1_000_000_000;

pub const NANOS_PER_DAY: i128 = 86_400_000_000_000;

/// What `chrono::DateTime::parse_from_rfc3339` makes of `text`: the instant
/// it denotes, or `None` where `text` is not an RFC 3339 date and time.
pub uninterp spec fn rfc3339_instant(text: Seq<char>) -> Option<Timestamp>;

/// `chrono::DateTime::parse_from_rfc3339`, moved to UTC and read off through
/// `timestamp` and `timestamp_subsec_nanos`. The result depends on `text`
/// alone.
#[verifier::external_body]
pub(crate) fn parse_rfc3339(text: &str) -> (instant: Option<Timestamp>)
    ensures
        instant == rfc3339_instant(text@),
{
    match DateTime::parse_from_rfc3339(text) {
        Ok(parsed) => {
            let utc = parsed.with_timezone(&Utc);
            Some(Timestamp { seconds: utc.timestamp(), nanos: utc.timestamp_subsec_nanos() })
        },
        Err(_) => None,
    }
}

/// The quotient of `a` by the positive `b`, rounded toward zero.
pub open spec fn div_toward_zero(a: int, b: int) -> int {
    if a >= 0 {
        a / b
    } else {
        -((-a) / b)
    }
}

impl Timestamp {
    /// The instant in nanoseconds since the Unix epoch.
    pub open spec fn as_nanos(&self) -> int {
        self.seconds * NANOS_PER_SECOND + self.nanos
    }

    /// The whole days from `self` to `later`, rounded toward zero; negative
    /// where `later` is more than a day before `self`.
    pub open spec fn spec_days_until(&self, later: Timestamp) -> int {
        div_toward_zero(later.as_nanos() - self.as_nanos(), NANOS_PER_DAY as int)
    }

    /// The whole days from `self` to `later`, rounded toward zero.
    pub fn days_until(&self, later: &Timestamp) -> (days: i64)
        ensures
            days == self.spec_days_until(*later),
    {
        let from: i128 = (self.seconds as i128) * NANOS_PER_SECOND + (self.nanos as i128);
        let to: i128 = (later.seconds as i128) * NANOS_PER_SECOND + (later.nanos as i128);
        let span: i128 = to - from;
        if span >= 0 {
            (span / NANOS_PER_DAY) as i64
        } else {
            -(((-span) / NANOS_PER_DAY) as i64)
        }
    }
}

} // verus!
