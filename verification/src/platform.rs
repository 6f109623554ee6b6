//! The clock that stamps the start and the end of a region.

use time::OffsetDateTime;
use vstd::prelude::*;

verus! {

/// An opaque reading of the clock, convertible to nanoseconds.
#[derive(Debug, Clone, Copy)]
pub struct RecordingTimestamp(pub i64);

/// Reads the system clock with `time::OffsetDateTime::now_utc` and takes the
/// reading as nanoseconds since the Unix epoch. The value depends on the
/// moment of the call, so nothing is claimed of it.
#[verifier::external_body]
fn unix_nanoseconds() -> i128 {
    OffsetDateTime::now_utc().unix_timestamp_nanos()
}

impl RecordingTimestamp {
    /// The nanoseconds that this reading stands for.
    pub open spec fn nanoseconds(&self) -> int {
        self.0 as int
    }

    /// Reads the clock: the reading that stands for the nanoseconds since
    /// the Unix epoch at the moment of the call.
    #[inline]
    pub fn now() -> Self {
        Self::from_unix_nanoseconds(unix_nanoseconds())
    }

    /// Converts the reading to nanoseconds.
    #[inline]
    pub fn to_nanoseconds(&self) -> (nanoseconds: i128)
        ensures
            nanoseconds == self.nanoseconds(),
    {
        self.0 as i128
    }

    /// The reading that stands for `nanoseconds` since the Unix epoch: it
    /// keeps their low 64 bits, so nanoseconds that fit 64 bits are kept as
    /// they are.
    #[inline]
    pub fn from_unix_nanoseconds(nanoseconds: i128) -> (reading: Self)
        ensures
            reading.0 == nanoseconds as i64,
            i64::MIN <= nanoseconds <= i64::MAX ==> reading.nanoseconds() == nanoseconds,
    {
        RecordingTimestamp(#[verifier::truncate] (nanoseconds as i64))
    }
}

} // verus!
