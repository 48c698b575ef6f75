//! UNIX timestamps: seconds since 1970-01-01 00:00:00 UTC.

use vstd::prelude::*;

verus! {

/// A UNIX timestamp.
#[derive(Debug, Clone, Copy, PartialEq, Eq, Structural)]
pub struct UnixTime {
    secs: u64,
}

/// The system clock stands before the epoch.
#[derive(Debug, Clone, Copy)]
pub struct ClockError {
    dummy: bool,
}

/// Relies on `std::time::SystemTime::now` measured against the UNIX
/// epoch.  The clock is the machine's: nothing is assumed of the value;
/// a clock set before the epoch reports an error.
#[verifier::external_body]
fn unix_now_secs() -> Result<u64, ClockError> {
    match std::time::SystemTime::now().duration_since(std::time::UNIX_EPOCH) {
        Ok(d) => Ok(d.as_secs()),
        Err(_) => Err(ClockError { dummy: true }),
    }
}

impl UnixTime {
    /// The current time, if the clock stands at or after the epoch.
    pub fn now() -> Result<UnixTime, ClockError> {
        match unix_now_secs() {
            Ok(s) => Ok(UnixTime { secs: s }),
            Err(e) => Err(e),
        }
    }

    /// The seconds since the epoch.
    pub fn seconds(self) -> (r: u64)
        ensures
            r == self.spec_seconds(),
    {
        self.secs
    }

    pub closed spec fn spec_seconds(self) -> u64 {
        self.secs
    }

    /// A timestamp from a second count.
    pub fn from_seconds(s: u64) -> (r: UnixTime)
        ensures
            r.spec_seconds() == s,
    {
        UnixTime { secs: s }
    }
}

} // verus!
