//! The wall clock, read through the `time` crate.
use vstd::prelude::*;

verus! {

/// Relies on `time::now_utc` and `Tm::to_timespec`: the current UTC time as
/// seconds and nanoseconds since the epoch; `Timespec::new` asserts that the
/// nanoseconds lie below one second.
#[verifier::external_body]
fn now_timespec() -> (r: (i64, i32))
    ensures
        0 <= r.1 < 1_000_000_000,
{
    let t = time::now_utc().to_timespec();
    (t.sec, t.nsec)
}

/// `v` brought into the range of `i64`.
pub open spec fn clamp_i64(v: int) -> int {
    if v < i64::MIN {
        i64::MIN as int
    } else if v > i64::MAX {
        i64::MAX as int
    } else {
        v
    }
}

/// Microseconds since the epoch of a time given in seconds and nanoseconds,
/// saturated at the bounds of `i64`.
pub fn timespec_micros(sec: i64, nsec: i32) -> (r: i64)
    requires
        0 <= nsec < 1_000_000_000,
    ensures
        r == clamp_i64(sec * 1_000_000 + nsec / 1000),
{
    let v = (sec as i128) * 1_000_000 + (nsec as i128) / 1000;
    if v < i64::MIN as i128 {
        i64::MIN
    } else if v > i64::MAX as i128 {
        i64::MAX
    } else {
        v as i64
    }
}

/// A point in time: seconds and nanoseconds since the epoch.
#[derive(Clone, Copy, Debug, PartialEq, Eq, Structural)]
pub struct Instant {
    pub sec: i64,
    pub nsec: i32,
}

impl Instant {
    pub open spec fn valid(&self) -> bool {
        0 <= self.nsec < 1_000_000_000
    }

    /// The current time.
    pub fn now() -> (r: Instant)
        ensures
            r.valid(),
    {
        let (sec, nsec) = now_timespec();
        Instant { sec, nsec }
    }

    /// This time in microseconds since the epoch.
    pub fn micros(&self) -> (r: i64)
        requires
            self.valid(),
        ensures
            r == clamp_i64(self.sec * 1_000_000 + self.nsec / 1000),
    {
        timespec_micros(self.sec, self.nsec)
    }
}

} // verus!
