//! Time of day: a validated `(hour, minute, second, nanosecond)` value with
//! exact conversions to and from counts since midnight.

use vstd::prelude::*;

verus! {

use vstd::arithmetic::div_mod::lemma_fundamental_div_mod;

/// Errors constructing or parsing a `Time`.
#[derive(Debug, Clone, Copy, PartialEq, Eq, Structural)]
pub enum TimeError {
    InvalidTime,
}

/// A wall-clock reading: every field within its bound, no leap seconds.
pub open spec fn valid_hmsn(h: int, mi: int, s: int, ns: int) -> bool {
    &&& 0 <= h <= 23
    &&& 0 <= mi <= 59
    &&& 0 <= s <= 59
    &&& 0 <= ns < 1_000_000_000
}

/// Time of day with nanosecond precision.
#[derive(Debug, Clone, Copy, PartialEq, Eq, PartialOrd, Ord, Hash, Structural)]
pub struct Time {
    pub hour: u8,
    pub minute: u8,
    pub second: u8,
    pub nanosecond: u32,
}

impl Time {
    /// All fields are within their bounds.
    pub open spec fn wf(self) -> bool {
        valid_hmsn(self.hour as int, self.minute as int, self.second as int, self.nanosecond as int)
    }

    /// Whole seconds since midnight.
    pub open spec fn seconds_s(self) -> int {
        self.hour * 3600 + self.minute * 60 + self.second
    }

    /// Nanoseconds since midnight.
    pub open spec fn nanos_s(self) -> int {
        self.seconds_s() * 1_000_000_000 + self.nanosecond
    }

    /// Construct a time of day, validating every field.
    pub fn from_hms_nano(hour: u8, minute: u8, second: u8, nanosecond: u32) -> (r: Result<
        Self,
        TimeError,
    >)
        ensures
            valid_hmsn(hour as int, minute as int, second as int, nanosecond as int) ==> r == Ok::<
                Time,
                TimeError,
            >((Time { hour, minute, second, nanosecond })),
            !valid_hmsn(hour as int, minute as int, second as int, nanosecond as int) ==> r
                == Err::<Time, TimeError>(TimeError::InvalidTime),
    {
        if hour > 23 || minute > 59 || second > 59 || nanosecond >= 1_000_000_000 {
            return Err(TimeError::InvalidTime);
        }
        Ok(Time { hour, minute, second, nanosecond })
    }

    /// Total seconds since midnight (ignores nanoseconds).
    pub fn seconds_since_midnight(self) -> (r: u32)
        ensures
            r == self.seconds_s(),
    {
        (self.hour as u32) * 3600 + (self.minute as u32) * 60 + (self.second as u32)
    }

    /// Total nanoseconds since midnight.
    pub fn nanos_since_midnight(self) -> (r: u64)
        ensures
            r == self.nanos_s(),
    {
        self.seconds_since_midnight() as u64 * 1_000_000_000 + self.nanosecond as u64
    }

    /// Build from whole seconds and nanoseconds since midnight.
    pub fn from_seconds_nanos(secs: u32, nanos: u32) -> (r: Result<Self, TimeError>)
        ensures
            (secs < 86_400 && nanos < 1_000_000_000) <==> r is Ok,
            r matches Ok(t) ==> t.wf() && t.seconds_s() == secs && t.nanosecond == nanos,
            r is Err ==> r == Err::<Time, TimeError>(TimeError::InvalidTime),
    {
        if secs >= 86_400 || nanos >= 1_000_000_000 {
            return Err(TimeError::InvalidTime);
        }
        proof {
            lemma_fundamental_div_mod(secs as int, 3600);
            lemma_fundamental_div_mod((secs as int) % 3600, 60);
        }
        let hour = (secs / 3600) as u8;
        let rem = secs % 3600;
        let minute = (rem / 60) as u8;
        let second = (rem % 60) as u8;
        Time::from_hms_nano(hour, minute, second, nanos)
    }
}

} // verus!
