//! Fixed offsets from UTC and instants carrying one, with conversion
//! between the local and the UTC reading.

use vstd::prelude::*;

verus! {

use crate::date::Date;
use crate::date::DateError;
use crate::datetime::DateTime;
use crate::datetime::UNIX_NANOS_MAX;
use crate::datetime::UNIX_NANOS_MIN;
use crate::duration::Duration;
use crate::time::Time;

/// Error constructing a UTC offset.
#[derive(Debug, Clone, Copy, PartialEq, Eq, Structural)]
pub enum UtcOffsetError {
    OutOfRange,
}

/// Fixed offset from UTC, in seconds (e.g. +02:00).
#[derive(Debug, Clone, Copy, PartialEq, Eq, Hash, Structural)]
#[verifier::ext_equal]
pub struct UtcOffset {
    seconds: i32,
}

/// An offset is nothing but its second count: equal counts mean equal
/// values.
pub proof fn lemma_offset_extensional(a: UtcOffset, b: UtcOffset)
    ensures
        (a == b) <==> (a.seconds_s() == b.seconds_s()),
{
    if a.seconds_s() == b.seconds_s() {
        assert(a =~= b);
    }
}

impl UtcOffset {
    /// The signed offset in seconds.
    pub closed spec fn seconds_s(self) -> int {
        self.seconds as int
    }

    /// The offset magnitude stays within one day.
    pub open spec fn wf(self) -> bool {
        -86_400 <= self.seconds_s() <= 86_400
    }

    /// Construct from a total number of seconds within [-24h, +24h].
    pub fn from_seconds(seconds: i32) -> (r: Result<Self, UtcOffsetError>)
        ensures
            r is Ok <==> -86_400 <= seconds <= 86_400,
            r matches Ok(o) ==> o.seconds_s() == seconds && o.wf(),
            r is Err ==> r == Err::<UtcOffset, UtcOffsetError>(UtcOffsetError::OutOfRange),
    {
        if seconds < -86_400 || seconds > 86_400 {
            return Err(UtcOffsetError::OutOfRange);
        }
        Ok(UtcOffset { seconds })
    }

    /// Construct from hours and minutes with an explicit sign, so that a
    /// zero-magnitude negative offset is representable consistently:
    /// `from_hours_minutes(false, 5, 30)` is -05:30.
    pub fn from_hours_minutes(sign_positive: bool, hours: u8, minutes: u8) -> (r: Result<
        Self,
        UtcOffsetError,
    >)
        ensures
            r is Ok <==> hours <= 23 && minutes <= 59,
            r matches Ok(o) ==> o.wf() && o.seconds_s() == (if sign_positive {
                hours * 3600 + minutes * 60
            } else {
                -(hours * 3600 + minutes * 60)
            }),
            r is Err ==> r == Err::<UtcOffset, UtcOffsetError>(UtcOffsetError::OutOfRange),
    {
        if hours > 23 || minutes > 59 {
            return Err(UtcOffsetError::OutOfRange);
        }
        let total: i32 = (hours as i32) * 3600 + (minutes as i32) * 60;
        let total: i32 = if sign_positive {
            total
        } else {
            -total
        };
        Self::from_seconds(total)
    }

    /// The signed offset in seconds.
    pub fn as_seconds(self) -> (r: i32)
        ensures
            r == self.seconds_s(),
    {
        self.seconds
    }

    /// Whether this is the zero offset.
    pub fn is_utc(self) -> (r: bool)
        ensures
            r == (self.seconds_s() == 0),
    {
        self.seconds == 0
    }
}

/// Date-time with a fixed offset from UTC.  The stored instant is always
/// the UTC one; the local reading is derived on demand.
///
/// Equality is structural: two values denoting the same instant in
/// different offsets are distinct.  Compare instants through
/// [`OffsetDateTime::difference`] or the Unix timestamps instead.
#[derive(Debug, Clone, Copy, PartialEq, Eq, Hash, Structural)]
pub struct OffsetDateTime {
    /// Instant in UTC.
    pub utc: DateTime,
    /// Fixed offset.
    pub offset: UtcOffset,
}

impl OffsetDateTime {
    /// Both the instant and the offset are valid.
    pub open spec fn wf(self) -> bool {
        self.utc.wf() && self.offset.wf()
    }

    /// Construct from a UTC instant and an offset.
    pub fn from_utc(utc: DateTime, offset: UtcOffset) -> (r: Self)
        ensures
            r == (OffsetDateTime { utc, offset }),
    {
        OffsetDateTime { utc, offset }
    }

    /// Construct from a local date and time with an offset, converting to
    /// UTC by subtracting the offset.
    pub fn from_local(date: Date, time: Time, offset: UtcOffset) -> (r: Result<Self, DateError>)
        requires
            date.wf(),
            time.wf(),
            offset.wf(),
        ensures
            r is Ok <==> UNIX_NANOS_MIN <= (DateTime { date, time }).unix_nanos_s()
                - offset.seconds_s() * 1_000_000_000 <= UNIX_NANOS_MAX,
            r matches Ok(odt) ==> odt.wf() && odt.offset == offset && odt.utc.unix_nanos_s() == (
            DateTime { date, time }).unix_nanos_s() - offset.seconds_s() * 1_000_000_000,
            r is Err ==> r == Err::<OffsetDateTime, DateError>(DateError::OutOfRange),
    {
        let local = DateTime::new(date, time);
        let back = Duration::seconds(-(offset.as_seconds() as i64));
        proof {
            lemma_scale_seconds(offset.seconds_s());
        }
        match local.add_duration(back) {
            Ok(utc) => Ok(OffsetDateTime { utc, offset }),
            Err(e) => Err(e),
        }
    }

    /// The local date and time as seen in this offset.
    pub fn to_local(&self) -> (r: Result<DateTime, DateError>)
        requires
            self.wf(),
        ensures
            r is Ok <==> UNIX_NANOS_MIN <= self.utc.unix_nanos_s() + self.offset.seconds_s()
                * 1_000_000_000 <= UNIX_NANOS_MAX,
            r matches Ok(dt) ==> dt.wf() && dt.unix_nanos_s() == self.utc.unix_nanos_s()
                + self.offset.seconds_s() * 1_000_000_000,
            r is Err ==> r == Err::<DateTime, DateError>(DateError::OutOfRange),
    {
        proof {
            lemma_scale_seconds(self.offset.seconds_s());
        }
        self.utc.add_duration(Duration::seconds(self.offset.as_seconds() as i64))
    }

    /// Whole seconds since the Unix epoch of the UTC instant.
    pub fn unix_timestamp(&self) -> (r: i64)
        requires
            self.wf(),
        ensures
            r == self.utc.unix_seconds_s(),
    {
        self.utc.unix_timestamp()
    }

    /// Nanoseconds since the Unix epoch of the UTC instant.
    pub fn unix_timestamp_nanos(&self) -> (r: i128)
        requires
            self.wf(),
        ensures
            r == self.utc.unix_nanos_s(),
    {
        self.utc.unix_timestamp_nanos()
    }

    /// Add a duration to the instant, keeping the same offset.
    pub fn add_duration(&self, dur: Duration) -> (r: Result<Self, DateError>)
        requires
            self.wf(),
        ensures
            r is Ok <==> UNIX_NANOS_MIN <= self.utc.unix_nanos_s() + dur.nanos_s()
                <= UNIX_NANOS_MAX,
            r matches Ok(odt) ==> odt.wf() && odt.offset == self.offset
                && odt.utc.unix_nanos_s() == self.utc.unix_nanos_s() + dur.nanos_s(),
            r is Err ==> r == Err::<OffsetDateTime, DateError>(DateError::OutOfRange),
    {
        match self.utc.add_duration(dur) {
            Ok(utc) => Ok(OffsetDateTime { utc, offset: self.offset }),
            Err(e) => Err(e),
        }
    }

    /// Difference between two instants, `self - other`, regardless of the
    /// offsets they carry.
    pub fn difference(&self, other: OffsetDateTime) -> (r: Duration)
        requires
            self.wf(),
            other.wf(),
        ensures
            r.nanos_s() == self.utc.unix_nanos_s() - other.utc.unix_nanos_s(),
    {
        self.utc.difference(other.utc)
    }
}

/// Negating an offset and scaling it to nanoseconds commute.
proof fn lemma_scale_seconds(s: int)
    ensures
        (-s) * 1_000_000_000 == -(s * 1_000_000_000),
{
}

} // verus!
