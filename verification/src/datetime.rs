//! A UTC instant: a date paired with a time of day, with exact Unix
//! timestamp conversions and instant arithmetic.

use vstd::prelude::*;

verus! {

use crate::codec::DAYS_MAX;
use crate::codec::DAYS_MIN;
use crate::date::Date;
use crate::date::DateError;
use crate::duration::Duration;
use crate::time::Time;

/// Smallest representable instant, in nanoseconds since the Unix epoch:
/// midnight of the first supported day.
pub const UNIX_NANOS_MIN: i128 = -67_768_100_567_971_200_000_000_000;

/// Largest representable instant, in nanoseconds since the Unix epoch: the
/// last nanosecond of the last supported day.
pub const UNIX_NANOS_MAX: i128 = 67_767_976_233_532_799_999_999_999;

/// The nanosecond range bounds are the day range bounds scaled by one day
/// of nanoseconds.
proof fn lemma_nanos_range()
    ensures
        UNIX_NANOS_MIN == DAYS_MIN * 86_400_000_000_000,
        UNIX_NANOS_MAX == (DAYS_MAX + 1) * 86_400_000_000_000 - 1,
{
    assert(UNIX_NANOS_MIN == (-784_353_015_833) * 86_400_000_000_000 && UNIX_NANOS_MAX == (
    784_351_576_776 + 1) * 86_400_000_000_000 - 1) by (nonlinear_arith);
}

/// Combined UTC date and time (no time zone).  The derived ordering is
/// field order, which on well-formed values coincides with the order of
/// the instants.
#[derive(Debug, Clone, Copy, PartialEq, Eq, PartialOrd, Ord, Hash, Structural)]
pub struct DateTime {
    pub date: Date,
    pub time: Time,
}

impl DateTime {
    /// Both halves are valid.
    pub open spec fn wf(self) -> bool {
        self.date.wf() && self.time.wf()
    }

    /// Whole seconds since the Unix epoch of this instant.
    pub open spec fn unix_seconds_s(self) -> int {
        self.date.epoch_days_s() * 86_400 + self.time.seconds_s()
    }

    /// Nanoseconds since the Unix epoch of this instant.
    pub open spec fn unix_nanos_s(self) -> int {
        self.unix_seconds_s() * 1_000_000_000 + self.time.nanosecond
    }

    /// Pair a date with a time of day.
    pub fn new(date: Date, time: Time) -> (r: DateTime)
        ensures
            r == (DateTime { date, time }),
    {
        DateTime { date, time }
    }

    /// Build from a Unix timestamp in seconds plus an additional nanosecond
    /// offset; the offset may be negative or exceed one second and is
    /// folded into the seconds with Euclidean semantics.
    pub fn from_unix_timestamp(secs: i64, nanos: i32) -> (r: Result<DateTime, DateError>)
        ensures
            r is Ok <==> UNIX_NANOS_MIN <= secs * 1_000_000_000 + nanos <= UNIX_NANOS_MAX,
            r matches Ok(dt) ==> dt.wf() && dt.unix_nanos_s() == secs * 1_000_000_000 + nanos,
            r is Err ==> r == Err::<DateTime, DateError>(DateError::OutOfRange),
    {
        proof {
            lemma_nanos_range();
        }
        // Normalize the nanosecond offset into [0, 1e9); shifting by a
        // positive multiple of 1e9 makes `/` and `%` Euclidean.
        let shifted: i64 = nanos as i64 + 3_000_000_000;
        let carry: i64 = shifted / 1_000_000_000 - 3;
        let nano_norm: i64 = shifted % 1_000_000_000;
        proof {
            vstd::arithmetic::div_mod::lemma_fundamental_div_mod(shifted as int, 1_000_000_000);
        }
        // Split the seconds into whole days and seconds within the day,
        // again via a shift that makes the operands non-negative.
        let st: i128 = secs as i128 + carry as i128;
        let stoff: i128 = st + 9_223_372_036_854_806_400;
        let days128: i128 = stoff / 86_400 - 106_751_991_167_301;
        let secs_of_day: i128 = stoff % 86_400;
        proof {
            vstd::arithmetic::div_mod::lemma_fundamental_div_mod(stoff as int, 86_400);
            lemma_split_to_nanos(
                secs as int,
                nanos as int,
                st as int,
                days128 as int,
                secs_of_day as int,
                nano_norm as int,
            );
        }
        let date = match Date::from_days_since_unix_epoch(days128 as i64) {
            Ok(date) => date,
            Err(e) => {
                return Err(e);
            },
        };
        let time = match Time::from_seconds_nanos(secs_of_day as u32, nano_norm as u32) {
            Ok(time) => time,
            Err(_) => {
                return Err(DateError::InvalidDate);
            },
        };
        Ok(DateTime { date, time })
    }

    /// Whole seconds since the Unix epoch (1970-01-01T00:00:00Z).
    pub fn unix_timestamp(self) -> (r: i64)
        requires
            self.wf(),
        ensures
            r == self.unix_seconds_s(),
    {
        let days = self.date.days_since_unix_epoch();
        let day_secs = self.time.seconds_since_midnight() as i64;
        days * 86_400 + day_secs
    }

    /// Nanoseconds since the Unix epoch.
    pub fn unix_timestamp_nanos(self) -> (r: i128)
        requires
            self.wf(),
        ensures
            r == self.unix_nanos_s(),
            UNIX_NANOS_MIN <= r <= UNIX_NANOS_MAX,
    {
        proof {
            lemma_nanos_range();
        }
        self.unix_timestamp() as i128 * 1_000_000_000 + self.time.nanosecond as i128
    }

    /// Add a duration, returning the new instant or `OutOfRange` if the
    /// result leaves the representable range.
    pub fn add_duration(self, dur: Duration) -> (r: Result<DateTime, DateError>)
        requires
            self.wf(),
        ensures
            r is Ok <==> UNIX_NANOS_MIN <= self.unix_nanos_s() + dur.nanos_s() <= UNIX_NANOS_MAX,
            r matches Ok(dt) ==> dt.wf() && dt.unix_nanos_s() == self.unix_nanos_s()
                + dur.nanos_s(),
            r is Err ==> r == Err::<DateTime, DateError>(DateError::OutOfRange),
    {
        let t: i128 = match self.unix_timestamp_nanos().checked_add(dur.total_nanos()) {
            Some(t) => t,
            None => {
                return Err(DateError::OutOfRange);
            },
        };
        if t < UNIX_NANOS_MIN || t > UNIX_NANOS_MAX {
            return Err(DateError::OutOfRange);
        }
        // Split into whole seconds and nanoseconds within the second; the
        // shift by a positive multiple of 1e9 makes `/` and `%` Euclidean.
        let toff: i128 = t + 67_768_100_567_971_200_000_000_000;
        let secs: i128 = toff / 1_000_000_000 - 67_768_100_567_971_200;
        let nanos: i128 = toff % 1_000_000_000;
        proof {
            vstd::arithmetic::div_mod::lemma_fundamental_div_mod(toff as int, 1_000_000_000);
            lemma_nanos_range();
        }
        DateTime::from_unix_timestamp(secs as i64, nanos as i32)
    }

    /// Difference between two instants, `self - other`; never fails, the
    /// duration type is wide enough.
    pub fn difference(self, other: DateTime) -> (r: Duration)
        requires
            self.wf(),
            other.wf(),
        ensures
            r.nanos_s() == self.unix_nanos_s() - other.unix_nanos_s(),
    {
        Duration::nanoseconds(self.unix_timestamp_nanos() - other.unix_timestamp_nanos())
    }

    /// The current UTC instant, read from the system clock.
    pub fn now_utc() -> (r: Result<Self, DateError>)
        ensures
            r matches Ok(dt) ==> dt.wf(),
            r is Err ==> r == Err::<DateTime, DateError>(DateError::OutOfRange),
    {
        let (secs, nanos) = clock_since_epoch();
        DateTime::from_unix_timestamp(secs, nanos)
    }
}

/// Folding the nanosecond carry into the seconds and splitting off whole
/// days keeps the total nanosecond count.
proof fn lemma_split_to_nanos(
    secs: int,
    nanos: int,
    st: int,
    days: int,
    secs_of_day: int,
    nano_norm: int,
)
    requires
        nanos + 3_000_000_000 == (st - secs + 3) * 1_000_000_000 + nano_norm,
        0 <= nano_norm < 1_000_000_000,
        st + 9_223_372_036_854_806_400 == (days + 106_751_991_167_301) * 86_400 + secs_of_day,
        0 <= secs_of_day < 86_400,
    ensures
        secs * 1_000_000_000 + nanos == (days * 86_400 + secs_of_day) * 1_000_000_000 + nano_norm,
{
    assert(secs * 1_000_000_000 + nanos == (days * 86_400 + secs_of_day) * 1_000_000_000
        + nano_norm) by (nonlinear_arith)
        requires
            nanos + 3_000_000_000 == (st - secs + 3) * 1_000_000_000 + nano_norm,
            st + 9_223_372_036_854_806_400 == (days + 106_751_991_167_301) * 86_400 + secs_of_day,
    ;
}

/// Relies on `std::time::SystemTime::now` and `duration_since` against
/// `UNIX_EPOCH` for the current instant, as whole seconds and the
/// nanoseconds within the second, negated when the clock reads before the
/// epoch.
#[verifier::external_body]
fn clock_since_epoch() -> (r: (i64, i32))
    ensures
        -1_000_000_000 < r.1 < 1_000_000_000,
{
    match std::time::SystemTime::now().duration_since(std::time::UNIX_EPOCH) {
        Ok(d) => (d.as_secs() as i64, d.subsec_nanos() as i32),
        Err(e) => {
            let d = e.duration();
            (-(d.as_secs() as i64), -(d.subsec_nanos() as i32))
        },
    }
}

/// A valid instant determines its fields: two well-formed date-times with
/// the same nanosecond count since the epoch are the same value.
pub proof fn lemma_instant_determines_fields(a: DateTime, b: DateTime)
    requires
        a.wf(),
        b.wf(),
        a.unix_nanos_s() == b.unix_nanos_s(),
    ensures
        a == b,
{
    lemma_split_fields(a);
    lemma_split_fields(b);
    let da = a.date.epoch_days_s();
    let db = b.date.epoch_days_s();
    vstd::arithmetic::div_mod::lemma_fundamental_div_mod_converse(
        a.unix_nanos_s(),
        86_400_000_000_000,
        da,
        a.unix_nanos_s() - da * 86_400_000_000_000,
    );
    vstd::arithmetic::div_mod::lemma_fundamental_div_mod_converse(
        b.unix_nanos_s(),
        86_400_000_000_000,
        db,
        b.unix_nanos_s() - db * 86_400_000_000_000,
    );
    assert(da == db);
    crate::codec::lemma_decode(a.date.year as int, a.date.month as int, a.date.day as int);
    crate::codec::lemma_decode(b.date.year as int, b.date.month as int, b.date.day as int);
    assert(a.date == b.date);
    let sa = a.time.seconds_s();
    let sb = b.time.seconds_s();
    vstd::arithmetic::div_mod::lemma_fundamental_div_mod_converse(
        a.time.nanos_s(),
        1_000_000_000,
        sa,
        a.time.nanosecond as int,
    );
    vstd::arithmetic::div_mod::lemma_fundamental_div_mod_converse(
        b.time.nanos_s(),
        1_000_000_000,
        sb,
        b.time.nanosecond as int,
    );
    assert(a.time.nanos_s() == b.time.nanos_s());
    assert(sa == sb && a.time.nanosecond == b.time.nanosecond);
    vstd::arithmetic::div_mod::lemma_fundamental_div_mod_converse(
        sa,
        3600,
        a.time.hour as int,
        a.time.minute as int * 60 + a.time.second as int,
    );
    vstd::arithmetic::div_mod::lemma_fundamental_div_mod_converse(
        sb,
        3600,
        b.time.hour as int,
        b.time.minute as int * 60 + b.time.second as int,
    );
    vstd::arithmetic::div_mod::lemma_fundamental_div_mod_converse(
        a.time.minute as int * 60 + a.time.second as int,
        60,
        a.time.minute as int,
        a.time.second as int,
    );
    vstd::arithmetic::div_mod::lemma_fundamental_div_mod_converse(
        b.time.minute as int * 60 + b.time.second as int,
        60,
        b.time.minute as int,
        b.time.second as int,
    );
    assert(a.time == b.time);
}

/// The nanosecond count splits the instant at a day boundary: the time of
/// day contributes less than one day of nanoseconds.
proof fn lemma_split_fields(a: DateTime)
    requires
        a.wf(),
    ensures
        a.unix_nanos_s() == a.date.epoch_days_s() * 86_400_000_000_000 + (a.time.nanos_s()),
        0 <= a.time.nanos_s() < 86_400_000_000_000,
{
    assert(a.unix_nanos_s() == a.date.epoch_days_s() * 86_400_000_000_000 + a.time.nanos_s())
        by (nonlinear_arith)
        requires
            a.unix_nanos_s() == (a.date.epoch_days_s() * 86_400 + a.time.seconds_s())
                * 1_000_000_000 + a.time.nanosecond,
            a.time.nanos_s() == a.time.seconds_s() * 1_000_000_000 + a.time.nanosecond,
    ;
}

} // verus!
