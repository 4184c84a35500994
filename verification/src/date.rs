//! Calendar dates over the civil-day codec: validated construction, epoch
//! conversion in both directions, weekday, ordinal day and day arithmetic.

use vstd::prelude::*;

verus! {

use crate::codec::days_from_civil;
use crate::codec::days_from_civil_s;
use crate::codec::days_in_month;
use crate::codec::days_in_month_s;
use crate::codec::day_s;
use crate::codec::is_leap_year;
use crate::codec::is_leap_year_s;
use crate::codec::lemma_inverse;
use crate::codec::month_s;
use crate::codec::valid_ymd;
use crate::codec::year_s;
use crate::codec::DAYS_MAX;
use crate::codec::DAYS_MIN;
use crate::codec::DAY_ANCHOR;
use crate::codec::C1;
use crate::codec::C2;
use crate::codec::C3;
use crate::codec::POW64;
use crate::codec::YEAR_ANCHOR;

/// Calendar weekday (ISO order, Monday = 1).
#[derive(Debug, Clone, Copy, PartialEq, Eq, Hash, Structural)]
pub enum Weekday {
    Monday,
    Tuesday,
    Wednesday,
    Thursday,
    Friday,
    Saturday,
    Sunday,
}

/// The ISO weekday number, Monday = 1 through Sunday = 7.
pub open spec fn weekday_number_s(w: Weekday) -> int {
    match w {
        Weekday::Monday => 1,
        Weekday::Tuesday => 2,
        Weekday::Wednesday => 3,
        Weekday::Thursday => 4,
        Weekday::Friday => 5,
        Weekday::Saturday => 6,
        Weekday::Sunday => 7,
    }
}

/// The weekday of a day count: day 0 (1970-01-01) was a Thursday, and the
/// week repeats with period 7 under the Euclidean remainder.
pub open spec fn weekday_of_days_s(days: int) -> Weekday {
    let w = days % 7;
    if w == 0 {
        Weekday::Thursday
    } else if w == 1 {
        Weekday::Friday
    } else if w == 2 {
        Weekday::Saturday
    } else if w == 3 {
        Weekday::Sunday
    } else if w == 4 {
        Weekday::Monday
    } else if w == 5 {
        Weekday::Tuesday
    } else {
        Weekday::Wednesday
    }
}

impl Weekday {
    /// The ISO weekday number, Monday = 1 through Sunday = 7.
    pub fn number_from_monday(self) -> (r: u8)
        ensures
            r == weekday_number_s(self),
    {
        match self {
            Weekday::Monday => 1,
            Weekday::Tuesday => 2,
            Weekday::Wednesday => 3,
            Weekday::Thursday => 4,
            Weekday::Friday => 5,
            Weekday::Saturday => 6,
            Weekday::Sunday => 7,
        }
    }
}

/// Errors constructing or parsing a `Date`.
#[derive(Debug, Clone, Copy, PartialEq, Eq, Structural)]
pub enum DateError {
    /// Year/month/day combination is not a valid Gregorian date.
    InvalidDate,
    /// The date is outside the supported range.
    OutOfRange,
}

/// Gregorian calendar date (proleptic), independent of any time zone.
#[derive(Debug, Clone, Copy, PartialEq, Eq, PartialOrd, Ord, Hash, Structural)]
pub struct Date {
    pub year: i32,
    pub month: u8,
    pub day: u8,
}

impl Date {
    /// The date is a real day of the proleptic Gregorian calendar.
    pub open spec fn wf(self) -> bool {
        valid_ymd(self.year as int, self.month as int, self.day as int)
    }

    /// The day count since the Unix epoch that this date denotes.
    pub open spec fn epoch_days_s(self) -> int {
        days_from_civil_s(self.year as int, self.month as int, self.day as int)
    }

    /// Construct a date, validating year, month and day.
    pub fn from_ymd(year: i32, month: u8, day: u8) -> (r: Result<Self, DateError>)
        ensures
            valid_ymd(year as int, month as int, day as int) ==> r == Ok::<Date, DateError>(
                (Date { year, month, day }),
            ),
            !valid_ymd(year as int, month as int, day as int) ==> r == Err::<Date, DateError>(
                DateError::InvalidDate,
            ),
    {
        if month < 1 || month > 12 {
            return Err(DateError::InvalidDate);
        }
        let dim = days_in_month(year, month);
        if day == 0 || day > dim {
            return Err(DateError::InvalidDate);
        }
        Ok(Date { year, month, day })
    }

    /// Construct a date without the validating checks.  The caller promises
    /// that the fields already form a real calendar day; the validated
    /// entry point for untrusted fields is [`Date::from_ymd`].
    pub fn from_ymd_unchecked(year: i32, month: u8, day: u8) -> (r: Self)
        requires
            valid_ymd(year as int, month as int, day as int),
        ensures
            r == (Date { year, month, day }),
    {
        Date { year, month, day }
    }

    /// Recover the date from a day count since the Unix epoch
    /// (1970-01-01 is day 0, 1969-12-31 is day -1).
    ///
    /// Instead of dividing by era and year lengths, the inverse multiplies
    /// by the precomputed wide constants `C1`, `C2` and `C3` and keeps the
    /// high 64 bits, which is exact over the whole supported range.
    pub fn from_days_since_unix_epoch(days: i64) -> (r: Result<Self, DateError>)
        ensures
            r is Ok <==> DAYS_MIN <= days <= DAYS_MAX,
            r matches Ok(date) ==> date.wf() && date.year == year_s(days as int) && date.month
                == month_s(days as int) && date.day == day_s(days as int) && date.epoch_days_s()
                == days,
            r is Err ==> r == Err::<Date, DateError>(DateError::OutOfRange),
    {
        if days < DAYS_MIN || days > DAYS_MAX {
            return Err(DateError::OutOfRange);
        }
        proof {
            lemma_inverse(days as int);
        }
        let rev: i64 = DAY_ANCHOR - days;
        let cen: i64 = (((rev as u64) as u128 * (C1 as u128)) / POW64) as i64;
        let jul: i64 = rev + cen - cen / 4;
        let num: u128 = ((jul as u64) as u128) * (C2 as u128);
        let hi: i64 = (num / POW64) as i64;
        let yrs: i64 = YEAR_ANCHOR - hi;
        let low: u64 = (num % POW64) as u64;
        let ypt: i64 = ((782_432u128 * (low as u128)) / POW64) as i64;
        let bump: bool = ypt < 126_464;
        let shift: i64 = if bump {
            191_360
        } else {
            977_792
        };
        // The Euclidean remainder of the candidate year by 4; the shift by
        // a positive multiple of 4 clears the whole candidate range.
        let w: i64 = (yrs + 2_147_483_652) % 4;
        proof {
            vstd::arithmetic::div_mod::lemma_mod_multiples_vanish(536_870_913, yrs as int, 4);
        }
        let n: i64 = w * 512 + shift - ypt;
        let month_i: i64 = n / 65_536;
        let day_i: i64 = ((((n % 65_536) as u64) as u128 * (C3 as u128)) / POW64) as i64 + 1;
        let year_i: i64 = yrs + if bump {
            1
        } else {
            0
        };
        let year: i32 = year_i as i32;
        let month: u8 = month_i as u8;
        let day: u8 = day_i as u8;
        // Validate the recovered triple through the same checks as direct
        // construction.
        match Date::from_ymd(year, month, day) {
            Ok(date) => Ok(date),
            Err(_) => Err(DateError::InvalidDate),
        }
    }

    /// Day count since the Unix epoch of this date (1970-01-01 is day 0).
    pub fn days_since_unix_epoch(self) -> (r: i64)
        requires
            self.wf(),
        ensures
            r == self.epoch_days_s(),
            DAYS_MIN <= r <= DAYS_MAX,
    {
        proof {
            crate::codec::lemma_forward_range(
                self.year as int,
                self.month as int,
                self.day as int,
            );
        }
        days_from_civil(self.year, self.month, self.day)
    }

    /// Day of week; 1970-01-01 was a Thursday.
    pub fn weekday(self) -> (r: Weekday)
        requires
            self.wf(),
        ensures
            r == weekday_of_days_s(self.epoch_days_s()),
    {
        let days = self.days_since_unix_epoch();
        // The added constant is a multiple of 7 large enough to make the
        // shifted count non-negative, so `%` is the Euclidean remainder.
        let w: i64 = (days + 784_353_015_838) % 7;
        proof {
            vstd::arithmetic::div_mod::lemma_mod_multiples_vanish(112_050_430_834, days as int, 7);
        }
        if w == 0 {
            Weekday::Thursday
        } else if w == 1 {
            Weekday::Friday
        } else if w == 2 {
            Weekday::Saturday
        } else if w == 3 {
            Weekday::Sunday
        } else if w == 4 {
            Weekday::Monday
        } else if w == 5 {
            Weekday::Tuesday
        } else {
            Weekday::Wednesday
        }
    }

    /// Day of year, 1-based: 1..=365, or 1..=366 in leap years.
    pub fn ordinal(self) -> (r: u16)
        requires
            self.wf(),
        ensures
            r == ordinal_s(self.year as int, self.month as int, self.day as int),
    {
        let before: u16 = match self.month {
            1 => 0,
            2 => 31,
            3 => 59,
            4 => 90,
            5 => 120,
            6 => 151,
            7 => 181,
            8 => 212,
            9 => 243,
            10 => 273,
            11 => 304,
            _ => 334,
        };
        let mut ord: u16 = before + self.day as u16;
        if self.month > 2 && is_leap_year(self.year) {
            ord = ord + 1;
        }
        ord
    }

    /// Add a number of days, returning the new date or `OutOfRange`.
    pub fn add_days(self, days: i64) -> (r: Result<Date, DateError>)
        requires
            self.wf(),
        ensures
            r is Ok <==> DAYS_MIN <= self.epoch_days_s() + days <= DAYS_MAX,
            r matches Ok(date) ==> date.wf() && date.epoch_days_s() == self.epoch_days_s() + days,
            r is Err ==> r == Err::<Date, DateError>(DateError::OutOfRange),
    {
        let base = self.days_since_unix_epoch();
        match base.checked_add(days) {
            Some(total) => Date::from_days_since_unix_epoch(total),
            None => Err(DateError::OutOfRange),
        }
    }
}

/// Days that precede month `m` in a common year, counted from 1 January.
pub open spec fn jan_cum_s(m: int) -> int {
    if m == 1 {
        0int
    } else if m == 2 {
        31int
    } else if m == 3 {
        59int
    } else if m == 4 {
        90int
    } else if m == 5 {
        120int
    } else if m == 6 {
        151int
    } else if m == 7 {
        181int
    } else if m == 8 {
        212int
    } else if m == 9 {
        243int
    } else if m == 10 {
        273int
    } else if m == 11 {
        304int
    } else {
        334int
    }
}

/// 1-based day of year of a valid date.
pub open spec fn ordinal_s(y: int, m: int, d: int) -> int {
    jan_cum_s(m) + d + if m > 2 && is_leap_year_s(y) {
        1int
    } else {
        0int
    }
}

} // verus!
