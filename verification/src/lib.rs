//! A proleptic-Gregorian calendar and wall-clock time library.
//!
//! The core is a bidirectional mapping between a signed day count since the
//! Unix epoch and a civil `(year, month, day)` date, exact over the whole
//! `i32` year range, together with the value types built on it: [`Date`],
//! [`Time`], [`Duration`], [`DateTime`], [`UtcOffset`] and
//! [`OffsetDateTime`], plus strict text parsing and formatting.

pub mod codec;
pub mod date;
pub mod datetime;
pub mod duration;
pub mod offset;
pub mod text;
pub mod time;

pub use codec::days_from_civil;
pub use codec::days_in_month;
pub use codec::is_leap_year;
pub use date::Date;
pub use date::DateError;
pub use date::Weekday;
pub use datetime::DateTime;
pub use duration::Duration;
pub use offset::OffsetDateTime;
pub use offset::UtcOffset;
pub use offset::UtcOffsetError;
pub use text::parse_rfc3339_offset;
pub use time::Time;
pub use time::TimeError;
