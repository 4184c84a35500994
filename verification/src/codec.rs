//! The civil-day codec: pure integer conversions between a signed day count
//! since the Unix epoch (1970-01-01 is day 0) and a proleptic-Gregorian
//! `(year, month, day)` triple.
//!
//! The forward direction is the classic constant-time era/century
//! decomposition.  The inverse avoids division by era and year lengths:
//! it multiplies by precomputed reciprocal-like constants and keeps the
//! high 64 bits of each product.  The lemmas in this module prove that
//! over the whole supported range the two directions are exact inverses
//! of each other.

use vstd::prelude::*;

verus! {

use vstd::arithmetic::div_mod::lemma_fundamental_div_mod;
use vstd::arithmetic::div_mod::lemma_fundamental_div_mod_converse;

/// Number of 400-year eras between the inverse algorithm's internal anchor
/// and the Unix epoch; the anchor lies far in the future so that the
/// reversed day count stays positive over the whole supported range.
pub const ERA_COUNT: i64 = 4_726_498_270;

/// Reversed-count anchor: `rev = DAY_ANCHOR - days` is positive over the
/// whole supported day range.
pub const DAY_ANCHOR: i64 = 146_097 * ERA_COUNT - 719_469;

/// Year anchor matching `DAY_ANCHOR`.
pub const YEAR_ANCHOR: i64 = 400 * ERA_COUNT - 1;

/// Reciprocal-style constant: `C1 * 146097 == 4 * 2^64 - 13357`, so a high
/// multiply by `C1` emulates division by one Gregorian century of days.
pub const C1: u64 = 505_054_698_555_331;

/// Reciprocal-style constant: `C2 * 1461 == 4 * 2^64 + 317`, so a high
/// multiply by `C2` emulates division by one Julian year of days while the
/// low 64 bits carry the position within the year.
pub const C2: u64 = 50_504_432_782_230_121;

/// Reciprocal-style constant: `C3 * 2140 == 2^64 - 1376`, so a high multiply
/// by `C3` recovers the day within the month from the fixed-point month
/// position.
pub const C3: u64 = 8_619_973_866_219_416;

/// `2^64`, the scale of all the fixed-point steps above.
pub const POW64: u128 = 0x1_0000_0000_0000_0000;

/// Smallest supported day count: 1 January of year `i32::MIN`.
pub const DAYS_MIN: i64 = -784_353_015_833;

/// Largest supported day count: 31 December of year `i32::MAX`.
pub const DAYS_MAX: i64 = 784_351_576_776;

/// The Gregorian leap-year rule.
pub open spec fn is_leap_year_s(y: int) -> bool {
    (y % 4 == 0 && y % 100 != 0) || y % 400 == 0
}

/// Length of month `m` (1-based) in year `y`.
pub open spec fn days_in_month_s(y: int, m: int) -> int {
    if m == 2 {
        if is_leap_year_s(y) {
            29int
        } else {
            28int
        }
    } else if m == 4 || m == 6 || m == 9 || m == 11 {
        30int
    } else {
        31int
    }
}

/// A valid calendar date with a year representable in 32 bits.
pub open spec fn valid_ymd(y: int, m: int, d: int) -> bool {
    &&& i32::MIN <= y <= i32::MAX
    &&& 1 <= m <= 12
    &&& 1 <= d <= days_in_month_s(y, m)
}

/// Days that precede month `m` within the March-based computational year
/// (March is month 0 of that year, February its last).
pub open spec fn month_offset_s(m: int) -> int {
    if m == 1 {
        306int
    } else if m == 2 {
        337int
    } else if m == 3 {
        0int
    } else if m == 4 {
        31int
    } else if m == 5 {
        61int
    } else if m == 6 {
        92int
    } else if m == 7 {
        122int
    } else if m == 8 {
        153int
    } else if m == 9 {
        184int
    } else if m == 10 {
        214int
    } else if m == 11 {
        245int
    } else {
        275int
    }
}

/// Zero-based day of the March-based computational year.
pub open spec fn doy_s(m: int, d: int) -> int {
    month_offset_s(m) + d - 1
}

/// Day count since the Unix epoch of the date `(y, m, d)`; the civil→days
/// direction of the codec.  Division here is mathematical (floor) division.
pub open spec fn days_from_civil_s(y: int, m: int, d: int) -> int {
    let y0 = if m <= 2 {
        y - 1
    } else {
        y
    };
    365 * y0 + y0 / 4 - y0 / 100 + y0 / 400 + doy_s(m, d) - 719_468
}

// ----- the inverse chain, step by step, as spec-level definitions -----

/// Reversed day count; positive over the supported range.
pub open spec fn rev_s(days: int) -> int {
    DAY_ANCHOR - days
}

/// Century estimate of the reversed count (high 64 bits of `rev * C1`).
pub open spec fn cen_s(days: int) -> int {
    rev_s(days) * C1 / POW64 as int
}

/// Reversed count corrected from the Gregorian to the Julian leap rule.
pub open spec fn jul_s(days: int) -> int {
    rev_s(days) + cen_s(days) - cen_s(days) / 4
}

/// Whole reversed Julian years (high 64 bits of `jul * C2`).
pub open spec fn hi_s(days: int) -> int {
    jul_s(days) * C2 / POW64 as int
}

/// Candidate year before the January/February adjustment.
pub open spec fn yrs_s(days: int) -> int {
    YEAR_ANCHOR - hi_s(days)
}

/// Fixed-point position within the reversed Julian year (low 64 bits of
/// `jul * C2`).
pub open spec fn low_s(days: int) -> int {
    jul_s(days) * C2 % POW64 as int
}

/// Year position rescaled so that one month spans about `65536 / 12` units.
pub open spec fn ypt_s(days: int) -> int {
    782_432 * low_s(days) / POW64 as int
}

/// Whether the day falls in January or February, which belong to the end of
/// the March-based computational year.
pub open spec fn bump_s(days: int) -> bool {
    ypt_s(days) < 126_464
}

/// Combined month/day fixed-point value: the month is its upper bits, the
/// day within the month its lower 16 bits.
pub open spec fn n_s(days: int) -> int {
    (yrs_s(days) % 4) * 512 + (if bump_s(days) {
        191_360int
    } else {
        977_792int
    }) - ypt_s(days)
}

/// Recovered month.
pub open spec fn month_s(days: int) -> int {
    n_s(days) / 65_536
}

/// Recovered day of month.
pub open spec fn day_s(days: int) -> int {
    (n_s(days) % 65_536) * C3 / POW64 as int + 1
}

/// Recovered year.
pub open spec fn year_s(days: int) -> int {
    yrs_s(days) + if bump_s(days) {
        1int
    } else {
        0int
    }
}

// ----- executable forward direction -----

/// Whether `year` is a leap year under the Gregorian 4/100/400 rule.
pub fn is_leap_year(year: i32) -> (r: bool)
    ensures
        r == is_leap_year_s(year as int),
{
    // Shifting by a positive multiple of 400 keeps every divisibility test
    // while making the operand of `%` non-negative.
    let k: i64 = year as i64 + 2_147_484_000;
    proof {
        lemma_mod_shift_400(year as int);
    }
    (k % 4 == 0 && k % 100 != 0) || k % 400 == 0
}

/// Shifting by `2_147_484_000 == 400 * 5_368_710` changes no residue mod 4,
/// 100 or 400.
proof fn lemma_mod_shift_400(y: int)
    ensures
        (y + 2_147_484_000) % 4 == y % 4,
        (y + 2_147_484_000) % 100 == y % 100,
        (y + 2_147_484_000) % 400 == y % 400,
{
    vstd::arithmetic::div_mod::lemma_mod_multiples_vanish(536_871_000, y, 4);
    vstd::arithmetic::div_mod::lemma_mod_multiples_vanish(21_474_840, y, 100);
    vstd::arithmetic::div_mod::lemma_mod_multiples_vanish(5_368_710, y, 400);
}

/// Number of days in month `m` of year `year`; 0 for a month outside 1..=12.
pub fn days_in_month(year: i32, month: u8) -> (r: u8)
    ensures
        1 <= month <= 12 ==> r == days_in_month_s(year as int, month as int),
        !(1 <= month <= 12) ==> r == 0,
{
    match month {
        1 | 3 | 5 | 7 | 8 | 10 | 12 => 31,
        4 | 6 | 9 | 11 => 30,
        2 => if is_leap_year(year) {
            29
        } else {
            28
        },
        _ => 0,
    }
}

/// Decomposition of `y0` into a 400-year era and a year of that era, with
/// the century-rule divisions split accordingly.
proof fn lemma_era_split(y0: int)
    ensures
        y0 == 400 * (y0 / 400) + y0 % 400,
        0 <= y0 % 400 < 400,
        y0 / 4 == 100 * (y0 / 400) + (y0 % 400) / 4,
        y0 / 100 == 4 * (y0 / 400) + (y0 % 400) / 100,
        y0 % 4 == (y0 % 400) % 4,
{
    lemma_fundamental_div_mod(y0, 400);
    let e = y0 / 400;
    let b = y0 % 400;
    lemma_fundamental_div_mod(b, 4);
    lemma_fundamental_div_mod(b, 100);
    lemma_fundamental_div_mod_converse(y0, 4, 100 * e + b / 4, b % 4);
    lemma_fundamental_div_mod_converse(y0, 100, 4 * e + b / 100, b % 100);
}

/// `days_from_civil_s` written through the era decomposition: the form the
/// executable code computes.
proof fn lemma_forward_era_form(y: int, m: int, d: int)
    requires
        1 <= m <= 12,
    ensures
        ({
            let y0 = if m <= 2 {
                y - 1
            } else {
                y
            };
            let era = y0 / 400;
            let b = y0 % 400;
            days_from_civil_s(y, m, d) == era * 146_097 + (365 * b + b / 4 - b / 100) + doy_s(
                m,
                d,
            ) - 719_468
        }),
{
    let y0 = if m <= 2 {
        y - 1
    } else {
        y
    };
    lemma_era_split(y0);
}

/// Truncating division by 400 of `y0 - 399` equals floor division of `y0`
/// for negative `y0`.
proof fn lemma_neg_era(y0: int)
    requires
        y0 < 0,
    ensures
        -((399 - y0) / 400) == y0 / 400,
{
    lemma_fundamental_div_mod(y0, 400);
    let e = y0 / 400;
    let b = y0 % 400;
    lemma_fundamental_div_mod_converse(399 - y0, 400, -e, 399 - b);
}

/// The `(153 * mp + 2) / 5` day-of-year formula agrees with the month
/// offset table.
proof fn lemma_month_offset_formula(m: int)
    requires
        1 <= m <= 12,
    ensures
        ({
            let mp = if m > 2 {
                m - 3
            } else {
                m + 9
            };
            (153 * mp + 2) / 5 == month_offset_s(m)
        }),
{
}

// ----- structure of a year-of-era: centuries and leap years -----

/// Days that precede year-of-era `b` within its 400-year era (the era starts
/// with a March).
pub open spec fn yoe_days_s(b: int) -> int {
    365 * b + b / 4 - b / 100
}

/// Splitting a year-of-era into its century and year-of-century.
proof fn lemma_yoe_split(b: int)
    requires
        0 <= b < 400,
    ensures
        b == 100 * (b / 100) + b % 100,
        0 <= b / 100 <= 3,
        0 <= b % 100 <= 99,
        yoe_days_s(b) == 36_524 * (b / 100) + 365 * (b % 100) + (b % 100) / 4,
        b % 4 == (b % 100) % 4,
        4 * ((b % 100) / 4) == b % 100 - (b % 100) % 4,
        0 <= (b % 100) % 4 < 4,
        (b % 100) / 4 <= 24,
{
    lemma_fundamental_div_mod(b, 100);
    let q = b / 100;
    let t = b % 100;
    lemma_fundamental_div_mod(t, 4);
    lemma_fundamental_div_mod_converse(b, 4, 25 * q + t / 4, t % 4);
}

/// The leap rule for the year that follows year-of-era `b` of era `e`,
/// expressed over `b` alone.
proof fn lemma_leap_of_era(e: int, b: int)
    ensures
        0 <= b < 400 ==> (is_leap_year_s(400 * e + b + 1) <==> (b == 399 || ((b + 1) % 4 == 0 && (
        b + 1) % 100 != 0))),
{
    if 0 <= b < 400 {
        let y = 400 * e + b + 1;
        if b == 399 {
            lemma_fundamental_div_mod_converse(y, 400, e + 1, 0);
            lemma_fundamental_div_mod_converse(y, 4, 100 * (e + 1), 0);
        } else {
            let c = b + 1;
            lemma_fundamental_div_mod(c, 4);
            lemma_fundamental_div_mod(c, 100);
            lemma_fundamental_div_mod_converse(y, 400, e, c);
            lemma_fundamental_div_mod_converse(y, 4, 100 * e + c / 4, c % 4);
            lemma_fundamental_div_mod_converse(y, 100, 4 * e + c / 100, c % 100);
        }
    }
}

/// Bounds and month-boundary facts about the computational day of year of a
/// valid date.
proof fn lemma_doy_facts(y: int, m: int, d: int)
    requires
        valid_ymd(y, m, d),
    ensures
        0 <= doy_s(m, d) <= 365,
        m <= 2 <==> doy_s(m, d) >= 306,
        m > 2 ==> doy_s(m, d) <= 305,
        doy_s(m, d) == 365 ==> m == 2 && d == 29 && is_leap_year_s(y),
{
}

/// Everything the decode proof needs to know about the within-era day count
/// `s` of a valid date.
proof fn lemma_s_structure(y: int, m: int, d: int)
    requires
        valid_ymd(y, m, d),
    ensures
        ({
            let y0 = if m <= 2 {
                y - 1
            } else {
                y
            };
            let e = y0 / 400;
            let b = y0 % 400;
            let q = b / 100;
            let t = b % 100;
            let s = yoe_days_s(b) + doy_s(m, d);
            &&& days_from_civil_s(y, m, d) == 146_097 * e + s - 719_468
            &&& 0 <= s <= 146_096
            &&& 36_524 * q <= s <= 36_524 * q + 36_524
            &&& (s == 36_524 * q + 36_524 ==> s == 146_096)
            &&& (s == 146_096 ==> b == 399 && q == 3 && t == 99 && doy_s(m, d) == 365)
            &&& (doy_s(m, d) == 365 ==> t % 4 == 3)
            &&& 0 <= q <= 3
            &&& 0 <= t <= 99
            &&& b == 100 * q + t
            &&& 0 <= b < 400
            &&& y0 == 400 * e + b
            &&& y0 % 4 == t % 4
            &&& 4 * (t / 4) == t - t % 4
            &&& 0 <= t % 4 < 4
            &&& s == 36_524 * q + 365 * t + t / 4 + doy_s(m, d)
        }),
{
    let y0 = if m <= 2 {
        y - 1
    } else {
        y
    };
    let e = y0 / 400;
    let b = y0 % 400;
    let q = b / 100;
    let t = b % 100;
    let doy = doy_s(m, d);
    let s = yoe_days_s(b) + doy;
    lemma_era_split(y0);
    lemma_yoe_split(b);
    lemma_doy_facts(y, m, d);
    lemma_forward_era_form(y, m, d);
    lemma_leap_of_era(e, b);
    assert(365 * t + t / 4 <= 36_159);
    if doy == 365 {
        // February 29: the year is leap, so its year-of-era position is
        // 3 mod 4, and a leap year ending a century ends the whole era.
        assert(m <= 2);
        assert(y == 400 * e + b + 1);
        if b != 399 {
            let k = (b + 1) / 4;
            lemma_fundamental_div_mod(b + 1, 4);
            lemma_fundamental_div_mod_converse(b, 4, k - 1, 3);
            if t == 99 {
                lemma_fundamental_div_mod_converse(b + 1, 100, q + 1, 0);
                assert(false);
            }
        }
    }
    if s == 36_524 * q + 36_524 {
        assert(365 * t + t / 4 + doy == 36_524);
        assert(t == 99 && doy == 365);
    }
    if s == 146_096 {
        assert(q == 3);
        assert(365 * t + t / 4 + doy == 36_524);
        assert(t == 99 && doy == 365);
        assert(b == 399);
    }
}

/// Era index range for the supported year range.
proof fn lemma_era_bounds(y: int, m: int, d: int)
    requires
        valid_ymd(y, m, d),
    ensures
        ({
            let y0 = if m <= 2 {
                y - 1
            } else {
                y
            };
            -5_368_710 <= y0 / 400 <= 5_368_709
        }),
{
    let y0 = if m <= 2 {
        y - 1
    } else {
        y
    };
    lemma_fundamental_div_mod_converse(-2_147_483_649, 400, -5_368_710, 351);
    lemma_fundamental_div_mod_converse(2_147_483_647, 400, 5_368_709, 47);
    vstd::arithmetic::div_mod::lemma_div_is_ordered(-2_147_483_649, y0, 400);
    vstd::arithmetic::div_mod::lemma_div_is_ordered(y0, 2_147_483_647, 400);
}

/// The high multiply by `C1` recovers the reversed century count.
proof fn lemma_cen_value(days: int, ee: int, s: int, q: int)
    requires
        rev_s(days) == 146_097 * ee - 1 - s,
        4_721_129_561 <= ee <= 4_731_866_980,
        0 <= q <= 3,
        36_524 * q <= s <= 36_524 * q + 36_524,
        s == 36_524 * q + 36_524 ==> s == 146_096,
        s <= 146_096,
    ensures
        s < 146_096 ==> cen_s(days) == 4 * ee - 1 - q,
        s == 146_096 ==> cen_s(days) == 4 * ee - 5,
{
    let rev = rev_s(days);
    let p64 = POW64 as int;
    let c1 = C1 as int;
    assert(c1 == 505_054_698_555_331);
    assert(p64 == 0x1_0000_0000_0000_0000);
    if s < 146_096 {
        let k = 4 * ee - 1 - q;
        let r = (1 + q) * p64 - 13_357 * ee - (1 + s) * c1;
        assert(s <= 36_524 * q + 36_523);
        assert(rev * c1 == k * p64 + r && 0 <= r < p64) by (nonlinear_arith)
            requires
                rev == 146_097 * ee - 1 - s,
                c1 == 505_054_698_555_331,
                p64 == 0x1_0000_0000_0000_0000,
                k == 4 * ee - 1 - q,
                r == (1 + q) * p64 - 13_357 * ee - (1 + s) * c1,
                4_721_129_561 <= ee <= 4_731_866_980,
                0 <= q <= 3,
                36_524 * q <= s <= 36_524 * q + 36_523,
        ;
        lemma_fundamental_div_mod_converse(rev * c1, p64, k, r);
    } else {
        let k = 4 * ee - 5;
        let r = p64 - 13_357 * (ee - 1);
        assert(rev * c1 == k * p64 + r && 0 <= r < p64) by (nonlinear_arith)
            requires
                rev == 146_097 * ee - 1 - s,
                s == 146_096,
                c1 == 505_054_698_555_331,
                p64 == 0x1_0000_0000_0000_0000,
                k == 4 * ee - 5,
                r == p64 - 13_357 * (ee - 1),
                4_721_129_561 <= ee <= 4_731_866_980,
        ;
        lemma_fundamental_div_mod_converse(rev * c1, p64, k, r);
    }
}

/// Transfers the within-year scaling from the low 64 bits to the `ypt`
/// fixed-point value: both sides of the `ypt` division window, cleared of
/// denominators.
proof fn lemma_ypt_window(low: int, ypt: int, r: int, jul: int)
    requires
        1461 * low == r * 0x1_0000_0000_0000_0000 + 317 * jul,
        0x1_0000_0000_0000_0000 * ypt <= 782_432 * low,
        782_432 * low < 0x1_0000_0000_0000_0000 * (ypt + 1),
    ensures
        26_950_693_091_689_654_910_976 * ypt <= 14_433_322_859_080_711_890_010_112 * r
            + 248_030_944 * jul,
        14_433_322_859_080_711_890_010_112 * r + 248_030_944 * jul
            < 26_950_693_091_689_654_910_976 * (ypt + 1),
{
    assert(26_950_693_091_689_654_910_976 * ypt <= 14_433_322_859_080_711_890_010_112 * r
        + 248_030_944 * jul && 14_433_322_859_080_711_890_010_112 * r + 248_030_944 * jul
        < 26_950_693_091_689_654_910_976 * (ypt + 1)) by (nonlinear_arith)
        requires
            1461 * low == r * 0x1_0000_0000_0000_0000 + 317 * jul,
            0x1_0000_0000_0000_0000 * ypt <= 782_432 * low,
            782_432 * low < 0x1_0000_0000_0000_0000 * (ypt + 1),
    ;
}

/// The high multiply by `C2` recovers the reversed Julian year count, and
/// the low 64 bits carry the scaled position within that year.
proof fn lemma_hi_low(days: int, hh: int, r: int)
    requires
        4 * jul_s(days) == 1461 * hh + r,
        0 <= r < 1461,
        689_757_028_716_000 <= jul_s(days) <= 691_325_765_778_000,
    ensures
        hi_s(days) == hh,
        1461 * low_s(days) == r * 0x1_0000_0000_0000_0000 + 317 * jul_s(days),
        0 <= low_s(days) < 0x1_0000_0000_0000_0000,
{
    let jul = jul_s(days);
    let p64 = POW64 as int;
    let c2 = C2 as int;
    assert(c2 == 50_504_432_782_230_121);
    assert(p64 == 0x1_0000_0000_0000_0000);
    let prod = jul * c2;
    assert(hh * p64 <= prod && prod < (hh + 1) * p64 && 1461 * (prod - hh * p64) == r
        * 0x1_0000_0000_0000_0000 + 317 * jul) by (nonlinear_arith)
        requires
            4 * jul == 1461 * hh + r,
            0 <= r < 1461,
            689_757_028_716_000 <= jul <= 691_325_765_778_000,
            c2 == 50_504_432_782_230_121,
            p64 == 0x1_0000_0000_0000_0000,
            prod == jul * c2,
    ;
    lemma_fundamental_div_mod_converse(prod, p64, hh, prod - hh * p64);
    assert(hi_s(days) == hh);
    assert(low_s(days) == prod - hh * p64);
}

/// Reading the month and the day of month out of the fixed-point value `n`.
#[verifier::rlimit(60)]
proof fn lemma_extract(days: int, jul: int, w: int, r: int, m: int, d: int)
    requires
        1 <= m <= 12,
        1 <= d <= 31,
        m == 2 ==> d <= 29,
        (m == 4 || m == 6 || m == 9 || m == 11) ==> d <= 30,
        0 <= w <= 3,
        r == 1461 - 4 * month_offset_s(m) - 4 * d + w,
        689_757_028_716_000 <= jul <= 691_325_765_778_000,
        26_950_693_091_689_654_910_976 * ypt_s(days) <= 14_433_322_859_080_711_890_010_112 * r
            + 248_030_944 * jul,
        14_433_322_859_080_711_890_010_112 * r + 248_030_944 * jul
            < 26_950_693_091_689_654_910_976 * (ypt_s(days) + 1),
        n_s(days) == w * 512 + (if m <= 2 {
            191_360int
        } else {
            977_792int
        }) - ypt_s(days),
    ensures
        month_s(days) == m,
        day_s(days) == d,
        65_536 * m <= n_s(days) <= 65_536 * m + 65_535,
{
    let p64 = POW64 as int;
    let ypt = ypt_s(days);
    let n = n_s(days);
    assert(p64 == 0x1_0000_0000_0000_0000);
    if m == 1 {
        assert(65_536 * m <= n <= 65_536 * m + 65_535 && 2140 * (d - 1) + 1 <= n - 65_536 * m
            <= 2140 * d);
    } else if m == 2 {
        assert(65_536 * m <= n <= 65_536 * m + 65_535 && 2140 * (d - 1) + 1 <= n - 65_536 * m
            <= 2140 * d);
    } else if m == 3 {
        assert(65_536 * m <= n <= 65_536 * m + 65_535 && 2140 * (d - 1) + 1 <= n - 65_536 * m
            <= 2140 * d);
    } else if m == 4 {
        assert(65_536 * m <= n <= 65_536 * m + 65_535 && 2140 * (d - 1) + 1 <= n - 65_536 * m
            <= 2140 * d);
    } else if m == 5 {
        assert(65_536 * m <= n <= 65_536 * m + 65_535 && 2140 * (d - 1) + 1 <= n - 65_536 * m
            <= 2140 * d);
    } else if m == 6 {
        assert(65_536 * m <= n <= 65_536 * m + 65_535 && 2140 * (d - 1) + 1 <= n - 65_536 * m
            <= 2140 * d);
    } else if m == 7 {
        assert(65_536 * m <= n <= 65_536 * m + 65_535 && 2140 * (d - 1) + 1 <= n - 65_536 * m
            <= 2140 * d);
    } else if m == 8 {
        assert(65_536 * m <= n <= 65_536 * m + 65_535 && 2140 * (d - 1) + 1 <= n - 65_536 * m
            <= 2140 * d);
    } else if m == 9 {
        assert(65_536 * m <= n <= 65_536 * m + 65_535 && 2140 * (d - 1) + 1 <= n - 65_536 * m
            <= 2140 * d);
    } else if m == 10 {
        assert(65_536 * m <= n <= 65_536 * m + 65_535 && 2140 * (d - 1) + 1 <= n - 65_536 * m
            <= 2140 * d);
    } else if m == 11 {
        assert(65_536 * m <= n <= 65_536 * m + 65_535 && 2140 * (d - 1) + 1 <= n - 65_536 * m
            <= 2140 * d);
    } else {
        assert(65_536 * m <= n <= 65_536 * m + 65_535 && 2140 * (d - 1) + 1 <= n - 65_536 * m
            <= 2140 * d);
    }
    lemma_fundamental_div_mod_converse(n, 65_536, m, n - 65_536 * m);
    let x = n - 65_536 * m;
    assert(C3 as int == 8_619_973_866_219_416);
    assert((d - 1) * 0x1_0000_0000_0000_0000 <= x * 8_619_973_866_219_416 && x
        * 8_619_973_866_219_416 < d * 0x1_0000_0000_0000_0000);
    lemma_fundamental_div_mod_converse(
        x * 8_619_973_866_219_416,
        0x1_0000_0000_0000_0000,
        d - 1,
        x * 8_619_973_866_219_416 - (d - 1) * 0x1_0000_0000_0000_0000,
    );
    assert(day_s(days) == d);
}

/// The inverse chain recovers exactly the date that was encoded: decoding
/// `days_from_civil_s(y, m, d)` yields `(y, m, d)` again, for every valid
/// date of the supported range.
pub proof fn lemma_decode(y: int, m: int, d: int)
    requires
        valid_ymd(y, m, d),
    ensures
        ({
            let days = days_from_civil_s(y, m, d);
            &&& year_s(days) == y
            &&& month_s(days) == m
            &&& day_s(days) == d
            &&& yrs_s(days) == (if m <= 2 {
                y - 1
            } else {
                y
            })
            &&& bump_s(days) == (m <= 2)
            &&& 0 < rev_s(days) < 700_000_000_000_000
            &&& 0 <= cen_s(days) < 19_000_000_000
            &&& 689_757_028_716_000 <= jul_s(days) <= 691_325_765_778_000
            &&& 0 <= hi_s(days) < 2_000_000_000_000
            &&& 0 <= ypt_s(days) < 782_433
            &&& 65_536 <= n_s(days) < 851_968
        }),
{
    let y0 = if m <= 2 {
        y - 1
    } else {
        y
    };
    let e = y0 / 400;
    let b = y0 % 400;
    let q = b / 100;
    let t = b % 100;
    let doy = doy_s(m, d);
    let s = yoe_days_s(b) + doy;
    let days = days_from_civil_s(y, m, d);
    let p64 = POW64 as int;
    lemma_s_structure(y, m, d);
    lemma_era_bounds(y, m, d);
    let ee = ERA_COUNT - e;
    assert(4_721_129_561 <= ee <= 4_731_866_980);
    assert(rev_s(days) == 146_097 * ee - 1 - s);
    lemma_cen_value(days, ee, s, q);
    let cen = cen_s(days);
    let jul = jul_s(days);
    let hh = 400 * ee - b - 1;
    let r = 1457 - 4 * doy + t % 4;
    if s < 146_096 {
        lemma_fundamental_div_mod_converse(cen, 4, ee - 1, 3 - q);
        assert(jul == 146_100 * ee - s - 1 - q);
        assert(4 * jul == 1461 * hh + r) by {
            assert(4 * s == 146_096 * q + 1460 * t + (t - t % 4) + 4 * doy);
        }
    } else {
        lemma_fundamental_div_mod_converse(cen, 4, ee - 2, 3);
        assert(jul == 146_100 * ee - 146_100);
        assert(b == 399 && doy == 365 && t == 99 && q == 3);
        assert(4 * jul == 1461 * hh + r);
    }
    assert(0 <= r < 1461) by {
        if doy == 365 {
            assert(t % 4 == 3);
        }
    }
    assert(689_757_028_716_000 <= jul <= 691_325_765_778_000);
    lemma_hi_low(days, hh, r);
    assert(yrs_s(days) == y0);
    let low = low_s(days);
    let ypt = ypt_s(days);
    assert(p64 == 0x1_0000_0000_0000_0000);
    lemma_fundamental_div_mod(782_432 * low, p64);
    vstd::arithmetic::div_mod::lemma_mod_bound(782_432 * low, p64);
    assert(0x1_0000_0000_0000_0000 * ypt <= 782_432 * low && 782_432 * low
        < 0x1_0000_0000_0000_0000 * (ypt + 1));
    lemma_ypt_window(low, ypt, r, jul);
    // January and February sit at the end of the reversed year: `ypt` is
    // small there and large from March to December.
    if doy >= 306 {
        assert(r <= 236);
        assert(ypt < 126_464) by (nonlinear_arith)
            requires
                26_950_693_091_689_654_910_976 * ypt <= 14_433_322_859_080_711_890_010_112 * r
                    + 248_030_944 * jul,
                r <= 236,
                jul <= 691_325_765_778_000,
        ;
    } else {
        assert(r >= 237);
        assert(ypt >= 126_464) by (nonlinear_arith)
            requires
                14_433_322_859_080_711_890_010_112 * r + 248_030_944 * jul
                    < 26_950_693_091_689_654_910_976 * (ypt + 1),
                r >= 237,
                jul >= 689_757_028_716_000,
        ;
    }
    assert(bump_s(days) == (m <= 2));
    assert(year_s(days) == y);
    assert(0 <= ypt) by {
        assert(0 <= 782_432 * low);
        vstd::arithmetic::div_mod::lemma_div_is_ordered(0, 782_432 * low, p64);
        lemma_fundamental_div_mod_converse(0, p64, 0, 0);
    }
    assert(ypt < 782_433) by (nonlinear_arith)
        requires
            26_950_693_091_689_654_910_976 * ypt <= 14_433_322_859_080_711_890_010_112 * r
                + 248_030_944 * jul,
            r <= 1460,
            jul <= 691_325_765_778_000,
    ;
    assert(y0 % 4 == t % 4);
    assert(n_s(days) == (t % 4) * 512 + (if m <= 2 {
        191_360int
    } else {
        977_792int
    }) - ypt);
    lemma_extract(days, jul, t % 4, r, m, d);
}

// ----- every supported day count is hit by some valid date -----

/// The divisions of the civil→days formula step by one exactly at the
/// multiples of their divisors.
proof fn lemma_div_step(y: int, k: int)
    requires
        k > 0,
    ensures
        y / k - (y - 1) / k == (if y % k == 0 {
            1int
        } else {
            0int
        }),
{
    lemma_fundamental_div_mod(y, k);
    let q = y / k;
    let r = y % k;
    if r == 0 {
        assert(y - 1 == (q - 1) * k + (k - 1)) by (nonlinear_arith)
            requires
                y == k * q + r,
                r == 0,
        ;
        lemma_fundamental_div_mod_converse(y - 1, k, q - 1, k - 1);
    } else {
        assert(y - 1 == q * k + (r - 1)) by (nonlinear_arith)
            requires
                y == k * q + r,
        ;
        lemma_fundamental_div_mod_converse(y - 1, k, q, r - 1);
    }
}

/// Divisibility by 400 implies divisibility by 100, which implies
/// divisibility by 4.
proof fn lemma_div_chain(y: int)
    ensures
        y % 400 == 0 ==> y % 100 == 0,
        y % 100 == 0 ==> y % 4 == 0,
{
    lemma_fundamental_div_mod(y, 400);
    lemma_fundamental_div_mod(y, 100);
    if y % 400 == 0 {
        lemma_fundamental_div_mod_converse(y, 100, 4 * (y / 400), 0);
    }
    if y % 100 == 0 {
        lemma_fundamental_div_mod_converse(y, 4, 25 * (y / 100), 0);
    }
}

/// The calendar day after `(y, m, d)`.
pub open spec fn next_ymd(y: int, m: int, d: int) -> (int, int, int) {
    if d < days_in_month_s(y, m) {
        (y, m, d + 1)
    } else if m < 12 {
        (y, m + 1, 1)
    } else {
        (y + 1, 1, 1)
    }
}

/// Moving to the next calendar day adds exactly one to the day count.
proof fn lemma_succ(y: int, m: int, d: int)
    requires
        valid_ymd(y, m, d),
        !(y == i32::MAX && m == 12 && d == 31),
    ensures
        ({
            let (y2, m2, d2) = next_ymd(y, m, d);
            &&& valid_ymd(y2, m2, d2)
            &&& days_from_civil_s(y2, m2, d2) == days_from_civil_s(y, m, d) + 1
        }),
{
    let dim = days_in_month_s(y, m);
    if d < dim {
        assert(doy_s(m, d + 1) == doy_s(m, d) + 1);
    } else if m == 2 {
        // From the end of February to 1 March the computational year index
        // changes; the division steps add exactly the leap correction.
        lemma_div_step(y, 4);
        lemma_div_step(y, 100);
        lemma_div_step(y, 400);
        lemma_div_chain(y);
    } else if m < 12 {
        assert(month_offset_s(m + 1) == month_offset_s(m) + dim);
    } else {
        assert(doy_s(1, 1) == 306 && doy_s(12, 31) == 305);
    }
}

/// `t` is a valid date that the civil→days map sends to `days`.
pub open spec fn is_preimage(t: (int, int, int), days: int) -> bool {
    &&& valid_ymd(t.0, t.1, t.2)
    &&& days_from_civil_s(t.0, t.1, t.2) == days
}

/// The supported day range is exactly the image of the valid dates: every
/// day count in it is reached.
proof fn lemma_surjective(days: int)
    requires
        DAYS_MIN <= days <= DAYS_MAX,
    ensures
        exists|t: (int, int, int)| #[trigger] is_preimage(t, days),
    decreases days - DAYS_MIN,
{
    lemma_fundamental_div_mod_converse(-2_147_483_649, 400, -5_368_710, 351);
    lemma_fundamental_div_mod_converse(-2_147_483_649, 4, -536_870_913, 3);
    lemma_fundamental_div_mod_converse(-2_147_483_649, 100, -21_474_837, 51);
    if days == DAYS_MIN {
        assert(is_preimage((i32::MIN as int, 1, 1), days));
    } else {
        lemma_surjective(days - 1);
        let t = choose|t: (int, int, int)| #[trigger] is_preimage(t, days - 1);
        if t.0 == i32::MAX && t.1 == 12 && t.2 == 31 {
            lemma_fundamental_div_mod_converse(2_147_483_647, 400, 5_368_709, 47);
            lemma_fundamental_div_mod_converse(2_147_483_647, 4, 536_870_911, 3);
            lemma_fundamental_div_mod_converse(2_147_483_647, 100, 21_474_836, 47);
            assert(days_from_civil_s(t.0, t.1, t.2) == DAYS_MAX);
            assert(false);
        }
        lemma_succ(t.0, t.1, t.2);
        let (y2, m2, d2) = next_ymd(t.0, t.1, t.2);
        assert(is_preimage((y2, m2, d2), days));
    }
}

/// The civil→days map keeps every valid date inside the supported day
/// range.
pub proof fn lemma_forward_range(y: int, m: int, d: int)
    requires
        valid_ymd(y, m, d),
    ensures
        DAYS_MIN <= days_from_civil_s(y, m, d) <= DAYS_MAX,
{
    let y0 = if m <= 2 {
        y - 1
    } else {
        y
    };
    let e = y0 / 400;
    let b = y0 % 400;
    let q = b / 100;
    let t = b % 100;
    let doy = doy_s(m, d);
    let s = yoe_days_s(b) + doy;
    let days = days_from_civil_s(y, m, d);
    lemma_s_structure(y, m, d);
    lemma_doy_facts(y, m, d);
    lemma_fundamental_div_mod_converse(-2_147_483_649, 400, -5_368_710, 351);
    lemma_fundamental_div_mod_converse(-2_147_483_648, 400, -5_368_710, 352);
    lemma_fundamental_div_mod_converse(2_147_483_647, 400, 5_368_709, 47);
    vstd::arithmetic::div_mod::lemma_div_is_ordered(-2_147_483_649, y0, 400);
    vstd::arithmetic::div_mod::lemma_div_is_ordered(y0, 2_147_483_647, 400);
    // Lower end: day counts below `DAYS_MIN` would need a year below the
    // `i32` range.
    if y0 == -2_147_483_649 {
        assert(m <= 2);
        assert(e == -5_368_710 && b == 351);
        assert(q == 3 && t == 51);
        assert(doy >= 306);
        assert(days >= DAYS_MIN);
    } else {
        vstd::arithmetic::div_mod::lemma_div_is_ordered(-2_147_483_648, y0, 400);
        if e == -5_368_710 {
            assert(b >= 352);
            assert(q == 3 && t >= 52);
            assert(s >= 36_524 * 3 + 365 * 52);
            assert(days > DAYS_MIN);
        } else {
            assert(e >= -5_368_709);
            assert(days > DAYS_MIN);
        }
    }
    // Upper end, symmetrically.
    if e == 5_368_709 {
        assert(b <= 47);
        assert(q == 0);
        if b == 47 {
            assert(y0 == 2_147_483_647);
            assert(m > 2);
            assert(doy <= 305);
            assert(s <= 365 * 47 + 11 + 305);
            assert(days <= DAYS_MAX);
        } else {
            assert(t <= 46);
            assert((b % 100) / 4 <= 11);
            assert(s <= 365 * 46 + 11 + 365);
            assert(days < DAYS_MAX);
        }
    } else {
        assert(e <= 5_368_708);
        assert(days < DAYS_MAX);
    }
}

/// Decoding is a total inverse on the supported range: every day count in
/// it decodes to a valid date that encodes back to the same count.
pub proof fn lemma_inverse(days: int)
    requires
        DAYS_MIN <= days <= DAYS_MAX,
    ensures
        valid_ymd(year_s(days), month_s(days), day_s(days)),
        days_from_civil_s(year_s(days), month_s(days), day_s(days)) == days,
        yrs_s(days) == year_s(days) - (if month_s(days) <= 2 {
            1int
        } else {
            0int
        }),
        bump_s(days) == (month_s(days) <= 2),
        0 < rev_s(days) < 700_000_000_000_000,
        0 <= cen_s(days) < 19_000_000_000,
        689_757_028_716_000 <= jul_s(days) <= 691_325_765_778_000,
        0 <= hi_s(days) < 2_000_000_000_000,
        0 <= ypt_s(days) < 782_433,
        65_536 <= n_s(days) < 851_968,
{
    lemma_surjective(days);
    let t = choose|t: (int, int, int)| #[trigger] is_preimage(t, days);
    lemma_decode(t.0, t.1, t.2);
}

// ----- the codec laws -----

/// Round trip, civil side: encoding a valid date and decoding the result
/// gives the same date back, over the whole `i32` year range.
pub proof fn lemma_civil_round_trip(y: int, m: int, d: int)
    requires
        valid_ymd(y, m, d),
    ensures
        DAYS_MIN <= days_from_civil_s(y, m, d) <= DAYS_MAX,
        year_s(days_from_civil_s(y, m, d)) == y,
        month_s(days_from_civil_s(y, m, d)) == m,
        day_s(days_from_civil_s(y, m, d)) == d,
{
    lemma_forward_range(y, m, d);
    lemma_decode(y, m, d);
}

/// Round trip, day side: every day count of the supported range decodes to
/// a valid date that encodes back to the same count.
pub proof fn lemma_days_round_trip(days: int)
    requires
        DAYS_MIN <= days <= DAYS_MAX,
    ensures
        valid_ymd(year_s(days), month_s(days), day_s(days)),
        days_from_civil_s(year_s(days), month_s(days), day_s(days)) == days,
    {
    lemma_inverse(days);
}

/// February 29 exists exactly in the years the 4/100/400 rule calls leap.
pub proof fn lemma_february_29(y: int)
    requires
        i32::MIN <= y <= i32::MAX,
    ensures
        valid_ymd(y, 2, 29) <==> ((y % 4 == 0 && y % 100 != 0) || y % 400 == 0),
{
}

/// The Gregorian calendar repeats every 400 years: shifting a date by 400
/// years moves its day count by exactly one era of 146097 days.
pub proof fn lemma_era_periodic(y: int, m: int, d: int)
    requires
        valid_ymd(y, m, d),
        y + 400 <= i32::MAX,
    ensures
        valid_ymd(y + 400, m, d),
        days_from_civil_s(y + 400, m, d) == days_from_civil_s(y, m, d) + 146_097,
{
    let y0 = if m <= 2 {
        y - 1
    } else {
        y
    };
    vstd::arithmetic::div_mod::lemma_mod_multiples_vanish(100, y, 4);
    vstd::arithmetic::div_mod::lemma_mod_multiples_vanish(4, y, 100);
    vstd::arithmetic::div_mod::lemma_mod_multiples_vanish(1, y, 400);
    lemma_fundamental_div_mod(y0, 4);
    lemma_fundamental_div_mod(y0, 100);
    lemma_fundamental_div_mod(y0, 400);
    lemma_fundamental_div_mod_converse(y0 + 400, 4, y0 / 4 + 100, y0 % 4);
    lemma_fundamental_div_mod_converse(y0 + 400, 100, y0 / 100 + 4, y0 % 100);
    lemma_fundamental_div_mod_converse(y0 + 400, 400, y0 / 400 + 1, y0 % 400);
}

/// The century-rule correction of the civil→days formula.
pub open spec fn leap_corr_s(y: int) -> int {
    y / 4 - y / 100 + y / 400
}

/// The correction steps by one exactly at leap years, and never falls.
proof fn lemma_leap_corr_step(y: int)
    ensures
        leap_corr_s(y) - leap_corr_s(y - 1) == (if is_leap_year_s(y) {
            1int
        } else {
            0int
        }),
{
    lemma_div_step(y, 4);
    lemma_div_step(y, 100);
    lemma_div_step(y, 400);
    lemma_div_chain(y);
}

/// The correction never decreases as the year grows.
proof fn lemma_leap_corr_monotone(y1: int, y2: int)
    requires
        y1 <= y2,
    ensures
        leap_corr_s(y1) <= leap_corr_s(y2),
    decreases y2 - y1,
{
    if y1 < y2 {
        lemma_leap_corr_step(y2);
        lemma_leap_corr_monotone(y1, y2 - 1);
    }
}

/// Every day of a year lies between its 1 January and its 31 December.
proof fn lemma_days_within_year(y: int, m: int, d: int)
    requires
        valid_ymd(y, m, d),
    ensures
        days_from_civil_s(y, 1, 1) <= days_from_civil_s(y, m, d) <= days_from_civil_s(y, 12, 31),
{
    lemma_doy_facts(y, m, d);
    lemma_leap_corr_step(y);
}

/// A later year begins strictly after an earlier year ends.
proof fn lemma_days_year_monotone(y1: int, y2: int)
    requires
        y1 < y2,
    ensures
        days_from_civil_s(y1, 12, 31) < days_from_civil_s(y2, 1, 1),
{
    lemma_leap_corr_monotone(y1, y2 - 1);
}

/// The civil→days map orders valid dates exactly as their fields do: the
/// structural order on `(year, month, day)` is the chronological order.
pub proof fn lemma_chronological_order(y1: int, m1: int, d1: int, y2: int, m2: int, d2: int)
    requires
        valid_ymd(y1, m1, d1),
        valid_ymd(y2, m2, d2),
    ensures
        days_from_civil_s(y1, m1, d1) < days_from_civil_s(y2, m2, d2) <==> (y1 < y2 || (y1 == y2
            && (m1 < m2 || (m1 == m2 && d1 < d2)))),
{
    if y1 < y2 || (y1 == y2 && (m1 < m2 || (m1 == m2 && d1 < d2))) {
        lemma_chronological_lt(y1, m1, d1, y2, m2, d2);
    } else if y2 < y1 || (y2 == y1 && (m2 < m1 || (m2 == m1 && d2 < d1))) {
        lemma_chronological_lt(y2, m2, d2, y1, m1, d1);
    }
}

/// One direction of the order correspondence: an earlier triple maps to a
/// strictly smaller day count.
proof fn lemma_chronological_lt(y1: int, m1: int, d1: int, y2: int, m2: int, d2: int)
    requires
        valid_ymd(y1, m1, d1),
        valid_ymd(y2, m2, d2),
        y1 < y2 || (y1 == y2 && (m1 < m2 || (m1 == m2 && d1 < d2))),
    ensures
        days_from_civil_s(y1, m1, d1) < days_from_civil_s(y2, m2, d2),
{
    if y1 < y2 {
        lemma_days_within_year(y1, m1, d1);
        lemma_days_within_year(y2, m2, d2);
        lemma_days_year_monotone(y1, y2);
    } else {
        lemma_doy_facts(y1, m1, d1);
        lemma_doy_facts(y2, m2, d2);
        if m1 <= 2 && m2 > 2 {
            // Crossing the February boundary changes the computational
            // year; strictness at the boundary comes from the leap rule.
            lemma_leap_corr_step(y1);
            if m1 == 2 && d1 == 29 {
                assert(is_leap_year_s(y1));
            }
        }
    }
}

/// Days since the Unix epoch of the valid date `(y, m, d)`: the civil→days
/// direction, exact for the proleptic Gregorian calendar.
pub fn days_from_civil(y: i32, m: u8, d: u8) -> (r: i64)
    requires
        1 <= m <= 12,
        1 <= d <= 31,
    ensures
        r == days_from_civil_s(y as int, m as int, d as int),
{
    let y64: i64 = y as i64;
    let m64: i64 = m as i64;
    let d64: i64 = d as i64;
    let y0: i64 = y64 - if m64 <= 2 {
        1
    } else {
        0
    };
    let era: i64 = if y0 >= 0 {
        y0 / 400
    } else {
        proof {
            lemma_neg_era(y0 as int);
        }
        -((399 - y0) / 400)
    };
    proof {
        lemma_era_split(y0 as int);
    }
    let yoe: i64 = y0 - era * 400;
    let mp: i64 = m64 + if m64 > 2 {
        -3
    } else {
        9
    };
    proof {
        lemma_month_offset_formula(m as int);
    }
    let doy: i64 = (153 * mp + 2) / 5 + d64 - 1;
    let doe: i64 = yoe * 365 + yoe / 4 - yoe / 100 + doy;
    proof {
        lemma_forward_era_form(y as int, m as int, d as int);
    }
    era * 146_097 + doe - 719_468
}

} // verus!
