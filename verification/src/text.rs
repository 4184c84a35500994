//! Strict ASCII text for the library's types: `YYYY-MM-DD` dates,
//! `HH:MM:SS[.fffffffff]` times, `Z`-suffixed UTC instants and RFC
//! 3339-style offset date-times.  Both directions are pinned down at the
//! specification level: each format has a spec-level text, and each parser
//! a spec-level grammar, that the executable code is proved to follow.

use vstd::prelude::*;

verus! {

use crate::codec::valid_ymd;
use crate::date::Date;
use crate::date::DateError;
use crate::time::Time;

/// An ASCII decimal digit.
pub open spec fn is_digit(c: char) -> bool {
    '0' <= c && c <= '9'
}

/// Numeric value of a digit character.
pub open spec fn digit_val(c: char) -> int {
    c as int - 48
}

/// The digit character for a value below ten.
pub open spec fn digit_char(d: int) -> char {
    if d == 0 {
        '0'
    } else if d == 1 {
        '1'
    } else if d == 2 {
        '2'
    } else if d == 3 {
        '3'
    } else if d == 4 {
        '4'
    } else if d == 5 {
        '5'
    } else if d == 6 {
        '6'
    } else if d == 7 {
        '7'
    } else if d == 8 {
        '8'
    } else {
        '9'
    }
}

/// Decimal text of a non-negative number, most significant digit first.
pub open spec fn dec_str(n: nat) -> Seq<char>
    decreases n,
{
    if n < 10 {
        seq![digit_char(n as int)]
    } else {
        dec_str(n / 10).push(digit_char((n % 10) as int))
    }
}

/// `s` left-padded with zeros to width `w` (unchanged if already wider).
pub open spec fn pad_zeros(s: Seq<char>, w: int) -> Seq<char> {
    if s.len() >= w {
        s
    } else {
        Seq::new((w - s.len()) as nat, |i: int| '0') + s
    }
}

/// A year, zero-padded to at least four characters including any sign.
pub open spec fn year_text_s(y: int) -> Seq<char> {
    if y >= 0 {
        pad_zeros(dec_str(y as nat), 4)
    } else {
        seq!['-'] + pad_zeros(dec_str((-y) as nat), 3)
    }
}

/// A field value padded to two digits.
pub open spec fn two_digits_s(v: int) -> Seq<char> {
    pad_zeros(dec_str(v as nat), 2)
}

/// `YYYY-MM-DD`, the date text.
pub open spec fn date_text_s(y: int, m: int, d: int) -> Seq<char> {
    year_text_s(y) + seq!['-'] + two_digits_s(m) + seq!['-'] + two_digits_s(d)
}

/// `s` with every trailing zero removed.
pub open spec fn strip_zeros(s: Seq<char>) -> Seq<char>
    decreases s.len(),
{
    if s.len() > 0 && s.last() == '0' {
        strip_zeros(s.drop_last())
    } else {
        s
    }
}

/// The fractional-second text: empty for zero nanoseconds, otherwise a dot
/// and the nine-digit nanosecond count with trailing zeros removed.
pub open spec fn frac_text_s(ns: int) -> Seq<char> {
    if ns == 0 {
        Seq::<char>::empty()
    } else {
        seq!['.'] + strip_zeros(pad_zeros(dec_str(ns as nat), 9))
    }
}

/// `HH:MM:SS[.fffffffff]`, the time text.
pub open spec fn time_text_s(h: int, mi: int, s: int, ns: int) -> Seq<char> {
    two_digits_s(h) + seq![':'] + two_digits_s(mi) + seq![':'] + two_digits_s(s) + frac_text_s(ns)
}

// ----- executable digit building blocks -----

/// Append one decimal digit character.
fn push_digit(s: &mut String, d: u8)
    requires
        d < 10,
    ensures
        final(s)@ == old(s)@ + seq![digit_char(d as int)],
{
    match d {
        0 => s.append("0"),
        1 => s.append("1"),
        2 => s.append("2"),
        3 => s.append("3"),
        4 => s.append("4"),
        5 => s.append("5"),
        6 => s.append("6"),
        7 => s.append("7"),
        8 => s.append("8"),
        _ => s.append("9"),
    }
    proof {
        reveal_strlit("0");
        reveal_strlit("1");
        reveal_strlit("2");
        reveal_strlit("3");
        reveal_strlit("4");
        reveal_strlit("5");
        reveal_strlit("6");
        reveal_strlit("7");
        reveal_strlit("8");
        reveal_strlit("9");
        assert(s@ =~= old(s)@ + seq![digit_char(d as int)]);
    }
}

/// Append the decimal text of `v`.
fn push_uint(s: &mut String, v: u64)
    ensures
        final(s)@ == old(s)@ + dec_str(v as nat),
    decreases v,
{
    if v < 10 {
        push_digit(s, v as u8);
    } else {
        push_uint(s, v / 10);
        push_digit(s, (v % 10) as u8);
        proof {
            assert(s@ =~= old(s)@ + dec_str(v as nat));
        }
    }
}

/// Number of digits in the decimal text of `v`.
fn dec_len(v: u64) -> (r: usize)
    ensures
        r == dec_str(v as nat).len(),
        1 <= r <= 20,
    decreases v,
{
    proof {
        lemma_pow10_values();
        lemma_dec_str_len_pow(v as nat, 20);
    }
    if v < 10 {
        1
    } else {
        1 + dec_len(v / 10)
    }
}

/// A number below `10^k` has at most `k` digits; one digit per division.
proof fn lemma_dec_str_len_pow(n: nat, k: nat)
    requires
        1 <= k,
        n < pow10(k as int),
    ensures
        1 <= dec_str(n).len() <= k,
        n < 10 ==> dec_str(n).len() == 1,
        n >= 10 ==> dec_str(n).len() == dec_str(n / 10).len() + 1,
    decreases k,
{
    if n >= 10 {
        assert(pow10(k as int) == 10 * pow10(k as int - 1));
        assert(n / 10 < pow10(k as int - 1)) by {
            vstd::arithmetic::div_mod::lemma_fundamental_div_mod(n as int, 10);
        }
        lemma_dec_str_len_pow(n / 10, (k - 1) as nat);
    }
}

/// Powers of ten up to one billion, as used by the digit widths.
pub open spec fn pow10(k: int) -> int
    decreases k,
{
    if k <= 0 {
        1int
    } else {
        10 * pow10(k - 1)
    }
}

/// The concrete powers of ten the digit widths rely on.
pub proof fn lemma_pow10_values()
    ensures
        pow10(0) == 1,
        pow10(1) == 10,
        pow10(2) == 100,
        pow10(3) == 1000,
        pow10(4) == 10_000,
        pow10(5) == 100_000,
        pow10(6) == 1_000_000,
        pow10(7) == 10_000_000,
        pow10(8) == 100_000_000,
        pow10(9) == 1_000_000_000,
        pow10(20) == 100_000_000_000_000_000_000,
{
    assert(pow10(0) == 1);
    assert(pow10(1) == 10);
    assert(pow10(2) == 100);
    assert(pow10(3) == 1000);
    assert(pow10(4) == 10_000);
    assert(pow10(5) == 100_000);
    assert(pow10(6) == 1_000_000);
    assert(pow10(7) == 10_000_000);
    assert(pow10(8) == 100_000_000);
    assert(pow10(9) == 1_000_000_000);
    assert(pow10(10) == 10_000_000_000);
    assert(pow10(11) == 100_000_000_000);
    assert(pow10(12) == 1_000_000_000_000);
    assert(pow10(13) == 10_000_000_000_000);
    assert(pow10(14) == 100_000_000_000_000);
    assert(pow10(15) == 1_000_000_000_000_000);
    assert(pow10(16) == 10_000_000_000_000_000);
    assert(pow10(17) == 100_000_000_000_000_000);
    assert(pow10(18) == 1_000_000_000_000_000_000);
    assert(pow10(19) == 10_000_000_000_000_000_000);
    assert(pow10(20) == 100_000_000_000_000_000_000);
}

/// Append the decimal text of `v`, left-padded with zeros to `width`.
fn push_uint_padded(s: &mut String, v: u64, width: usize)
    requires
        width <= 9 || dec_str(v as nat).len() >= width,
    ensures
        final(s)@ == old(s)@ + pad_zeros(dec_str(v as nat), width as int),
{
    let digits = dec_len(v);
    let mut pad: usize = 0;
    let ghost target = if dec_str(v as nat).len() >= width {
        0int
    } else {
        width - dec_str(v as nat).len()
    };
    while pad + digits < width
        invariant
            digits == dec_str(v as nat).len(),
            width <= 9 || digits >= width,
            0 <= pad <= target,
            digits < width ==> target == width - digits,
            digits >= width ==> target == 0,
            s@ =~= old(s)@ + Seq::new(pad as nat, |i: int| '0'),
        decreases width - pad,
    {
        s.append("0");
        proof {
            reveal_strlit("0");
            assert(s@ =~= old(s)@ + Seq::new((pad + 1) as nat, |i: int| '0'));
        }
        pad = pad + 1;
    }
    push_uint(s, v);
    proof {
        assert(s@ =~= old(s)@ + pad_zeros(dec_str(v as nat), width as int));
    }
}

// ----- formatting -----

/// `<date>T<time>Z`, the UTC instant text.
pub open spec fn datetime_text_s(y: int, m: int, d: int, h: int, mi: int, s: int, ns: int) -> Seq<
    char,
> {
    date_text_s(y, m, d) + seq!['T'] + time_text_s(h, mi, s, ns) + seq!['Z']
}

/// `±HH:MM`, the offset text.
pub open spec fn offset_text_s(secs: int) -> Seq<char> {
    let a = if secs >= 0 {
        secs
    } else {
        -secs
    };
    (if secs >= 0 {
        seq!['+']
    } else {
        seq!['-']
    }) + two_digits_s(a / 3600) + seq![':'] + two_digits_s((a % 3600) / 60)
}

/// `<local date>T<local time>` followed by `Z` or `±HH:MM`, the RFC
/// 3339-style text of an instant with an offset.
pub open spec fn odt_text_s(
    y: int,
    m: int,
    d: int,
    h: int,
    mi: int,
    s: int,
    ns: int,
    offsecs: int,
) -> Seq<char> {
    date_text_s(y, m, d) + seq!['T'] + time_text_s(h, mi, s, ns) + (if offsecs == 0 {
        seq!['Z']
    } else {
        offset_text_s(offsecs)
    })
}

impl Date {
    /// Render as `YYYY-MM-DD`; the year keeps at least four characters,
    /// zero-padded, with a leading minus for negative years.
    pub fn format(&self) -> (r: String)
        requires
            self.wf(),
        ensures
            r@ == date_text_s(self.year as int, self.month as int, self.day as int),
    {
        let mut s = String::new();
        if self.year >= 0 {
            push_uint_padded(&mut s, self.year as u64, 4);
        } else {
            s.append("-");
            push_uint_padded(&mut s, (-(self.year as i64)) as u64, 3);
        }
        s.append("-");
        push_uint_padded(&mut s, self.month as u64, 2);
        s.append("-");
        push_uint_padded(&mut s, self.day as u64, 2);
        proof {
            reveal_strlit("-");
            assert(s@ =~= date_text_s(self.year as int, self.month as int, self.day as int));
        }
        s
    }
}

/// Removing one trailing zero digit from the padded text matches dividing
/// the value by ten and narrowing the width.
proof fn lemma_strip_step(v: nat, w: int)
    requires
        v >= 1,
        v % 10 == 0,
        dec_str(v).len() <= w,
    ensures
        strip_zeros(pad_zeros(dec_str(v), w)) == strip_zeros(pad_zeros(dec_str(v / 10), w - 1)),
        dec_str(v / 10).len() == dec_str(v).len() - 1,
        v / 10 >= 1,
{
    assert(v >= 10) by {
        vstd::arithmetic::div_mod::lemma_fundamental_div_mod(v as int, 10);
    }
    let x = dec_str(v / 10);
    assert(dec_str(v) == x.push('0'));
    if x.len() + 1 >= w {
        assert(pad_zeros(x.push('0'), w) == x.push('0'));
        assert(x.push('0').drop_last() =~= x);
        assert(pad_zeros(x, w - 1) == x);
    } else {
        let z = Seq::new((w - x.len() - 1) as nat, |i: int| '0');
        assert(pad_zeros(x.push('0'), w) =~= z + x.push('0'));
        assert((z + x.push('0')).last() == '0');
        assert((z + x.push('0')).drop_last() =~= z + x);
        assert(pad_zeros(x, w - 1) =~= z + x);
    }
}

/// A value with a non-zero last digit loses nothing to the stripping.
proof fn lemma_strip_id(v: nat, w: int)
    requires
        v % 10 != 0 || v < 10,
        !(v == 0 && w > 1),
    ensures
        strip_zeros(pad_zeros(dec_str(v), w)) == pad_zeros(dec_str(v), w) || v == 0,
{
    if v != 0 {
        let x = dec_str(v);
        assert(x.last() == digit_char((v % 10) as int)) by {
            if v < 10 {
                vstd::arithmetic::div_mod::lemma_fundamental_div_mod(v as int, 10);
            }
        }
        assert(x.last() != '0');
        if x.len() >= w {
            assert(pad_zeros(x, w) == x);
        } else {
            let z = Seq::new((w - x.len()) as nat, |i: int| '0');
            assert(pad_zeros(x, w).last() == x.last());
        }
    }
}

impl Time {
    /// Render as `HH:MM:SS`, with `.f…` appended when the nanosecond field
    /// is non-zero: up to nine fractional digits, trailing zeros removed.
    pub fn format(&self) -> (r: String)
        requires
            self.wf(),
        ensures
            r@ == time_text_s(
                self.hour as int,
                self.minute as int,
                self.second as int,
                self.nanosecond as int,
            ),
    {
        let mut s = String::new();
        push_uint_padded(&mut s, self.hour as u64, 2);
        s.append(":");
        push_uint_padded(&mut s, self.minute as u64, 2);
        s.append(":");
        push_uint_padded(&mut s, self.second as u64, 2);
        let ghost hms = s@;
        if self.nanosecond != 0 {
            s.append(".");
            let ghost ns = self.nanosecond as nat;
            let mut v: u64 = self.nanosecond as u64;
            let mut w: usize = 9;
            proof {
                lemma_pow10_values();
                lemma_dec_str_len_pow(ns, 9);
            }
            while v % 10 == 0
                invariant
                    v >= 1,
                    1 <= w <= 9,
                    dec_str(v as nat).len() <= w,
                    strip_zeros(pad_zeros(dec_str(ns), 9)) == strip_zeros(
                        pad_zeros(dec_str(v as nat), w as int),
                    ),
                decreases w,
            {
                proof {
                    lemma_strip_step(v as nat, w as int);
                }
                v = v / 10;
                w = w - 1;
            }
            proof {
                lemma_strip_id(v as nat, w as int);
            }
            push_uint_padded(&mut s, v, w);
        }
        proof {
            reveal_strlit(":");
            reveal_strlit(".");
            assert(s@ =~= time_text_s(
                self.hour as int,
                self.minute as int,
                self.second as int,
                self.nanosecond as int,
            ));
        }
        s
    }
}

impl crate::datetime::DateTime {
    /// Render as `YYYY-MM-DDTHH:MM:SS[.f…]Z`.
    pub fn format(&self) -> (r: String)
        requires
            self.wf(),
        ensures
            r@ == datetime_text_s(
                self.date.year as int,
                self.date.month as int,
                self.date.day as int,
                self.time.hour as int,
                self.time.minute as int,
                self.time.second as int,
                self.time.nanosecond as int,
            ),
    {
        let mut s = self.date.format();
        s.append("T");
        let t = self.time.format();
        s.append(t.as_str());
        s.append("Z");
        proof {
            reveal_strlit("T");
            reveal_strlit("Z");
            assert(s@ =~= datetime_text_s(
                self.date.year as int,
                self.date.month as int,
                self.date.day as int,
                self.time.hour as int,
                self.time.minute as int,
                self.time.second as int,
                self.time.nanosecond as int,
            ));
        }
        s
    }
}

impl crate::offset::UtcOffset {
    /// Render as `±HH:MM`; the zero offset renders as `+00:00`.
    pub fn format(&self) -> (r: String)
        requires
            self.wf(),
        ensures
            r@ == offset_text_s(self.seconds_s()),
    {
        let secs = self.as_seconds();
        let mut s = String::new();
        if secs >= 0 {
            s.append("+");
        } else {
            s.append("-");
        }
        let a: i32 = if secs >= 0 {
            secs
        } else {
            -secs
        };
        push_uint_padded(&mut s, (a / 3600) as u64, 2);
        s.append(":");
        push_uint_padded(&mut s, ((a % 3600) / 60) as u64, 2);
        proof {
            reveal_strlit("+");
            reveal_strlit("-");
            reveal_strlit(":");
            assert(s@ =~= offset_text_s(self.seconds_s()));
        }
        s
    }
}

impl crate::offset::OffsetDateTime {
    /// Render as `<local date>T<local time>` followed by `Z` for the zero
    /// offset or `±HH:MM` otherwise.  The text shows the local reading, so
    /// that reading must itself be a representable instant.
    pub fn format(&self) -> (r: String)
        requires
            self.wf(),
            crate::datetime::UNIX_NANOS_MIN <= self.utc.unix_nanos_s() + self.offset.seconds_s()
                * 1_000_000_000 <= crate::datetime::UNIX_NANOS_MAX,
        ensures
            forall|local: crate::datetime::DateTime|
                local.wf() && local.unix_nanos_s() == self.utc.unix_nanos_s()
                    + self.offset.seconds_s() * 1_000_000_000 ==> r@ == odt_text_s(
                    local.date.year as int,
                    local.date.month as int,
                    local.date.day as int,
                    local.time.hour as int,
                    local.time.minute as int,
                    local.time.second as int,
                    local.time.nanosecond as int,
                    self.offset.seconds_s(),
                ),
    {
        let local = match self.to_local() {
            Ok(local) => local,
            Err(_) => {
                proof {
                    assert(false);
                }
                crate::datetime::DateTime::new(
                    crate::date::Date::from_ymd_unchecked(1970, 1, 1),
                    crate::time::Time { hour: 0, minute: 0, second: 0, nanosecond: 0 },
                )
            },
        };
        let mut s = local.date.format();
        s.append("T");
        let t = local.time.format();
        s.append(t.as_str());
        if self.offset.is_utc() {
            s.append("Z");
        } else {
            let o = self.format_offset();
            s.append(o.as_str());
        }
        proof {
            reveal_strlit("T");
            reveal_strlit("Z");
            assert forall|l2: crate::datetime::DateTime|
                l2.wf() && l2.unix_nanos_s() == self.utc.unix_nanos_s() + self.offset.seconds_s()
                    * 1_000_000_000 implies s@ == odt_text_s(
                l2.date.year as int,
                l2.date.month as int,
                l2.date.day as int,
                l2.time.hour as int,
                l2.time.minute as int,
                l2.time.second as int,
                l2.time.nanosecond as int,
                self.offset.seconds_s(),
            ) by {
                crate::datetime::lemma_instant_determines_fields(l2, local);
                assert(s@ =~= odt_text_s(
                    l2.date.year as int,
                    l2.date.month as int,
                    l2.date.day as int,
                    l2.time.hour as int,
                    l2.time.minute as int,
                    l2.time.second as int,
                    l2.time.nanosecond as int,
                    self.offset.seconds_s(),
                ));
            }
        }
        s
    }

    /// Render only the offset part, `±HH:MM`.
    pub fn format_offset(&self) -> (r: String)
        requires
            self.wf(),
        ensures
            r@ == offset_text_s(self.offset.seconds_s()),
    {
        self.offset.format()
    }
}

// ----- parsing: numeric building blocks -----

/// Every character is an ASCII digit.
pub open spec fn all_digits(s: Seq<char>) -> bool {
    forall|i: int| 0 <= i < s.len() ==> is_digit(#[trigger] s[i])
}

/// Value of a pure digit string, most significant digit first.
pub open spec fn uint_val(s: Seq<char>) -> int
    decreases s.len(),
{
    if s.len() == 0 {
        0int
    } else {
        uint_val(s.drop_last()) * 10 + digit_val(s.last())
    }
}

/// The number a numeric field holds: one or more ASCII digits, nothing
/// else, with a value of at most `max`.
pub open spec fn parse_uint_s(s: Seq<char>, max: int) -> Option<int> {
    if s.len() > 0 && all_digits(s) && uint_val(s) <= max {
        Some(uint_val(s))
    } else {
        None
    }
}

/// Digit-string values are non-negative and below `10^len`.
proof fn lemma_uint_val_bounds(s: Seq<char>)
    requires
        all_digits(s),
    ensures
        0 <= uint_val(s) < pow10(s.len() as int),
    decreases s.len(),
{
    if s.len() > 0 {
        assert(all_digits(s.drop_last()));
        lemma_uint_val_bounds(s.drop_last());
        assert(uint_val(s) < pow10(s.len() as int)) by (nonlinear_arith)
            requires
                uint_val(s) == uint_val(s.drop_last()) * 10 + digit_val(s.last()),
                0 <= uint_val(s.drop_last()) < pow10(s.len() - 1),
                digit_val(s.last()) <= 9,
                pow10(s.len() as int) == 10 * pow10(s.len() - 1),
        ;
    }
}

/// Extending a digit string by one digit scales its value by ten.
proof fn lemma_uint_val_extend(s: Seq<char>, k: int)
    requires
        0 <= k < s.len(),
    ensures
        uint_val(s.subrange(0, k + 1)) == uint_val(s.subrange(0, k)) * 10 + digit_val(s[k]),
{
    let t = s.subrange(0, k + 1);
    assert(t.drop_last() =~= s.subrange(0, k));
    assert(t.last() == s[k]);
}

/// A prefix of a digit string never exceeds the whole string's value.
proof fn lemma_uint_val_prefix_le(s: Seq<char>, k: int)
    requires
        all_digits(s),
        0 <= k <= s.len(),
    ensures
        uint_val(s.subrange(0, k)) <= uint_val(s),
    decreases s.len() - k,
{
    if k == s.len() {
        assert(s.subrange(0, k) =~= s);
    } else {
        lemma_uint_val_extend(s, k);
        assert(all_digits(s.subrange(0, k)));
        lemma_uint_val_bounds(s.subrange(0, k));
        lemma_uint_val_prefix_le(s, k + 1);
    }
}

/// A left-to-right scan that found `c` at `i`, or never, pins down the
/// sequence's first occurrence of `c`.
proof fn lemma_first_occurrence(s: Seq<char>, c: char, i: int)
    requires
        0 <= i <= s.len(),
        forall|k: int| 0 <= k < i ==> s[k] != c,
        i < s.len() ==> s[i] == c,
    ensures
        i < s.len() ==> s.index_of_first(c) == Some(i),
        i == s.len() ==> s.index_of_first(c) is None,
{
    s.index_of_first_ensures(c);
    if i < s.len() {
        assert(s.contains(c));
        match s.index_of_first(c) {
            Some(idx) => {
                assert(!(idx < i) && !(i < idx));
            },
            None => {
                assert(false);
            },
        }
    } else {
        if s.contains(c) {
            let w = choose|w: int| 0 <= w < s.len() && s[w] == c;
            assert(false);
        }
    }
}

/// Index of the first occurrence of `c` in `s` within `[from, to)`, or
/// `to` if there is none.
fn find_char_from(s: &str, from: usize, to: usize, c: char) -> (r: usize)
    requires
        from <= to <= s@.len(),
    ensures
        from <= r <= to,
        forall|k: int| from <= k < r ==> s@[k] != c,
        r < to ==> s@[r as int] == c,
{
    let mut i = from;
    while i < to
        invariant
            from <= i <= to <= s@.len(),
            forall|k: int| from <= k < i ==> s@[k] != c,
        decreases to - i,
    {
        if s.get_char(i) == c {
            return i;
        }
        i = i + 1;
    }
    to
}

/// Parse the characters of `s` in `[from, to)` as a numeric field: one or
/// more decimal digits with a value of at most `max`.
fn parse_uint_range(s: &str, from: usize, to: usize, max: u64) -> (r: Option<u64>)
    requires
        from <= to <= s@.len(),
        max <= 4_000_000_000,
    ensures
        r is Some <==> parse_uint_s(s@.subrange(from as int, to as int), max as int) is Some,
        r matches Some(v) ==> parse_uint_s(s@.subrange(from as int, to as int), max as int)
            == Some(v as int) && v <= max,
{
    let ghost sub = s@.subrange(from as int, to as int);
    if from == to {
        return None;
    }
    let mut acc: u64 = 0;
    let mut j = from;
    while j < to
        invariant
            from <= j <= to <= s@.len(),
            from < to,
            max <= 4_000_000_000,
            sub == s@.subrange(from as int, to as int),
            all_digits(s@.subrange(from as int, j as int)),
            acc == uint_val(s@.subrange(from as int, j as int)),
            acc <= max,
        decreases to - j,
    {
        let c = s.get_char(j);
        let cv = c as u32;
        if cv < 48 || cv > 57 {
            proof {
                assert(c == s@[j as int]);
                assert(sub[j - from] == c);
                assert(!is_digit(sub[j - from]));
                assert(!all_digits(sub));
                assert(parse_uint_s(sub, max as int) is None);
            }
            return None;
        }
        let d: u64 = (cv - 48) as u64;
        let acc2: u64 = acc * 10 + d;
        proof {
            lemma_uint_val_extend(sub, j - from);
            assert(s@.subrange(from as int, j as int) =~= sub.subrange(0, j - from));
            assert(s@.subrange(from as int, (j + 1) as int) =~= sub.subrange(0, j - from + 1));
        }
        if acc2 > max {
            proof {
                if all_digits(sub) {
                    lemma_uint_val_prefix_le(sub, j - from + 1);
                    assert(uint_val(sub.subrange(0, j - from)) == acc);
                    assert(digit_val(sub[j - from]) == d);
                    assert(uint_val(sub.subrange(0, j - from + 1)) == acc2);
                    assert(uint_val(sub) >= acc2);
                }
                assert(parse_uint_s(sub, max as int) is None);
            }
            return None;
        }
        acc = acc2;
        j = j + 1;
        proof {
            assert(all_digits(s@.subrange(from as int, j as int)));
        }
    }
    proof {
        assert(sub =~= s@.subrange(from as int, j as int));
    }
    Some(acc)
}

// ----- the decimal text of a value parses back to the value -----

/// The decimal text of `n` is all digits and reads back as `n`.
proof fn lemma_dec_str_val(n: nat)
    ensures
        all_digits(dec_str(n)),
        uint_val(dec_str(n)) == n,
    decreases n,
{
    if n < 10 {
        assert(dec_str(n) =~= seq![digit_char(n as int)]);
        assert(is_digit(digit_char(n as int)));
        assert(digit_val(digit_char(n as int)) == n);
        assert(all_digits(dec_str(n)));
        assert(uint_val(dec_str(n)) == uint_val(dec_str(n).drop_last()) * 10 + digit_val(
            dec_str(n).last(),
        ));
        assert(dec_str(n).drop_last() =~= Seq::<char>::empty());
    } else {
        lemma_dec_str_val(n / 10);
        let x = dec_str(n / 10);
        let c = digit_char((n % 10) as int);
        assert(is_digit(c));
        assert(x.push(c).drop_last() =~= x);
        assert(x.push(c).last() == c);
        assert(digit_val(c) == n % 10);
        vstd::arithmetic::div_mod::lemma_fundamental_div_mod(n as int, 10);
        assert(forall|i: int| 0 <= i < x.push(c).len() ==> is_digit(#[trigger] x.push(c)[i]));
    }
}

/// Prepending zeros leaves a digit string's value unchanged.
proof fn lemma_uint_val_lead_zeros(z: Seq<char>, s: Seq<char>)
    requires
        forall|i: int| 0 <= i < z.len() ==> #[trigger] z[i] == '0',
        all_digits(s),
    ensures
        all_digits(z + s),
        uint_val(z + s) == uint_val(s),
    decreases s.len(),
{
    assert(forall|i: int| 0 <= i < (z + s).len() ==> is_digit(#[trigger] (z + s)[i]));
    if s.len() == 0 {
        lemma_uint_val_zeros(z + s);
    } else {
        assert(all_digits(s.drop_last()));
        lemma_uint_val_lead_zeros(z, s.drop_last());
        assert((z + s).drop_last() =~= z + s.drop_last());
        assert((z + s).last() == s.last());
    }
}

/// A string of zeros has value zero.
proof fn lemma_uint_val_zeros(z: Seq<char>)
    requires
        forall|i: int| 0 <= i < z.len() ==> #[trigger] z[i] == '0',
    ensures
        uint_val(z) == 0,
    decreases z.len(),
{
    if z.len() > 0 {
        lemma_uint_val_zeros(z.drop_last());
    }
}

/// A zero-padded decimal text is all digits and still reads back as its
/// value.
proof fn lemma_pad_dec_val(n: nat, w: int)
    ensures
        all_digits(pad_zeros(dec_str(n), w)),
        uint_val(pad_zeros(dec_str(n), w)) == n,
        pad_zeros(dec_str(n), w).len() >= w,
        pad_zeros(dec_str(n), w).len() >= 1,
{
    lemma_dec_str_val(n);
    let s = dec_str(n);
    if s.len() < w {
        let z = Seq::new((w - s.len()) as nat, |i: int| '0');
        lemma_uint_val_lead_zeros(z, s);
    }
}

/// A two-digit field text parses back to its value.
proof fn lemma_two_digits_round_trip(v: int)
    requires
        0 <= v <= 99,
    ensures
        two_digits_s(v).len() == 2,
        all_digits(two_digits_s(v)),
        parse_uint_s(two_digits_s(v), 255) == Some(v),
{
    lemma_pow10_values();
    lemma_dec_str_len_pow(v as nat, 2);
    lemma_pad_dec_val(v as nat, 2);
}

/// Stripping trailing zeros divides a digit string's value by the matching
/// power of ten, exactly.
proof fn lemma_strip_val(s: Seq<char>)
    requires
        all_digits(s),
    ensures
        all_digits(strip_zeros(s)),
        strip_zeros(s).len() <= s.len(),
        uint_val(strip_zeros(s)) * pow10(s.len() - strip_zeros(s).len()) == uint_val(s),
        uint_val(s) > 0 ==> strip_zeros(s).len() >= 1,
    decreases s.len(),
{
    if s.len() > 0 && s.last() == '0' {
        assert(digit_val('0') == 0);
        assert(all_digits(s.drop_last()));
        lemma_strip_val(s.drop_last());
        let t = strip_zeros(s);
        assert(t == strip_zeros(s.drop_last()));
        assert(pow10(s.len() - t.len()) == 10 * pow10(s.len() - 1 - t.len()));
        assert(uint_val(s) == uint_val(s.drop_last()) * 10);
        assert(uint_val(t) * pow10(s.len() - t.len()) == uint_val(s)) by (nonlinear_arith)
            requires
                uint_val(t) * pow10(s.len() - 1 - t.len()) == uint_val(s.drop_last()),
                pow10(s.len() - t.len()) == 10 * pow10(s.len() - 1 - t.len()),
                uint_val(s) == uint_val(s.drop_last()) * 10,
        ;
    } else {
        assert(pow10(0) == 1);
    }
}

/// A non-zero nanosecond count survives the nine-digit padding and the
/// trailing-zero stripping of the fractional text.
proof fn lemma_frac_round_trip(ns: int)
    requires
        1 <= ns <= 999_999_999,
    ensures
        frac_val_s(strip_zeros(pad_zeros(dec_str(ns as nat), 9))) == Some(ns),
{
    lemma_pow10_values();
    lemma_dec_str_len_pow(ns as nat, 9);
    lemma_pad_dec_val(ns as nat, 9);
    let s9 = pad_zeros(dec_str(ns as nat), 9);
    assert(s9.len() == 9);
    lemma_strip_val(s9);
}

/// A digit character is none of the text separators.
proof fn lemma_digit_not_sep(c: char)
    requires
        is_digit(c),
    ensures
        c != '-' && c != ':' && c != '.' && c != 'T' && c != ' ' && c != 'Z' && c != 'z',
{
}

/// The clock part of the time text parses back to its fields.
proof fn lemma_hms_text_round_trip(h: int, mi: int, s: int)
    requires
        0 <= h <= 99,
        0 <= mi <= 99,
        0 <= s <= 99,
    ensures
        ({
            let txt = two_digits_s(h) + seq![':'] + two_digits_s(mi) + seq![':'] + two_digits_s(
                s,
            );
            &&& txt.len() == 8
            &&& parse_hms_s(txt) == Some((h, mi, s))
            &&& forall|k: int|
                0 <= k < txt.len() ==> (is_digit(#[trigger] txt[k]) || txt[k] == ':')
        }),
{
    let aa = two_digits_s(h);
    let bb = two_digits_s(mi);
    let cc = two_digits_s(s);
    lemma_two_digits_round_trip(h);
    lemma_two_digits_round_trip(mi);
    lemma_two_digits_round_trip(s);
    let txt = aa + seq![':'] + bb + seq![':'] + cc;
    assert forall|k: int| 0 <= k < txt.len() implies (is_digit(#[trigger] txt[k]) || txt[k]
        == ':') by {
        if k < 2 {
            assert(txt[k] == aa[k]);
        } else if k == 2 {
            assert(txt[k] == ':');
        } else if k < 5 {
            assert(txt[k] == bb[k - 3]);
        } else if k == 5 {
            assert(txt[k] == ':');
        } else {
            assert(txt[k] == cc[k - 6]);
        }
    }
    assert forall|k: int| 0 <= k < 2 implies txt[k] != ':' by {
        assert(txt[k] == aa[k]);
        lemma_digit_not_sep(aa[k]);
    }
    assert(txt[2] == ':');
    lemma_first_occurrence(txt, ':', 2);
    let rest = txt.subrange(3, txt.len() as int);
    assert forall|k: int| 0 <= k < 2 implies rest[k] != ':' by {
        assert(rest[k] == txt[k + 3]);
        assert(txt[k + 3] == bb[k]);
        lemma_digit_not_sep(bb[k]);
    }
    assert(rest[2] == txt[5]);
    lemma_first_occurrence(rest, ':', 2);
    assert(txt.subrange(0, 2) =~= aa);
    assert(txt.subrange(3, 5) =~= bb);
    assert(txt.subrange(6, 8) =~= cc);
}

/// Law: formatting a valid time of day and parsing the text gives the
/// same fields back, fraction included.
pub proof fn lemma_time_text_round_trip(h: int, mi: int, s: int, ns: int)
    requires
        crate::time::valid_hmsn(h, mi, s, ns),
    ensures
        parse_time_s(time_text_s(h, mi, s, ns)) == Some((h, mi, s, ns)),
        forall|k: int|
            0 <= k < time_text_s(h, mi, s, ns).len() ==> (is_digit(
                #[trigger] time_text_s(h, mi, s, ns)[k],
            ) || time_text_s(h, mi, s, ns)[k] == ':' || time_text_s(h, mi, s, ns)[k] == '.'),
{
    lemma_hms_text_round_trip(h, mi, s);
    let hms = two_digits_s(h) + seq![':'] + two_digits_s(mi) + seq![':'] + two_digits_s(s);
    let txt = time_text_s(h, mi, s, ns);
    if ns == 0 {
        assert(txt =~= hms);
        assert forall|k: int| 0 <= k < txt.len() implies txt[k] != '.' by {
            if is_digit(txt[k]) {
                lemma_digit_not_sep(txt[k]);
            }
        }
        lemma_first_occurrence(txt, '.', txt.len() as int);
        assert(parse_hms_s(txt) == Some((h, mi, s)));
    } else {
        lemma_frac_round_trip(ns);
        let ft = strip_zeros(pad_zeros(dec_str(ns as nat), 9));
        assert(txt == hms + (seq!['.'] + ft));
        assert forall|k: int| 0 <= k < 8 implies txt[k] != '.' by {
            assert(txt[k] == hms[k]);
            if is_digit(hms[k]) {
                lemma_digit_not_sep(hms[k]);
            }
        }
        assert(txt[8] == (seq!['.'] + ft)[0]);
        lemma_first_occurrence(txt, '.', 8);
        assert(txt.subrange(0, 8) =~= hms);
        assert(txt.subrange(9, txt.len() as int) =~= ft);
        assert(parse_hms_s(txt.subrange(0, 8)) == Some((h, mi, s)));
        assert forall|k: int| 0 <= k < txt.len() implies (is_digit(#[trigger] txt[k]) || txt[k]
            == ':' || txt[k] == '.') by {
            if k < 8 {
                assert(txt[k] == hms[k]);
            } else if k == 8 {
                assert(txt[k] == '.');
            } else {
                assert(txt[k] == ft[k - 9]);
            }
        }
    }
}

/// Law: formatting a valid date of a non-negative year and parsing the
/// text gives the same fields back.  (A negative year prints with a
/// leading minus, which the dash-separated grammar cannot read back.)
pub proof fn lemma_date_text_round_trip(y: int, m: int, d: int)
    requires
        valid_ymd(y, m, d),
        0 <= y,
    ensures
        parse_date_s(date_text_s(y, m, d)) == Some((y, m, d)),
        forall|k: int|
            0 <= k < date_text_s(y, m, d).len() ==> (is_digit(#[trigger] date_text_s(y, m, d)[k])
                || date_text_s(y, m, d)[k] == '-'),
{
    let yy = year_text_s(y);
    let mm = two_digits_s(m);
    let dd = two_digits_s(d);
    lemma_pad_dec_val(y as nat, 4);
    lemma_two_digits_round_trip(m);
    lemma_two_digits_round_trip(d);
    let ll = yy.len() as int;
    let txt = date_text_s(y, m, d);
    assert(txt == yy + seq!['-'] + mm + seq!['-'] + dd);
    assert forall|k: int| 0 <= k < txt.len() implies (is_digit(#[trigger] txt[k]) || txt[k]
        == '-') by {
        if k < ll {
            assert(txt[k] == yy[k]);
        } else if k == ll {
            assert(txt[k] == '-');
        } else if k < ll + 3 {
            assert(txt[k] == mm[k - ll - 1]);
        } else if k == ll + 3 {
            assert(txt[k] == '-');
        } else {
            assert(txt[k] == dd[k - ll - 4]);
        }
    }
    assert forall|k: int| 0 <= k < ll implies txt[k] != '-' by {
        assert(txt[k] == yy[k]);
        lemma_digit_not_sep(yy[k]);
    }
    assert(txt[ll] == '-');
    lemma_first_occurrence(txt, '-', ll);
    let rest = txt.subrange(ll + 1, txt.len() as int);
    assert forall|k: int| 0 <= k < 2 implies rest[k] != '-' by {
        assert(rest[k] == txt[k + ll + 1]);
        assert(txt[k + ll + 1] == mm[k]);
        lemma_digit_not_sep(mm[k]);
    }
    assert(rest[2] == txt[ll + 3]);
    lemma_first_occurrence(rest, '-', 2);
    assert(txt.subrange(0, ll) =~= yy);
    assert(txt.subrange(ll + 1, ll + 3) =~= mm);
    assert(txt.subrange(ll + 4, txt.len() as int) =~= dd);
    assert(parse_uint_s(yy, 0x7fff_ffff) == Some(y));
}

/// Law: formatting a valid UTC instant of a non-negative year and parsing
/// the text gives the same date and time back.
pub proof fn lemma_datetime_text_round_trip(
    y: int,
    m: int,
    d: int,
    h: int,
    mi: int,
    s: int,
    ns: int,
)
    requires
        valid_ymd(y, m, d),
        crate::time::valid_hmsn(h, mi, s, ns),
        0 <= y,
    ensures
        parse_datetime_s(datetime_text_s(y, m, d, h, mi, s, ns)) == Some(
            ((y, m, d), (h, mi, s, ns)),
        ),
{
    lemma_date_text_round_trip(y, m, d);
    lemma_time_text_round_trip(h, mi, s, ns);
    let dtxt = date_text_s(y, m, d);
    let ttxt = time_text_s(h, mi, s, ns);
    let txt = datetime_text_s(y, m, d, h, mi, s, ns);
    assert(txt == dtxt + seq!['T'] + ttxt + seq!['Z']);
    assert(txt.last() == 'Z');
    let body = txt.drop_last();
    assert(body =~= dtxt + seq!['T'] + ttxt);
    let ll = dtxt.len() as int;
    assert forall|k: int| 0 <= k < ll implies body[k] != 'T' by {
        assert(body[k] == dtxt[k]);
        if is_digit(dtxt[k]) {
            lemma_digit_not_sep(dtxt[k]);
        }
    }
    assert(body[ll] == 'T');
    lemma_first_occurrence(body, 'T', ll);
    assert(body.subrange(0, ll) =~= dtxt);
    assert(body.subrange(ll + 1, body.len() as int) =~= ttxt);
}

// ----- parsing: grammar of each text form -----

/// Fields of a date text `Y-M-D`: the pieces before the first dash, between
/// the first and second dashes, and after the second dash.
pub open spec fn date_fields_s(ys: Seq<char>, ms: Seq<char>, ds: Seq<char>) -> Option<
    (int, int, int),
> {
    match (parse_uint_s(ys, 0x7fff_ffff), parse_uint_s(ms, 255), parse_uint_s(ds, 255)) {
        (Some(y), Some(m), Some(d)) => Some((y, m, d)),
        _ => None,
    }
}

/// The `(year, month, day)` a date parse reads from `s`.
pub open spec fn parse_date_s(s: Seq<char>) -> Option<(int, int, int)> {
    match s.index_of_first('-') {
        Some(i) => match s.subrange(i + 1, s.len() as int).index_of_first('-') {
            Some(j) => date_fields_s(
                s.subrange(0, i),
                s.subrange(i + 1, i + 1 + j),
                s.subrange(i + 2 + j, s.len() as int),
            ),
            None => None,
        },
        None => None,
    }
}

/// Fields of an `H:M:S` text, each at most three characters of digits.
pub open spec fn hms_fields_s(hs: Seq<char>, ms: Seq<char>, ss: Seq<char>) -> Option<
    (int, int, int),
> {
    match (parse_uint_s(hs, 255), parse_uint_s(ms, 255), parse_uint_s(ss, 255)) {
        (Some(h), Some(m), Some(sec)) => Some((h, m, sec)),
        _ => None,
    }
}

/// The `(hour, minute, second)` read from the part before any dot.
pub open spec fn parse_hms_s(s: Seq<char>) -> Option<(int, int, int)> {
    match s.index_of_first(':') {
        Some(i) => match s.subrange(i + 1, s.len() as int).index_of_first(':') {
            Some(j) => hms_fields_s(
                s.subrange(0, i),
                s.subrange(i + 1, i + 1 + j),
                s.subrange(i + 2 + j, s.len() as int),
            ),
            None => None,
        },
        None => None,
    }
}

/// Nanoseconds read from a fractional-second field: one to nine digits,
/// weighted as if right-padded with zeros to nine places.
pub open spec fn frac_val_s(f: Seq<char>) -> Option<int> {
    if 1 <= f.len() <= 9 && all_digits(f) {
        Some(uint_val(f) * pow10(9 - f.len()))
    } else {
        None
    }
}

/// Combine the clock fields with a fractional part.
pub open spec fn time_with_frac_s(hms: Option<(int, int, int)>, frac: Option<int>) -> Option<
    (int, int, int, int),
> {
    match (hms, frac) {
        (Some(t), Some(ns)) => Some((t.0, t.1, t.2, ns)),
        _ => None,
    }
}

/// The `(hour, minute, second, nanosecond)` a time parse reads from `s`.
pub open spec fn parse_time_s(s: Seq<char>) -> Option<(int, int, int, int)> {
    match s.index_of_first('.') {
        Some(p) => time_with_frac_s(
            parse_hms_s(s.subrange(0, p)),
            frac_val_s(s.subrange(p + 1, s.len() as int)),
        ),
        None => time_with_frac_s(parse_hms_s(s), Some(0)),
    }
}

/// Combine a date part and a time part.
pub open spec fn dt_fields_s(ds: Seq<char>, ts: Seq<char>) -> Option<
    ((int, int, int), (int, int, int, int)),
> {
    match (parse_date_s(ds), parse_time_s(ts)) {
        (Some(d), Some(t)) => Some((d, t)),
        _ => None,
    }
}

/// The date and time a UTC instant parse reads from `s`: a trailing `Z` or
/// `z`, and the rest split at the first `T`, or at the first space when
/// there is no `T`.
pub open spec fn parse_datetime_s(s: Seq<char>) -> Option<
    ((int, int, int), (int, int, int, int)),
> {
    if s.len() > 0 && (s.last() == 'Z' || s.last() == 'z') {
        split_dt_s(s.drop_last())
    } else {
        None
    }
}

/// Split a date-time body at the first `T`, or at the first space.
pub open spec fn split_dt_s(b: Seq<char>) -> Option<((int, int, int), (int, int, int, int))> {
    match b.index_of_first('T') {
        Some(t) => dt_fields_s(b.subrange(0, t), b.subrange(t + 1, b.len() as int)),
        None => match b.index_of_first(' ') {
            Some(p) => dt_fields_s(b.subrange(0, p), b.subrange(p + 1, b.len() as int)),
            None => None,
        },
    }
}

/// Signed offset seconds from a two-digit hour field and an absent or
/// two-digit minute field, under a sign.
pub open spec fn offset_hm_s(positive: bool, hs: Seq<char>, ms: Seq<char>) -> Option<int> {
    if hs.len() == 2 && (ms.len() == 0 || ms.len() == 2) {
        match (parse_uint_s(hs, 255), if ms.len() == 0 {
            Some(0int)
        } else {
            parse_uint_s(ms, 255)
        }) {
            (Some(h), Some(m)) => if h <= 23 && m <= 59 {
                if positive {
                    Some(h * 3600 + m * 60)
                } else {
                    Some(-(h * 3600 + m * 60))
                }
            } else {
                None
            },
            _ => None,
        }
    } else {
        None
    }
}

/// The signed offset seconds an offset parse reads from `s`: `Z`, `z`,
/// `±HH:MM`, `±HHMM` or `±HH`.
pub open spec fn parse_offset_s(s: Seq<char>) -> Option<int> {
    if s.len() == 1 && (s[0] == 'Z' || s[0] == 'z') {
        Some(0int)
    } else if s.len() < 3 {
        None
    } else if s[0] != '+' && s[0] != '-' {
        None
    } else {
        parse_offset_body_s(s[0] == '+', s.subrange(1, s.len() as int))
    }
}

/// The part of an offset after the sign: exactly `HH:MM`, `HHMM` or `HH`.
pub open spec fn parse_offset_body_s(positive: bool, b: Seq<char>) -> Option<int> {
    match b.index_of_first(':') {
        Some(k) => if k == 2 && b.len() == 5 {
            offset_hm_s(positive, b.subrange(0, 2), b.subrange(3, 5))
        } else {
            None
        },
        None => if b.len() == 2 {
            offset_hm_s(positive, b, Seq::empty())
        } else if b.len() == 4 {
            offset_hm_s(positive, b.subrange(0, 2), b.subrange(2, 4))
        } else {
            None
        },
    }
}

/// Index of the last `+` or `-` in `s`, or -1 if there is none.
pub open spec fn last_sign_s(s: Seq<char>) -> int
    decreases s.len(),
{
    if s.len() == 0 {
        -1int
    } else if s.last() == '+' || s.last() == '-' {
        s.len() - 1
    } else {
        last_sign_s(s.drop_last())
    }
}

/// A right-to-left scan that found a sign at `k`, or never, pins down the
/// last sign position.
proof fn lemma_last_sign(s: Seq<char>, k: int)
    requires
        -1 <= k < s.len(),
        forall|j: int| k < j < s.len() ==> #[trigger] s[j] != '+' && s[j] != '-',
        k >= 0 ==> s[k] == '+' || s[k] == '-',
    ensures
        last_sign_s(s) == k,
    decreases s.len(),
{
    if s.len() > 0 {
        if s.last() == '+' || s.last() == '-' {
            assert(k == s.len() - 1);
        } else {
            assert(k < s.len() - 1);
            lemma_last_sign(s.drop_last(), k);
        }
    }
}

/// The full offset date-time grammar: a `T`-or-space split, and a time
/// part ending in `Z`/`z` or carrying a trailing signed offset.
pub open spec fn parse_odt_s(s: Seq<char>) -> Option<
    ((int, int, int), (int, int, int, int), int),
> {
    split_odt_s(s)
}

/// Split the text at the first `T`, or at the first space.
pub open spec fn split_odt_s(b: Seq<char>) -> Option<
    ((int, int, int), (int, int, int, int), int),
> {
    match b.index_of_first('T') {
        Some(t) => odt_rest_s(b.subrange(0, t), b.subrange(t + 1, b.len() as int)),
        None => match b.index_of_first(' ') {
            Some(p) => odt_rest_s(b.subrange(0, p), b.subrange(p + 1, b.len() as int)),
            None => None,
        },
    }
}

/// The part after the date: either `…Z` or `…±offset`, split at the last
/// sign.
pub open spec fn odt_rest_s(ds: Seq<char>, rest: Seq<char>) -> Option<
    ((int, int, int), (int, int, int, int), int),
> {
    if rest.len() > 0 && (rest.last() == 'Z' || rest.last() == 'z') {
        odt_fields_s(ds, rest.drop_last(), Some(0int))
    } else if last_sign_s(rest) >= 0 {
        odt_fields_s(
            ds,
            rest.subrange(0, last_sign_s(rest)),
            parse_offset_s(rest.subrange(last_sign_s(rest), rest.len() as int)),
        )
    } else {
        None
    }
}

/// Combine the three parsed parts of an offset date-time.
pub open spec fn odt_fields_s(ds: Seq<char>, ts: Seq<char>, off: Option<int>) -> Option<
    ((int, int, int), (int, int, int, int), int),
> {
    match (parse_date_s(ds), parse_time_s(ts), off) {
        (Some(d), Some(t), Some(o)) => Some((d, t, o)),
        _ => None,
    }
}

// ----- executable parsers -----

/// The `10^k` table as a `u32`, for the fractional-second weights.
fn pow10_u32(k: usize) -> (r: u32)
    requires
        k <= 8,
    ensures
        r == pow10(k as int),
{
    proof {
        lemma_pow10_values();
    }
    match k {
        0 => 1,
        1 => 10,
        2 => 100,
        3 => 1000,
        4 => 10_000,
        5 => 100_000,
        6 => 1_000_000,
        7 => 10_000_000,
        _ => 100_000_000,
    }
}

/// Smaller powers of ten never exceed larger ones.
proof fn lemma_pow10_le(a: int, b: int)
    requires
        0 <= a <= b,
    ensures
        pow10(a) <= pow10(b),
    decreases b - a,
{
    if a < b {
        lemma_pow10_le(a, b - 1);
        assert(pow10(b) == 10 * pow10(b - 1));
        assert(pow10(a) >= 1) by {
            lemma_pow10_pos(a);
        }
        lemma_pow10_pos(b - 1);
    }
}

/// Powers of ten are positive.
proof fn lemma_pow10_pos(a: int)
    ensures
        pow10(a) >= 1,
    decreases (if a > 0 {
        a
    } else {
        0int
    }),
{
    if a > 0 {
        lemma_pow10_pos(a - 1);
    }
}

/// Parse the characters of `s` in `[from, to)` as a date `Y-M-D`.
fn parse_date_range(s: &str, from: usize, to: usize) -> (r: Option<(i32, u8, u8)>)
    requires
        from <= to <= s@.len(),
    ensures
        r is Some <==> parse_date_s(s@.subrange(from as int, to as int)) is Some,
        r matches Some(t) ==> parse_date_s(s@.subrange(from as int, to as int)) == Some(
            (t.0 as int, t.1 as int, t.2 as int),
        ),
{
    let ghost sub = s@.subrange(from as int, to as int);
    let i = find_char_from(s, from, to, '-');
    proof {
        assert forall|k: int| 0 <= k < i - from implies sub[k] != '-' by {
            assert(sub[k] == s@[k + from]);
        }
        if i < to {
            assert(sub[i - from] == s@[i as int]);
        }
        lemma_first_occurrence(sub, '-', i - from);
    }
    if i == to {
        return None;
    }
    let j = find_char_from(s, i + 1, to, '-');
    let ghost rest = sub.subrange(i - from + 1, sub.len() as int);
    proof {
        assert(rest =~= s@.subrange((i + 1) as int, to as int));
        assert forall|k: int| 0 <= k < j - i - 1 implies rest[k] != '-' by {
            assert(rest[k] == s@[k + i + 1]);
        }
        if j < to {
            assert(rest[j - i - 1] == s@[j as int]);
        }
        lemma_first_occurrence(rest, '-', j - i - 1);
    }
    if j == to {
        return None;
    }
    proof {
        assert(sub.subrange(0, i - from) =~= s@.subrange(from as int, i as int));
        assert(sub.subrange(i - from + 1, i - from + 1 + (j - i - 1)) =~= s@.subrange(
            (i + 1) as int,
            j as int,
        ));
        assert(sub.subrange(i - from + 2 + (j - i - 1), sub.len() as int) =~= s@.subrange(
            (j + 1) as int,
            to as int,
        ));
    }
    let y = match parse_uint_range(s, from, i, 2_147_483_647) {
        Some(v) => v,
        None => {
            return None;
        },
    };
    let m = match parse_uint_range(s, i + 1, j, 255) {
        Some(v) => v,
        None => {
            return None;
        },
    };
    let d = match parse_uint_range(s, j + 1, to, 255) {
        Some(v) => v,
        None => {
            return None;
        },
    };
    Some((y as i32, m as u8, d as u8))
}

/// Parse the characters of `s` in `[from, to)` as a clock `H:M:S`.
fn parse_hms_range(s: &str, from: usize, to: usize) -> (r: Option<(u8, u8, u8)>)
    requires
        from <= to <= s@.len(),
    ensures
        r is Some <==> parse_hms_s(s@.subrange(from as int, to as int)) is Some,
        r matches Some(t) ==> parse_hms_s(s@.subrange(from as int, to as int)) == Some(
            (t.0 as int, t.1 as int, t.2 as int),
        ),
{
    let ghost sub = s@.subrange(from as int, to as int);
    let i = find_char_from(s, from, to, ':');
    proof {
        assert forall|k: int| 0 <= k < i - from implies sub[k] != ':' by {
            assert(sub[k] == s@[k + from]);
        }
        if i < to {
            assert(sub[i - from] == s@[i as int]);
        }
        lemma_first_occurrence(sub, ':', i - from);
    }
    if i == to {
        return None;
    }
    let j = find_char_from(s, i + 1, to, ':');
    let ghost rest = sub.subrange(i - from + 1, sub.len() as int);
    proof {
        assert(rest =~= s@.subrange((i + 1) as int, to as int));
        assert forall|k: int| 0 <= k < j - i - 1 implies rest[k] != ':' by {
            assert(rest[k] == s@[k + i + 1]);
        }
        if j < to {
            assert(rest[j - i - 1] == s@[j as int]);
        }
        lemma_first_occurrence(rest, ':', j - i - 1);
    }
    if j == to {
        return None;
    }
    proof {
        assert(sub.subrange(0, i - from) =~= s@.subrange(from as int, i as int));
        assert(sub.subrange(i - from + 1, i - from + 1 + (j - i - 1)) =~= s@.subrange(
            (i + 1) as int,
            j as int,
        ));
        assert(sub.subrange(i - from + 2 + (j - i - 1), sub.len() as int) =~= s@.subrange(
            (j + 1) as int,
            to as int,
        ));
    }
    let h = match parse_uint_range(s, from, i, 255) {
        Some(v) => v,
        None => {
            return None;
        },
    };
    let mi = match parse_uint_range(s, i + 1, j, 255) {
        Some(v) => v,
        None => {
            return None;
        },
    };
    let sec = match parse_uint_range(s, j + 1, to, 255) {
        Some(v) => v,
        None => {
            return None;
        },
    };
    Some((h as u8, mi as u8, sec as u8))
}

/// Parse the characters of `s` in `[from, to)` as a fractional-second
/// field of one to nine digits.
fn parse_frac_range(s: &str, from: usize, to: usize) -> (r: Option<u32>)
    requires
        from <= to <= s@.len(),
    ensures
        r is Some <==> frac_val_s(s@.subrange(from as int, to as int)) is Some,
        r matches Some(v) ==> frac_val_s(s@.subrange(from as int, to as int)) == Some(v as int)
            && v < 1_000_000_000,
{
    let ghost fsub = s@.subrange(from as int, to as int);
    let flen = to - from;
    if flen == 0 || flen > 9 {
        return None;
    }
    let v = match parse_uint_range(s, from, to, 999_999_999) {
        Some(v) => v,
        None => {
            proof {
                if all_digits(fsub) {
                    lemma_uint_val_bounds(fsub);
                    lemma_pow10_le(fsub.len() as int, 9);
                    lemma_pow10_values();
                    assert(parse_uint_s(fsub, 999_999_999) is Some);
                }
            }
            return None;
        },
    };
    proof {
        lemma_uint_val_bounds(fsub);
        lemma_pow10_values();
        lemma_pow10_mul(flen as int, 9 - flen as int);
    }
    let scale = pow10_u32(9 - flen);
    proof {
        assert((v as int) * (scale as int) + pow10(9 - flen as int) <= 1_000_000_000)
            by (nonlinear_arith)
            requires
                (v as int) < pow10(flen as int),
                0 <= v,
                (scale as int) == pow10(9 - flen as int),
                pow10(flen as int) * pow10(9 - flen as int) == pow10(9),
                pow10(9) == 1_000_000_000,
                pow10(9 - flen as int) >= 1,
        ;
    }
    Some((v as u32) * scale)
}

/// Parse the characters of `s` in `[from, to)` as a time
/// `H:M:S[.fffffffff]`.
fn parse_time_range(s: &str, from: usize, to: usize) -> (r: Option<(u8, u8, u8, u32)>)
    requires
        from <= to <= s@.len(),
    ensures
        r is Some <==> parse_time_s(s@.subrange(from as int, to as int)) is Some,
        r matches Some(t) ==> parse_time_s(s@.subrange(from as int, to as int)) == Some(
            (t.0 as int, t.1 as int, t.2 as int, t.3 as int),
        ) && t.3 < 1_000_000_000,
{
    let ghost sub = s@.subrange(from as int, to as int);
    let p = find_char_from(s, from, to, '.');
    proof {
        assert forall|k: int| 0 <= k < p - from implies sub[k] != '.' by {
            assert(sub[k] == s@[k + from]);
        }
        if p < to {
            assert(sub[p - from] == s@[p as int]);
        }
        lemma_first_occurrence(sub, '.', p - from);
    }
    if p < to {
        proof {
            assert(sub.subrange(0, p - from) =~= s@.subrange(from as int, p as int));
            assert(sub.subrange(p - from + 1, sub.len() as int) =~= s@.subrange(
                (p + 1) as int,
                to as int,
            ));
        }
        let hms = match parse_hms_range(s, from, p) {
            Some(t) => t,
            None => {
                return None;
            },
        };
        let ns = match parse_frac_range(s, p + 1, to) {
            Some(v) => v,
            None => {
                return None;
            },
        };
        Some((hms.0, hms.1, hms.2, ns))
    } else {
        let hms = match parse_hms_range(s, from, to) {
            Some(t) => t,
            None => {
                return None;
            },
        };
        Some((hms.0, hms.1, hms.2, 0))
    }
}

/// Powers of ten multiply by adding exponents.
proof fn lemma_pow10_mul(a: int, b: int)
    requires
        0 <= a,
        0 <= b,
    ensures
        pow10(a) * pow10(b) == pow10(a + b),
    decreases a,
{
    if a == 0 {
    } else {
        lemma_pow10_mul(a - 1, b);
        assert(pow10(a) * pow10(b) == pow10(a + b)) by (nonlinear_arith)
            requires
                pow10(a) == 10 * pow10(a - 1),
                pow10(a - 1) * pow10(b) == pow10(a - 1 + b),
                pow10(a + b) == 10 * pow10(a - 1 + b),
        ;
    }
}

impl Date {
    /// Parse `Y-M-D`: three dash-separated decimal fields forming a valid
    /// calendar date.
    pub fn parse(s: &str) -> (r: Result<Date, DateError>)
        ensures
            r is Ok <==> (parse_date_s(s@) matches Some(t) && valid_ymd(t.0, t.1, t.2)),
            r matches Ok(d) ==> d.wf() && parse_date_s(s@) == Some(
                (d.year as int, d.month as int, d.day as int),
            ),
            r is Err ==> r == Err::<Date, DateError>(DateError::InvalidDate),
    {
        let n = s.unicode_len();
        proof {
            assert(s@.subrange(0, n as int) =~= s@);
        }
        match parse_date_range(s, 0, n) {
            Some((y, m, d)) => match Date::from_ymd(y, m, d) {
                Ok(date) => Ok(date),
                Err(_) => Err(DateError::InvalidDate),
            },
            None => Err(DateError::InvalidDate),
        }
    }
}

impl Time {
    /// Parse `H:M:S[.f…]`: colon-separated decimal fields and an optional
    /// fraction of one to nine digits, forming a valid time of day.
    pub fn parse(s: &str) -> (r: Result<Time, crate::time::TimeError>)
        ensures
            r is Ok <==> (parse_time_s(s@) matches Some(t) && crate::time::valid_hmsn(
                t.0,
                t.1,
                t.2,
                t.3,
            )),
            r matches Ok(t) ==> t.wf() && parse_time_s(s@) == Some(
                (t.hour as int, t.minute as int, t.second as int, t.nanosecond as int),
            ),
            r is Err ==> r == Err::<Time, crate::time::TimeError>(
                crate::time::TimeError::InvalidTime,
            ),
    {
        let n = s.unicode_len();
        proof {
            assert(s@.subrange(0, n as int) =~= s@);
        }
        match parse_time_range(s, 0, n) {
            Some((h, mi, sec, ns)) => match Time::from_hms_nano(h, mi, sec, ns) {
                Ok(t) => Ok(t),
                Err(_) => Err(crate::time::TimeError::InvalidTime),
            },
            None => Err(crate::time::TimeError::InvalidTime),
        }
    }
}

impl crate::datetime::DateTime {
    /// Parse `date T time Z` (or a space for the `T`, and `z` for the `Z`):
    /// a UTC instant.
    pub fn parse(s: &str) -> (r: Result<crate::datetime::DateTime, ()>)
        ensures
            r is Ok <==> (parse_datetime_s(s@) matches Some(q) && valid_ymd(q.0.0, q.0.1, q.0.2)
                && crate::time::valid_hmsn(q.1.0, q.1.1, q.1.2, q.1.3)),
            r matches Ok(dt) ==> dt.wf() && parse_datetime_s(s@) == Some(
                (
                    (dt.date.year as int, dt.date.month as int, dt.date.day as int),
                    (
                        dt.time.hour as int,
                        dt.time.minute as int,
                        dt.time.second as int,
                        dt.time.nanosecond as int,
                    ),
                ),
            ),
            r is Err ==> r == Err::<crate::datetime::DateTime, ()>(()),
    {
        let n = s.unicode_len();
        if n == 0 {
            return Err(());
        }
        let last = s.get_char(n - 1);
        if last != 'Z' && last != 'z' {
            return Err(());
        }
        let ghost body = s@.drop_last();
        proof {
            assert(body =~= s@.subrange(0, (n - 1) as int));
        }
        let t = find_char_from(s, 0, n - 1, 'T');
        proof {
            assert forall|k: int| 0 <= k < t implies body[k] != 'T' by {
                assert(body[k] == s@[k]);
            }
            if t < n - 1 {
                assert(body[t as int] == s@[t as int]);
            }
            lemma_first_occurrence(body, 'T', t as int);
        }
        let (dfrom, dto, tfrom) = if t < n - 1 {
            (0usize, t, t + 1)
        } else {
            let p = find_char_from(s, 0, n - 1, ' ');
            proof {
                assert forall|k: int| 0 <= k < p implies body[k] != ' ' by {
                    assert(body[k] == s@[k]);
                }
                if p < n - 1 {
                    assert(body[p as int] == s@[p as int]);
                }
                lemma_first_occurrence(body, ' ', p as int);
            }
            if p == n - 1 {
                return Err(());
            }
            (0usize, p, p + 1)
        };
        proof {
            assert(body.subrange(0, dto as int) =~= s@.subrange(0, dto as int));
            assert(body.subrange(tfrom as int, body.len() as int) =~= s@.subrange(
                tfrom as int,
                (n - 1) as int,
            ));
        }
        let date = match parse_date_range(s, dfrom, dto) {
            Some((y, m, d)) => match Date::from_ymd(y, m, d) {
                Ok(date) => date,
                Err(_) => {
                    return Err(());
                },
            },
            None => {
                return Err(());
            },
        };
        let time = match parse_time_range(s, tfrom, n - 1) {
            Some((h, mi, sec, ns)) => match Time::from_hms_nano(h, mi, sec, ns) {
                Ok(time) => time,
                Err(_) => {
                    return Err(());
                },
            },
            None => {
                return Err(());
            },
        };
        Ok(crate::datetime::DateTime::new(date, time))
    }
}

/// Parse the characters of `s` in `[from, to)` as an RFC 3339-style
/// offset.
fn parse_offset_range(s: &str, from: usize, to: usize) -> (r: Option<i32>)
    requires
        from <= to <= s@.len(),
    ensures
        r is Some <==> parse_offset_s(s@.subrange(from as int, to as int)) is Some,
        r matches Some(v) ==> parse_offset_s(s@.subrange(from as int, to as int)) == Some(
            v as int,
        ) && -86_340 <= v <= 86_340,
{
    let ghost sub = s@.subrange(from as int, to as int);
    let len = to - from;
    if len == 1 {
        let c0 = s.get_char(from);
        if c0 == 'Z' || c0 == 'z' {
            return Some(0);
        }
        return None;
    }
    if len < 3 {
        return None;
    }
    let c0 = s.get_char(from);
    if c0 != '+' && c0 != '-' {
        return None;
    }
    let positive = c0 == '+';
    let ghost b = sub.subrange(1, sub.len() as int);
    proof {
        assert(b =~= s@.subrange((from + 1) as int, to as int));
    }
    let k = find_char_from(s, from + 1, to, ':');
    proof {
        assert forall|j: int| 0 <= j < k - from - 1 implies b[j] != ':' by {
            assert(b[j] == s@[j + from + 1]);
        }
        if k < to {
            assert(b[k - from - 1] == s@[k as int]);
        }
        lemma_first_occurrence(b, ':', k - from - 1);
    }
    let (hfrom, hto, mfrom, mto) = if k < to {
        // The only accepted form with a colon is a two-digit hour, the
        // colon, and exactly two digits of minutes.
        if k != from + 3 || len - 1 != 5 {
            return None;
        }
        (from + 1, k, k + 1, to)
    } else if len - 1 == 2 {
        (from + 1, to, to, to)
    } else if len - 1 == 4 {
        (from + 1, from + 3, from + 3, to)
    } else {
        return None;
    };
    let ghost hs = s@.subrange(hfrom as int, hto as int);
    let ghost ms = s@.subrange(mfrom as int, mto as int);
    proof {
        if k < to {
            assert(hs =~= b.subrange(0, 2));
            assert(ms =~= b.subrange(3, 5));
        } else if len - 1 == 2 {
            assert(hs =~= b);
            assert(ms =~= Seq::<char>::empty());
        } else if len - 1 == 4 {
            assert(hs =~= b.subrange(0, 2));
            assert(ms =~= b.subrange(2, 4));
        }
    }
    let h = match parse_uint_range(s, hfrom, hto, 255) {
        Some(v) => v,
        None => {
            return None;
        },
    };
    let m = if mfrom == mto {
        0u64
    } else {
        match parse_uint_range(s, mfrom, mto, 255) {
            Some(v) => v,
            None => {
                return None;
            },
        }
    };
    if h > 23 || m > 59 {
        return None;
    }
    let total: i32 = (h as i32) * 3600 + (m as i32) * 60;
    if positive {
        Some(total)
    } else {
        Some(-total)
    }
}

/// Parse an RFC 3339-style UTC offset: exactly `Z`, `z`, `±HH:MM`,
/// `±HHMM` or `±HH` (minutes default to zero).
pub fn parse_rfc3339_offset(s: &str) -> (r: Result<crate::offset::UtcOffset, ()>)
    ensures
        r is Ok <==> parse_offset_s(s@) is Some,
        r matches Ok(o) ==> o.wf() && parse_offset_s(s@) == Some(o.seconds_s()),
        r is Err ==> r == Err::<crate::offset::UtcOffset, ()>(()),
{
    let n = s.unicode_len();
    proof {
        assert(s@.subrange(0, n as int) =~= s@);
    }
    match parse_offset_range(s, 0, n) {
        Some(v) => match crate::offset::UtcOffset::from_seconds(v) {
            Ok(o) => Ok(o),
            Err(_) => Err(()),
        },
        None => Err(()),
    }
}

/// One past the last `+` or `-` in `[from, to)`, or `from` if none.
fn find_last_sign(s: &str, from: usize, to: usize) -> (r: usize)
    requires
        from <= to <= s@.len(),
    ensures
        from <= r <= to,
        forall|j: int| r <= j < to ==> #[trigger] s@[j] != '+' && s@[j] != '-',
        r > from ==> s@[r - 1] == '+' || s@[r - 1] == '-',
{
    let mut kk = to;
    while kk > from
        invariant
            from <= kk <= to <= s@.len(),
            forall|j: int| kk <= j < to ==> #[trigger] s@[j] != '+' && s@[j] != '-',
        decreases kk,
    {
        let c = s.get_char(kk - 1);
        if c == '+' || c == '-' {
            return kk;
        }
        kk = kk - 1;
    }
    from
}

/// The nanoseconds since the epoch of the local reading that an offset
/// date-time parse produced, before the offset is subtracted.
pub open spec fn odt_local_nanos_s(q: ((int, int, int), (int, int, int, int), int)) -> int {
    (crate::codec::days_from_civil_s(q.0.0, q.0.1, q.0.2) * 86_400 + (q.1.0 * 3600 + q.1.1 * 60
        + q.1.2)) * 1_000_000_000 + q.1.3
}

/// Locate the date/time/offset windows of an offset date-time text
/// `s[a..bb]`: the date before the first `T` (or space), then the time, and
/// a trailing `Z`/`z` or a last-sign-started offset.
#[verifier::rlimit(100)]
fn split_odt_windows(s: &str, a: usize, bb: usize) -> (r: Option<(usize, usize, usize, bool)>)
    requires
        a <= bb <= s@.len(),
    ensures
        ({
            let tr = s@.subrange(a as int, bb as int);
            &&& (r is None ==> split_odt_s(tr) is None)
            &&& (r matches Some(t) ==> a <= t.0 < t.1 <= t.2 <= bb && t.1 <= bb && split_odt_s(tr)
                == odt_fields_s(
                s@.subrange(a as int, t.0 as int),
                s@.subrange(t.1 as int, t.2 as int),
                if t.3 {
                    Some(0int)
                } else {
                    parse_offset_s(s@.subrange(t.2 as int, bb as int))
                },
            ))
        }),
{
    let ghost tr = s@.subrange(a as int, bb as int);
    let t = find_char_from(s, a, bb, 'T');
    proof {
        assert forall|k: int| 0 <= k < t - a implies tr[k] != 'T' by {
            assert(tr[k] == s@[k + a]);
        }
        if t < bb {
            assert(tr[t - a] == s@[t as int]);
        }
        lemma_first_occurrence(tr, 'T', t - a);
    }
    let (dto, rfrom) = if t < bb {
        (t, t + 1)
    } else {
        let p = find_char_from(s, a, bb, ' ');
        proof {
            assert forall|k: int| 0 <= k < p - a implies tr[k] != ' ' by {
                assert(tr[k] == s@[k + a]);
            }
            if p < bb {
                assert(tr[p - a] == s@[p as int]);
            }
            lemma_first_occurrence(tr, ' ', p - a);
        }
        if p == bb {
            return None;
        }
        (p, p + 1)
    };
    let ghost rest = tr.subrange(dto - a + 1, tr.len() as int);
    proof {
        assert(tr.subrange(0, dto - a) =~= s@.subrange(a as int, dto as int));
        assert(rest =~= s@.subrange(rfrom as int, bb as int));
    }
    let is_z = if rfrom < bb {
        let lc = s.get_char(bb - 1);
        lc == 'Z' || lc == 'z'
    } else {
        false
    };
    if is_z {
        proof {
            assert(rest.len() > 0 && (rest.last() == 'Z' || rest.last() == 'z'));
            assert(rest.drop_last() =~= s@.subrange(rfrom as int, (bb - 1) as int));
        }
        return Some((dto, rfrom, bb - 1, true));
    }
    let kk = find_last_sign(s, rfrom, bb);
    if kk == rfrom {
        proof {
            assert forall|j: int| 0 <= j < rest.len() implies #[trigger] rest[j] != '+' && rest[j]
                != '-' by {
                assert(rest[j] == s@[j + rfrom]);
            }
            lemma_last_sign(rest, -1);
        }
        return None;
    }
    proof {
        assert(s@[kk - 1] == '+' || s@[kk - 1] == '-');
        assert forall|j: int| kk - 1 - rfrom < j < rest.len() implies #[trigger] rest[j] != '+'
            && rest[j] != '-' by {
            assert(rest[j] == s@[j + rfrom]);
        }
        assert(rest[kk - 1 - rfrom] == s@[kk - 1]);
        lemma_last_sign(rest, kk - 1 - rfrom);
        assert(rest.subrange(0, last_sign_s(rest)) =~= s@.subrange(rfrom as int, (kk - 1) as int));
        assert(rest.subrange(last_sign_s(rest), rest.len() as int) =~= s@.subrange(
            (kk - 1) as int,
            bb as int,
        ));
    }
    Some((dto, rfrom, kk - 1, false))
}

impl crate::offset::OffsetDateTime {
    /// Parse an RFC 3339-style offset date-time: the local reading, then
    /// `Z`/`z` or a signed offset, converted to the UTC instant.
    pub fn parse(s: &str) -> (r: Result<crate::offset::OffsetDateTime, ()>)
        ensures
            r is Ok <==> (parse_odt_s(s@) matches Some(q) && valid_ymd(q.0.0, q.0.1, q.0.2)
                && crate::time::valid_hmsn(q.1.0, q.1.1, q.1.2, q.1.3)
                && crate::datetime::UNIX_NANOS_MIN <= odt_local_nanos_s(q) - q.2 * 1_000_000_000
                <= crate::datetime::UNIX_NANOS_MAX),
            r matches Ok(o) ==> o.wf() && (parse_odt_s(s@) matches Some(q)
                && o.offset.seconds_s() == q.2 && o.utc.unix_nanos_s() == odt_local_nanos_s(q)
                - q.2 * 1_000_000_000),
            r is Err ==> r == Err::<crate::offset::OffsetDateTime, ()>(()),
    {
        let n = s.unicode_len();
        let a: usize = 0;
        let bb = n;
        proof {
            assert(s@.subrange(0, n as int) =~= s@);
        }
        let (dto, rfrom, tto, is_z) = match split_odt_windows(s, a, bb) {
            Some(t) => t,
            None => {
                return Err(());
            },
        };
        let date = match parse_date_range(s, a, dto) {
            Some((y, m, d)) => match Date::from_ymd(y, m, d) {
                Ok(date) => date,
                Err(_) => {
                    return Err(());
                },
            },
            None => {
                return Err(());
            },
        };
        let time = match parse_time_range(s, rfrom, tto) {
            Some((h, mi, sec, ns)) => match Time::from_hms_nano(h, mi, sec, ns) {
                Ok(time) => time,
                Err(_) => {
                    return Err(());
                },
            },
            None => {
                return Err(());
            },
        };
        let offset = if is_z {
            match crate::offset::UtcOffset::from_seconds(0) {
                Ok(o) => o,
                Err(_) => {
                    return Err(());
                },
            }
        } else {
            match parse_offset_range(s, tto, bb) {
                Some(v) => match crate::offset::UtcOffset::from_seconds(v) {
                    Ok(o) => o,
                    Err(_) => {
                        return Err(());
                    },
                },
                None => {
                    return Err(());
                },
            }
        };
        match crate::offset::OffsetDateTime::from_local(date, time, offset) {
            Ok(odt) => Ok(odt),
            Err(_) => Err(()),
        }
    }
}

} // verus!
